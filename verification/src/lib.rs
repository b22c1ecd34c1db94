//! A dispute-resolution game over published reputation scores.
//!
//! A pathfinder publishes a score for a target account. A challenger may
//! dispute it, and the two then take turns: the pathfinder commits to ordered
//! levels of partial results, the challenger picks a cell to look into, and at
//! the deepest level concrete trust paths are compared. Settlement pays the
//! pooled funds out to the parties and, after a waiting period, to a sweeper.
//!
//! The crate holds the rules of that game as functions on plain values, each
//! with a proved contract. The currency and the trust graph are left to the
//! caller, who pays out what a move returns and hands in what the graph says.

pub mod bytes;
pub mod challenges;
pub mod commitment;
pub mod fee;
pub mod full_order;
pub mod hashing;
pub mod laws;
pub mod levels;
pub mod pallet;
pub mod paths;
pub mod primitives;
pub mod refresh_seeds;
pub mod score_list;

pub use fee::{SweeperFee, SWEEPER_PERIOD, SWEEPER_PICKUP_RATIO};
pub use primitives::{
    appro_ln, AccountId, AppId, Balance, BlockNumber, ChallengeInfo, ChallengeStatus, CurrencyId,
    TIRStep,
};
