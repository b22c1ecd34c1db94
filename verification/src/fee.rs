//! The sweeper's fee: who may collect it, and how an amount is split.

use crate::primitives::{Balance, BlockNumber};
use sp_runtime::Perbill;
use vstd::prelude::*;

verus! {

/// Blocks that must pass after the last update before a sweeper may step in.
pub const SWEEPER_PERIOD: u64 = 500;

/// The sweeper's share of what it collects, in parts per billion: two percent.
pub const SWEEPER_PICKUP_RATIO: u32 = 20_000_000;

/// The denominator of a share given in parts per billion.
pub const BILLION: u32 = 1_000_000_000;

/// A sweeper may step in when more than `SWEEPER_PERIOD` blocks lie between
/// `last` and `now`.
pub open spec fn sweeper_allowed(last: BlockNumber, now: BlockNumber) -> bool {
    last + SWEEPER_PERIOD < now
}

/// The share `parts / BILLION` of `amount`, rounded down.
pub open spec fn share_floor(parts: u32, amount: Balance) -> nat {
    ((parts as nat) * (amount as nat)) / (BILLION as nat)
}

/// The sweeper's fee on `amount`.
pub open spec fn sweeper_fee(amount: Balance) -> nat {
    share_floor(SWEEPER_PICKUP_RATIO, amount)
}

/// `Perbill::from_parts(parts).mul_floor(amount)` of `sp_runtime`: the share
/// `parts / 1_000_000_000` of `amount`, rounded down to a whole number. The
/// outside code splits `amount` by the billion and adds the two products; the
/// contract states the sum. `parts` above a billion would be clamped there,
/// and are left out.
#[verifier::external_body]
fn perbill_mul_floor(parts: u32, amount: Balance) -> (share: Balance)
    requires
        parts <= BILLION,
    ensures
        share == share_floor(parts, amount),
{
    Perbill::from_parts(parts).mul_floor(amount)
}

/// A share of an amount is never more than the amount.
pub proof fn lemma_share_floor_bounded(parts: u32, amount: Balance)
    requires
        parts <= BILLION,
    ensures
        share_floor(parts, amount) <= amount,
{
    let p = parts as nat;
    let a = amount as nat;
    let b = BILLION as nat;
    assert(p * a <= b * a) by (nonlinear_arith)
        requires
            p <= b,
    ;
    assert((p * a) / b <= a) by (nonlinear_arith)
        requires
            p * a <= b * a,
            b > 0,
    ;
}

/// The sweeper's fee is the fiftieth part of the amount, rounded down.
pub proof fn lemma_sweeper_fee_is_fiftieth(amount: Balance)
    ensures
        sweeper_fee(amount) == (amount as nat) / 50,
{
    let a = amount as nat;
    assert((20_000_000 * a) / 1_000_000_000 == a / 50) by (nonlinear_arith);
}

/// An amount from which a sweeper may take a fee.
pub trait SweeperFee: Sized {
    /// The fee and what is left of the amount once the fee is taken.
    spec fn fee_split(&self) -> (Self, Self);

    /// Whether to allow `sweeper` participation when the last active time
    /// is `last` and the current time is `now`.
    fn is_allowed_sweeper(last: BlockNumber, now: BlockNumber) -> (allowed: bool)
        ensures
            allowed == sweeper_allowed(last, now),
    ;

    /// Returns a checked `fee` and the remaining amount.
    fn checked_with_fee(&self, last: BlockNumber, now: BlockNumber) -> (split: Option<(Self, Self)>)
        ensures
            split == if sweeper_allowed(last, now) {
                Some(self.fee_split())
            } else {
                None
            },
    ;

    /// Returns the unchecked `fee` and the remaining amount.
    fn with_fee(&self) -> (split: (Self, Self))
        ensures
            split == self.fee_split(),
    ;
}

impl SweeperFee for Balance {
    open spec fn fee_split(&self) -> (Balance, Balance) {
        (sweeper_fee(*self) as Balance, (*self - sweeper_fee(*self)) as Balance)
    }

    fn is_allowed_sweeper(last: BlockNumber, now: BlockNumber) -> (allowed: bool) {
        now > SWEEPER_PERIOD && last < now - SWEEPER_PERIOD
    }

    fn checked_with_fee(&self, last: BlockNumber, now: BlockNumber) -> (split: Option<
        (Balance, Balance),
    >) {
        if Balance::is_allowed_sweeper(last, now) {
            Some(self.with_fee())
        } else {
            None
        }
    }

    fn with_fee(&self) -> (split: (Balance, Balance)) {
        proof {
            lemma_share_floor_bounded(SWEEPER_PICKUP_RATIO, *self);
        }
        let sweeper_fee = perbill_mul_floor(SWEEPER_PICKUP_RATIO, *self);
        (sweeper_fee, *self - sweeper_fee)
    }
}

/// The two parts of a split add up to the amount, and the fee is the
/// fiftieth part of it, rounded down.
pub proof fn lemma_fee_split_conserves(amount: Balance)
    ensures
        amount.fee_split().0 + amount.fee_split().1 == amount,
        amount.fee_split().0 == amount / 50,
{
    lemma_share_floor_bounded(SWEEPER_PICKUP_RATIO, amount);
    lemma_sweeper_fee_is_fiftieth(amount);
}

} // verus!
