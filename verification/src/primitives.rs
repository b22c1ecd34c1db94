//! Types and constants shared by every part of the game.

use vstd::prelude::*;

verus! {

/// An account, by its number.
pub type AccountId = u64;

/// The application that a challenge belongs to.
pub type AppId = [u8; 8];

/// Balance of an account.
pub type Balance = u128;

/// The height of a block.
pub type BlockNumber = u64;

/// The tokens that the system knows.
#[derive(Debug, PartialEq, Eq, Structural, Copy, Clone, PartialOrd, Ord)]
pub enum CurrencyId {
    ZDAO,
    SOCI,
}

/// The system is in the state of the algorithm.
#[derive(Debug, PartialEq, Eq, Structural, Copy, Clone)]
pub enum TIRStep {
    Free,
    Seed,
    Reputation,
}

impl Default for TIRStep {
    fn default() -> (step: TIRStep)
        ensures
            step == TIRStep::Free,
    {
        TIRStep::Free
    }
}

/// The state of the challenge game.
#[derive(Debug, PartialEq, Eq, Structural, Copy, Clone)]
pub enum ChallengeStatus {
    Free,
    Examine,
    Reply,
    Evidence,
    Arbitral,
}

impl Default for ChallengeStatus {
    fn default() -> (status: ChallengeStatus)
        ensures
            status == ChallengeStatus::Examine,
    {
        ChallengeStatus::Examine
    }
}

/// Marks a type that can report on a challenge.
pub trait ChallengeInfo {
}

/// The natural logarithm of `value`, rounded to a whole number between 1 and 8:
/// the least `k` with `value` below `e^k` rounded up, and 8 from `e^7` on.
pub open spec fn ln_bucket(value: nat) -> nat {
    if value < 3 {
        1
    } else if value < 8 {
        2
    } else if value < 21 {
        3
    } else if value < 55 {
        4
    } else if value < 149 {
        5
    } else if value < 404 {
        6
    } else if value < 1097 {
        7
    } else {
        8
    }
}

/// Returns the natural logarithm approximated to an integer, up to a maximum of 8.
pub fn appro_ln(value: u32) -> (ln: u32)
    ensures
        ln == ln_bucket(value as nat),
        1 <= ln <= 8,
{
    if value < 3 {
        1
    } else if value < 8 {
        2
    } else if value < 21 {
        3
    } else if value < 55 {
        4
    } else if value < 149 {
        5
    } else if value < 404 {
        6
    } else if value < 1097 {
        7
    } else {
        8
    }
}

/// A larger value never has a smaller logarithm.
pub proof fn lemma_appro_ln_monotone(a: nat, b: nat)
    requires
        a <= b,
    ensures
        ln_bucket(a) <= ln_bucket(b),
{
}

/// A pool of funds secured by staking and earnings.
#[derive(Debug, Clone, Copy, PartialEq, Eq, Structural)]
pub struct Pool {
    pub staking: Balance,
    pub earnings: Balance,
}

/// Information on the progress of the breakpoint transfer.
#[derive(Debug, Clone, Copy, PartialEq, Eq, Structural)]
pub struct Progress {
    pub total: u32,
    pub done: u32,
}

/// Challenge game metadata.
#[derive(Debug, Clone, Copy, PartialEq, Eq, Structural)]
pub struct Metadata {
    /// Current pool of funds.
    pub pool: Pool,
    /// Whether `pathfinder` and the challenger are co-beneficiaries.
    pub joint_benefits: bool,
    /// Information on the progress of the breakpoint transfer.
    pub progress: Progress,
    /// Last updated.
    pub last_update: BlockNumber,
    /// Remarks data for storing useful information.
    pub remark: u32,
    /// Current score.
    pub score: u64,
    /// `AccountId` of `pathfinder`.
    pub pathfinder: AccountId,
    /// The current state of challenge.
    pub status: ChallengeStatus,
    /// The `AccountId` of challenger.
    pub challenger: AccountId,
}

impl Default for Metadata {
    fn default() -> (m: Metadata)
        ensures
            m == (Metadata {
                pool: Pool { staking: 0, earnings: 0 },
                joint_benefits: false,
                progress: Progress { total: 0, done: 0 },
                last_update: 0,
                remark: 0,
                score: 0,
                pathfinder: 0,
                status: ChallengeStatus::Examine,
                challenger: 0,
            }),
    {
        Metadata {
            pool: Pool { staking: 0, earnings: 0 },
            joint_benefits: false,
            progress: Progress { total: 0, done: 0 },
            last_update: 0,
            remark: 0,
            score: 0,
            pathfinder: 0,
            status: ChallengeStatus::Examine,
            challenger: 0,
        }
    }
}

impl Metadata {
    /// The total amount of the pool of funds.
    pub fn total_amount(&self) -> (total: Option<Balance>)
        ensures
            self.pool.staking + self.pool.earnings <= Balance::MAX ==> total == Some(
                (self.pool.staking + self.pool.earnings) as Balance,
            ),
            self.pool.staking + self.pool.earnings > Balance::MAX ==> total.is_none(),
    {
        self.pool.staking.checked_add(self.pool.earnings)
    }

    /// Are all uploads complete.
    pub fn is_all_done(&self) -> (done: bool)
        ensures
            done == (self.progress.total == self.progress.done),
    {
        self.progress.total == self.progress.done
    }

    /// Whether the upload is not finished.
    pub fn check_progress(&self) -> (ok: bool)
        ensures
            ok == (self.progress.total >= self.progress.done),
    {
        self.progress.total >= self.progress.done
    }

    /// `who` is the challenger or not.
    pub fn is_challenger(&self, who: &AccountId) -> (yes: bool)
        ensures
            yes == (self.challenger == *who),
    {
        self.challenger == *who
    }

    /// `who` is the pathfinder or not.
    pub fn is_pathfinder(&self, who: &AccountId) -> (yes: bool)
        ensures
            yes == (self.pathfinder == *who),
    {
        self.pathfinder == *who
    }

    /// Reset progress.
    pub fn new_progress(&mut self, total: u32)
        ensures
            *final(self) == (Metadata { progress: Progress { total, done: 0 }, ..*old(self) }),
    {
        self.progress.total = total;
        self.progress.done = 0;
    }

    /// Advances progress by `count` bars, stopping at the greatest number.
    pub fn next(&mut self, count: u32)
        ensures
            *final(self) == (Metadata {
                progress: Progress {
                    done: if old(self).progress.done + count > u32::MAX {
                        u32::MAX
                    } else {
                        (old(self).progress.done + count) as u32
                    },
                    ..old(self).progress
                },
                ..*old(self)
            }),
    {
        self.progress.done = self.progress.done.saturating_add(count);
    }

    /// Set the challenge status to `status`.
    pub fn set_status(&mut self, status: &ChallengeStatus)
        ensures
            *final(self) == (Metadata { status: *status, ..*old(self) }),
    {
        self.status = *status;
    }

    /// Start again. With full proof the challenger takes the pathfinder's place.
    pub fn restart(&mut self, full_probative: bool)
        ensures
            *final(self) == (Metadata {
                status: ChallengeStatus::Free,
                joint_benefits: false,
                pathfinder: if full_probative {
                    old(self).challenger
                } else {
                    old(self).pathfinder
                },
                ..*old(self)
            }),
    {
        self.status = ChallengeStatus::Free;
        self.joint_benefits = false;
        if full_probative {
            self.pathfinder = self.challenger;
        }
    }
}

} // verus!
