//! The challenge record and the moves of the game.
//!
//! Every move is a function on one record. It either fails and leaves the
//! record as it was, or succeeds and changes it as its contract says. What a
//! move pays out it returns as plain amounts: the caller holds the currency.

use crate::fee::{sweeper_allowed, SweeperFee};
use crate::primitives::{AccountId, Balance, BlockNumber};
use vstd::prelude::*;

verus! {

/// The greatest number of items that one call may upload.
pub const MAX_UPDATE_COUNT: u32 = 10;

/// The funds that a challenge holds.
#[derive(Debug, Clone, Copy, PartialEq, Eq, Structural)]
pub struct Pool {
    pub staking: Balance,
    pub sub_staking: Balance,
    pub earnings: Balance,
}

/// Information on the progress of the breakpoint transfer.
#[derive(Debug, Clone, Copy, PartialEq, Eq, Structural)]
pub struct Progress {
    /// The account that is expected to go on with the upload.
    pub owner: AccountId,
    pub total: u32,
    pub done: u32,
}

/// The phase that a challenge is in.
#[allow(non_camel_case_types)]
#[derive(Debug, Clone, Copy, PartialEq, Eq, Structural)]
pub enum Status {
    FREE,
    EXAMINE,
    REPLY,
    EVIDENCE,
    ARBITRATION,
}

impl Default for Status {
    fn default() -> (status: Status)
        ensures
            status == Status::EXAMINE,
    {
        Status::EXAMINE
    }
}

/// Why a move was refused.
#[derive(Debug, Clone, Copy, PartialEq, Eq, Structural)]
pub enum Error {
    /// No permission.
    NoPermission,
    /// Paths and seeds do not match
    NotMatch,
    /// Calculation overflow.
    Overflow,
    /// No challenge allowed
    NoChallengeAllowed,
    /// Error getting user reputation
    ReputationError,
    /// Too soon
    TooSoon,
    /// Wrong progress
    ErrProgress,
    /// Non-existent
    NonExistent,
    /// Too many uploads
    TooMany,
}

/// What the game reports to the outside.
#[derive(Debug, Clone, Copy, PartialEq, Eq, Structural)]
pub enum Event {
    /// Launched a challenge. \[challenger, target, analyst, quantity\]
    Challenged(AccountId, AccountId, AccountId, u32),
}

/// The record of one challenge.
#[derive(Debug, Clone, Copy, PartialEq, Eq, Structural)]
pub struct Metadata {
    /// Current pool of funds.
    pub pool: Pool,
    /// The account that completed the latest upload.
    pub beneficiary: AccountId,
    /// Whether `pathfinder` and the challenger are co-beneficiaries.
    pub joint_benefits: bool,
    /// Information on the progress of the breakpoint transfer.
    pub progress: Progress,
    /// Last updated.
    pub last_update: BlockNumber,
    /// The cell that the challenger chose last.
    pub remark: u32,
    /// Current score.
    pub score: u64,
    /// `AccountId` of `pathfinder`.
    pub pathfinder: AccountId,
    /// The current state of challenge.
    pub status: Status,
    /// The `AccountId` of challenger.
    pub challenger: AccountId,
}

/// What a settlement pays, and the score that it confirms.
#[derive(Debug, Clone, Copy, PartialEq, Eq, Structural)]
pub struct Payout {
    /// What the caller gets for sweeping; zero for a party.
    pub sweeper_fee: Balance,
    pub pathfinder_amount: Balance,
    pub challenger_amount: Balance,
    /// The score that stands after the settlement, where it names one.
    pub score: Option<u64>,
}

/// The record that stands for a challenge nobody has opened.
pub open spec fn blank() -> Metadata {
    Metadata {
        pool: Pool { staking: 0, sub_staking: 0, earnings: 0 },
        beneficiary: 0,
        joint_benefits: false,
        progress: Progress { owner: 0, total: 0, done: 0 },
        last_update: 0,
        remark: 0,
        score: 0,
        pathfinder: 0,
        status: Status::EXAMINE,
        challenger: 0,
    }
}

impl Default for Metadata {
    fn default() -> (m: Metadata)
        ensures
            m == blank(),
    {
        Metadata {
            pool: Pool { staking: 0, sub_staking: 0, earnings: 0 },
            beneficiary: 0,
            joint_benefits: false,
            progress: Progress { owner: 0, total: 0, done: 0 },
            last_update: 0,
            remark: 0,
            score: 0,
            pathfinder: 0,
            status: Status::EXAMINE,
            challenger: 0,
        }
    }
}

impl Metadata {
    /// All that the pool holds.
    pub open spec fn pool_total(&self) -> nat {
        (self.pool.staking + self.pool.sub_staking + self.pool.earnings) as nat
    }

    /// The upload has not gone past its end, and the pool fits a balance.
    pub open spec fn wf(&self) -> bool {
        &&& self.progress.done <= self.progress.total
        &&& self.pool_total() <= Balance::MAX
    }

    /// The challenge period has passed since the last update.
    pub open spec fn period_passed(&self, now: BlockNumber, challenge_perior: BlockNumber) -> bool {
        self.last_update + challenge_perior < now
    }

    /// The total amount of the pool of funds.
    pub fn total_amount(&self) -> (total: Option<Balance>)
        ensures
            self.pool_total() <= Balance::MAX ==> total == Some(self.pool_total() as Balance),
            self.pool_total() > Balance::MAX ==> total.is_none(),
    {
        match self.pool.staking.checked_add(self.pool.sub_staking) {
            Some(a) => a.checked_add(self.pool.earnings),
            None => None,
        }
    }

    /// Whether a new challenge, or evidence, may come in at block `now`.
    pub fn is_allowed_evidence(&self, now: BlockNumber, challenge_perior: BlockNumber) -> (allowed:
        bool)
        ensures
            allowed == self.period_passed(now, challenge_perior),
    {
        self.last_update as u128 + (challenge_perior as u128) < now as u128
    }

    /// Are all uploads complete.
    pub fn is_all_done(&self) -> (done: bool)
        ensures
            done == (self.progress.total == self.progress.done),
    {
        self.progress.total == self.progress.done
    }

    /// Whether the upload has not gone past its end.
    pub fn check_progress(&self) -> (ok: bool)
        ensures
            ok == (self.progress.total >= self.progress.done),
    {
        self.progress.total >= self.progress.done
    }

    /// `who` is the challenger or not.
    pub fn is_challenger(&self, who: &AccountId) -> (yes: bool)
        ensures
            yes == (self.challenger == *who),
    {
        self.challenger == *who
    }

    /// `who` is the pathfinder or not.
    pub fn is_pathfinder(&self, who: &AccountId) -> (yes: bool)
        ensures
            yes == (self.pathfinder == *who),
    {
        self.pathfinder == *who
    }

    /// Sets the length of the upload; what is done of it stays.
    pub fn new_progress(&mut self, total: u32)
        ensures
            *final(self) == (Metadata {
                progress: Progress { total, ..old(self).progress },
                ..*old(self)
            }),
    {
        self.progress.total = total;
    }

    /// Advances progress by `count` bars, stopping at the greatest number.
    /// When that completes the upload, `who` becomes the beneficiary.
    pub fn next(&mut self, count: u32, who: AccountId)
        ensures
            final(self).progress.done == if old(self).progress.done + count > u32::MAX {
                u32::MAX
            } else {
                (old(self).progress.done + count) as u32
            },
            final(self).beneficiary == if final(self).progress.done == old(self).progress.total {
                who
            } else {
                old(self).beneficiary
            },
            *final(self) == (Metadata {
                progress: Progress { done: final(self).progress.done, ..old(self).progress },
                beneficiary: final(self).beneficiary,
                ..*old(self)
            }),
    {
        self.progress.done = self.progress.done.saturating_add(count);
        if self.is_all_done() {
            self.beneficiary = who
        }
    }

    /// Set the challenge status to `status`.
    pub fn set_status(&mut self, status: &Status)
        ensures
            *final(self) == (Metadata { status: *status, ..*old(self) }),
    {
        self.status = *status;
    }

    /// Start again. With full proof the challenger takes the pathfinder's place.
    pub fn restart(&mut self, full_probative: bool)
        ensures
            *final(self) == old(self).restarted(full_probative),
    {
        self.status = Status::FREE;
        self.joint_benefits = false;
        if full_probative {
            self.pathfinder = self.challenger;
        }
    }

    /// The record after a restart.
    pub open spec fn restarted(&self, full_probative: bool) -> Metadata {
        Metadata {
            status: Status::FREE,
            joint_benefits: false,
            pathfinder: if full_probative {
                self.challenger
            } else {
                self.pathfinder
            },
            ..*self
        }
    }
}

/// `who` is one of the two parties of the challenge.
pub open spec fn is_party(m: Metadata, who: AccountId) -> bool {
    who == m.challenger || who == m.pathfinder
}

/// Why `who` may not settle the challenge at block `now`, if anything stands
/// against it: a party has to wait until more than the challenge period has
/// passed since the last update, anybody else for the sweeper's period.
pub open spec fn fee_error(
    m: Metadata,
    who: AccountId,
    now: BlockNumber,
    challenge_perior: BlockNumber,
) -> Option<Error> {
    if is_party(m, who) {
        if m.last_update + challenge_perior < now {
            None
        } else {
            Some(Error::TooSoon)
        }
    } else {
        if sweeper_allowed(m.last_update, now) {
            None
        } else {
            Some(Error::TooSoon)
        }
    }
}

/// The sweeper's fee and what is left for the parties when `who` settles:
/// a party takes no fee.
pub open spec fn fee_and_awards(m: Metadata, who: AccountId, total: Balance) -> (Balance, Balance) {
    if is_party(m, who) {
        (0, total)
    } else {
        total.fee_split()
    }
}

/// The sweeper's fee and the awards that are left of `total_amount` when `who`
/// settles `challenge` at block `now`.
pub fn checked_sweeper_fee(
    challenge: &Metadata,
    who: &AccountId,
    total_amount: &Balance,
    now: BlockNumber,
    challenge_perior: BlockNumber,
) -> (split: Result<(Balance, Balance), Error>)
    ensures
        match split {
            Ok(parts) => fee_error(*challenge, *who, now, challenge_perior).is_none() && parts
                == fee_and_awards(*challenge, *who, *total_amount),
            Err(e) => fee_error(*challenge, *who, now, challenge_perior) == Some(e),
        },
{
    let is_sweeper = challenge.challenger != *who && challenge.pathfinder != *who;
    if is_sweeper {
        match total_amount.checked_with_fee(challenge.last_update, now) {
            Some(parts) => Ok(parts),
            None => Err(Error::TooSoon),
        }
    } else {
        if challenge.last_update as u128 + (challenge_perior as u128) >= now as u128 {
            return Err(Error::TooSoon);
        }
        Ok((0, *total_amount))
    }
}

/// Why the challenge cannot be settled by `who` at block `now`, if it cannot.
pub open spec fn harvest_error(
    m: Metadata,
    who: AccountId,
    now: BlockNumber,
    challenge_perior: BlockNumber,
) -> Option<Error> {
    if m.pool_total() > Balance::MAX {
        Some(Error::Overflow)
    } else {
        fee_error(m, who, now, challenge_perior)
    }
}

/// What a settlement by `who` pays. The awards go to the pathfinder where the
/// challenge is free or waits for the challenger, to the challenger where it
/// waits for the pathfinder or for evidence, and in arbitration to both in
/// halves or to the pathfinder alone.
pub open spec fn settled(m: Metadata, who: AccountId) -> Payout {
    let (sweeper_fee, awards) = fee_and_awards(m, who, m.pool_total() as Balance);
    match m.status {
        Status::FREE | Status::REPLY => Payout {
            sweeper_fee,
            pathfinder_amount: awards,
            challenger_amount: 0,
            score: None,
        },
        Status::EXAMINE | Status::EVIDENCE => Payout {
            sweeper_fee,
            pathfinder_amount: 0,
            challenger_amount: awards,
            score: Some(m.score),
        },
        Status::ARBITRATION => if m.joint_benefits {
            Payout {
                sweeper_fee,
                pathfinder_amount: awards / 2,
                challenger_amount: (awards - awards / 2) as Balance,
                score: None,
            }
        } else {
            Payout {
                sweeper_fee,
                pathfinder_amount: awards,
                challenger_amount: 0,
                score: Some(m.score),
            }
        },
    }
}

/// Settles the challenge for `who` at block `now`: says what the sweeper,
/// the pathfinder and the challenger are to get out of the pool, and which
/// score stands. The caller pays the amounts out and drops the record.
pub fn harvest(
    challenge: &Metadata,
    who: &AccountId,
    now: BlockNumber,
    challenge_perior: BlockNumber,
) -> (payout: Result<Payout, Error>)
    ensures
        match payout {
            Ok(p) => harvest_error(*challenge, *who, now, challenge_perior).is_none() && p
                == settled(*challenge, *who),
            Err(e) => harvest_error(*challenge, *who, now, challenge_perior) == Some(e),
        },
{
    let total_amount: Balance = match challenge.total_amount() {
        Some(total) => total,
        None => { return Err(Error::Overflow); },
    };
    let (sweeper_fee, awards) = match checked_sweeper_fee(
        challenge,
        who,
        &total_amount,
        now,
        challenge_perior,
    ) {
        Ok(parts) => parts,
        Err(e) => { return Err(e); },
    };
    let mut pathfinder_amount: Balance = 0;
    let mut challenger_amount: Balance = 0;
    let mut maybe_score: Option<u64> = None;
    match challenge.status {
        Status::FREE | Status::REPLY => {
            pathfinder_amount = awards;
        },
        Status::EXAMINE | Status::EVIDENCE => {
            challenger_amount = awards;
            maybe_score = Some(challenge.score);
        },
        Status::ARBITRATION => {
            if challenge.joint_benefits {
                pathfinder_amount = awards / 2;
                challenger_amount = awards - pathfinder_amount;
            } else {
                pathfinder_amount = awards;
                maybe_score = Some(challenge.score);
            }
        },
    }
    Ok(Payout { sweeper_fee, pathfinder_amount, challenger_amount, score: maybe_score })
}

/// Why a challenge cannot be opened on the record at block `now`, if it cannot:
/// the challenge period has not passed since the last update, or the pool
/// would not fit a balance.
pub open spec fn new_error(
    m: Metadata,
    fee: Balance,
    staking: Balance,
    now: BlockNumber,
    challenge_perior: BlockNumber,
) -> Option<Error> {
    if !m.period_passed(now, challenge_perior) {
        Some(Error::NoChallengeAllowed)
    } else if m.pool_total() + staking + fee > Balance::MAX {
        Some(Error::Overflow)
    } else {
        None
    }
}

/// The record after `who` has opened a challenge on it.
pub open spec fn opened(
    m: Metadata,
    who: AccountId,
    path_finder: AccountId,
    fee: Balance,
    staking: Balance,
    quantity: u32,
    score: u64,
    now: BlockNumber,
) -> Metadata {
    Metadata {
        pool: Pool {
            staking: (m.pool.staking + staking) as Balance,
            earnings: (m.pool.earnings + fee) as Balance,
            ..m.pool
        },
        progress: Progress { owner: who, done: 0, total: quantity },
        beneficiary: path_finder,
        last_update: now,
        status: Status::EVIDENCE,
        score,
        ..m
    }
}

/// Opens a challenge by `who` on the score that `path_finder` published for
/// `target`: adds `staking` and `fee` to the pool and starts an upload of
/// `quantity` items. The record is that of `target`, blank if there was none.
pub fn new(
    m: &mut Metadata,
    who: &AccountId,
    path_finder: &AccountId,
    fee: Balance,
    staking: Balance,
    target: &AccountId,
    quantity: u32,
    score: u64,
    now: BlockNumber,
    challenge_perior: BlockNumber,
) -> (event: Result<Event, Error>)
    ensures
        match event {
            Ok(ev) => new_error(*old(m), fee, staking, now, challenge_perior).is_none() && *final(m)
                == opened(*old(m), *who, *path_finder, fee, staking, quantity, score, now) && ev
                == Event::Challenged(*who, *target, *path_finder, quantity),
            Err(e) => new_error(*old(m), fee, staking, now, challenge_perior) == Some(e) && *final(m)
                == *old(m),
        },
{
    if !m.is_allowed_evidence(now, challenge_perior) {
        return Err(Error::NoChallengeAllowed);
    }
    let new_staking = match m.pool.staking.checked_add(staking) {
        Some(sum) => sum,
        None => { return Err(Error::Overflow); },
    };
    let new_earnings = match m.pool.earnings.checked_add(fee) {
        Some(sum) => sum,
        None => { return Err(Error::Overflow); },
    };
    let fits = match new_staking.checked_add(m.pool.sub_staking) {
        Some(sum) => sum.checked_add(new_earnings).is_some(),
        None => false,
    };
    if !fits {
        return Err(Error::Overflow);
    }
    m.pool.staking = new_staking;
    m.pool.earnings = new_earnings;
    m.progress = Progress { owner: *who, done: 0, total: quantity };
    m.beneficiary = *path_finder;
    m.last_update = now;
    m.status = Status::EVIDENCE;
    m.score = score;
    Ok(Event::Challenged(*who, *target, *path_finder, quantity))
}

/// Why `who` may not upload `count` more items, if anything stands against it.
pub open spec fn progress_error(progress: Progress, count: u32, who: AccountId) -> Option<Error> {
    if count > MAX_UPDATE_COUNT {
        Some(Error::NoPermission)
    } else if progress.owner != who {
        Some(Error::NoPermission)
    } else if progress.total < progress.done + count {
        Some(Error::ErrProgress)
    } else {
        None
    }
}

/// The number of items done after `count` more, and whether that is all.
pub fn get_new_progress(progress: &Progress, count: &u32, challenger: &AccountId) -> (step: Result<
    (u32, bool),
    Error,
>)
    ensures
        match step {
            Ok((done, all_done)) => progress_error(*progress, *count, *challenger).is_none() && done
                == progress.done + *count && all_done == (progress.total == done),
            Err(e) => progress_error(*progress, *count, *challenger) == Some(e),
        },
{
    if *count > MAX_UPDATE_COUNT {
        return Err(Error::NoPermission);
    }
    if progress.owner != *challenger {
        return Err(Error::NoPermission);
    }
    if (progress.total as u64) < progress.done as u64 + *count as u64 {
        return Err(Error::ErrProgress);
    }
    let new_done = progress.done + *count;
    Ok((new_done, progress.total == new_done))
}

/// The record after the owner of the upload has added `count` items and
/// left `remark` on it.
pub open spec fn advanced(
    m: Metadata,
    who: AccountId,
    count: u32,
    remark: u32,
    now: BlockNumber,
) -> Metadata {
    let done = (m.progress.done + count) as u32;
    Metadata {
        progress: Progress { done, ..m.progress },
        beneficiary: if done == m.progress.total {
            who
        } else {
            m.beneficiary
        },
        remark,
        last_update: now,
        ..m
    }
}

/// Goes on with the current upload by `count` items. `remark` is what the
/// caller has made of the pool's stake, the old remark and the news whether
/// the upload is complete, as `get_new_progress` tells it beforehand.
pub fn next(
    challenge: &mut Metadata,
    who: &AccountId,
    count: u32,
    remark: u32,
    now: BlockNumber,
) -> (done: Result<bool, Error>)
    ensures
        match done {
            Ok(all_done) => progress_error(old(challenge).progress, count, *who).is_none()
                && *final(challenge) == advanced(*old(challenge), *who, count, remark, now)
                && all_done == (final(challenge).progress.done == final(challenge).progress.total),
            Err(e) => progress_error(old(challenge).progress, count, *who) == Some(e)
                && *final(challenge) == *old(challenge),
        },
{
    let progress_info = match get_new_progress(&challenge.progress, &count, who) {
        Ok(info) => info,
        Err(e) => { return Err(e); },
    };
    challenge.progress.done = progress_info.0;
    if progress_info.1 {
        challenge.beneficiary = *who;
    }
    challenge.remark = remark;
    challenge.last_update = now;
    Ok(progress_info.1)
}

/// Why `who` may not choose a cell now, if anything stands against it.
pub open spec fn question_error(m: Metadata, who: AccountId) -> Option<Error> {
    if !(m.status == Status::REPLY && m.progress.total == m.progress.done) {
        Some(Error::NoChallengeAllowed)
    } else if m.challenger != who {
        Some(Error::NoChallengeAllowed)
    } else {
        None
    }
}

/// The record after the challenger has chosen cell `index`.
pub open spec fn questioned(m: Metadata, who: AccountId, index: u32, now: BlockNumber) -> Metadata {
    Metadata { status: Status::EXAMINE, remark: index, beneficiary: who, last_update: now, ..m }
}

/// The challenger chooses the cell `index` of the level that the pathfinder
/// has completed, and the game goes one level down.
pub fn question(challenge: &mut Metadata, who: AccountId, index: u32, now: BlockNumber) -> (done:
    Result<(), Error>)
    ensures
        match done {
            Ok(_) => question_error(*old(challenge), who).is_none() && *final(challenge)
                == questioned(*old(challenge), who, index, now),
            Err(e) => question_error(*old(challenge), who) == Some(e) && *final(challenge) == *old(challenge),
        },
{
    if !(challenge.status == Status::REPLY && challenge.is_all_done()) {
        return Err(Error::NoChallengeAllowed);
    }
    if !challenge.is_challenger(&who) {
        return Err(Error::NoChallengeAllowed);
    }
    challenge.status = Status::EXAMINE;
    challenge.remark = index;
    challenge.beneficiary = who;
    challenge.last_update = now;
    Ok(())
}

/// Why `who` may not commit `count` items of a level of `total`, if anything
/// stands against it.
pub open spec fn reply_error(m: Metadata, who: AccountId, total: u32, count: u32) -> Option<Error> {
    if m.pathfinder != who {
        Some(Error::NoPermission)
    } else if m.status != Status::EXAMINE {
        Some(Error::NoPermission)
    } else if count > MAX_UPDATE_COUNT {
        Some(Error::TooMany)
    } else if m.progress.done + count > total {
        Some(Error::TooMany)
    } else {
        None
    }
}

/// The record after the pathfinder has committed `count` items of a level of
/// `total`. Until the level is complete the record waits for the rest.
pub open spec fn replied(
    m: Metadata,
    who: AccountId,
    total: u32,
    count: u32,
    now: BlockNumber,
) -> Metadata {
    let done = (m.progress.done + count) as u32;
    Metadata {
        progress: Progress { total, done, ..m.progress },
        beneficiary: if done == total {
            who
        } else {
            m.beneficiary
        },
        status: if done == total {
            m.status
        } else {
            Status::REPLY
        },
        last_update: now,
        ..m
    }
}

/// The pathfinder commits `count` items of a level of `total`. Returns
/// whether the level is complete, and the cell that the challenger chose
/// last, for the caller to check the committed items against.
pub fn reply(
    challenge: &mut Metadata,
    who: &AccountId,
    total: u32,
    count: u32,
    now: BlockNumber,
) -> (done: Result<(bool, u32), Error>)
    ensures
        match done {
            Ok((all_done, remark)) => reply_error(*old(challenge), *who, total, count).is_none()
                && *final(challenge) == replied(*old(challenge), *who, total, count, now)
                && all_done == (final(challenge).progress.done == total) && remark == old(challenge).remark,
            Err(e) => reply_error(*old(challenge), *who, total, count) == Some(e) && *final(challenge) == *old(challenge),
        },
{
    if !challenge.is_pathfinder(who) {
        return Err(Error::NoPermission);
    }
    if challenge.status != Status::EXAMINE {
        return Err(Error::NoPermission);
    }
    if count > MAX_UPDATE_COUNT {
        return Err(Error::TooMany);
    }
    if challenge.progress.done as u64 + count as u64 > total as u64 {
        return Err(Error::TooMany);
    }
    challenge.new_progress(total);
    challenge.next(count, *who);
    let is_all_done = challenge.is_all_done();
    if !is_all_done {
        challenge.status = Status::REPLY;
    }
    challenge.last_update = now;
    Ok((is_all_done, challenge.remark))
}

/// Why `who` may not bring evidence now, if anything stands against it.
pub open spec fn evidence_error(m: Metadata, who: AccountId) -> Option<Error> {
    if m.challenger != who {
        Some(Error::NoPermission)
    } else if m.progress.total != m.progress.done {
        Some(Error::NoPermission)
    } else {
        None
    }
}

/// Whether `who` may bring evidence now. The caller asks before it weighs
/// the evidence.
pub fn check_evidence(challenge: &Metadata, who: &AccountId) -> (checked: Result<(), Error>)
    ensures
        match checked {
            Ok(_) => evidence_error(*challenge, *who).is_none(),
            Err(e) => evidence_error(*challenge, *who) == Some(e),
        },
{
    if !challenge.is_challenger(who) {
        return Err(Error::NoPermission);
    }
    if !challenge.is_all_done() {
        return Err(Error::NoPermission);
    }
    Ok(())
}

/// The record after the challenger's evidence: it goes to arbitration where
/// that is needed; otherwise the game starts again with the challenger as
/// pathfinder.
pub open spec fn evidenced(m: Metadata, needs_arbitration: bool, now: BlockNumber) -> Metadata {
    if needs_arbitration {
        Metadata { status: Status::ARBITRATION, last_update: now, ..m }
    } else {
        Metadata { last_update: now, ..m.restarted(true) }
    }
}

/// The challenger brings evidence at the deepest level. `needs_arbitration`
/// is what the caller has found on checking it against the cell in `remark`
/// and the score. Returns the contested score where the evidence settles the
/// matter, and nothing where it goes to arbitration.
pub fn new_evidence(
    challenge: &mut Metadata,
    who: &AccountId,
    needs_arbitration: bool,
    now: BlockNumber,
) -> (score: Result<Option<u64>, Error>)
    ensures
        match score {
            Ok(s) => evidence_error(*old(challenge), *who).is_none() && *final(challenge)
                == evidenced(*old(challenge), needs_arbitration, now) && s == if needs_arbitration {
                None
            } else {
                Some(old(challenge).score)
            },
            Err(e) => evidence_error(*old(challenge), *who) == Some(e) && *final(challenge) == *old(challenge),
        },
{
    match check_evidence(challenge, who) {
        Ok(_) => {},
        Err(e) => { return Err(e); },
    }
    let score = challenge.score;
    if needs_arbitration {
        challenge.set_status(&Status::ARBITRATION);
    } else {
        challenge.restart(true);
    }
    challenge.last_update = now;
    Ok(if needs_arbitration {
        None
    } else {
        Some(score)
    })
}

/// Why no ruling can be given now, if none can: the challenge is not in
/// arbitration, or the upload is not complete.
pub open spec fn arbitral_error(m: Metadata) -> Option<Error> {
    if m.status != Status::ARBITRATION {
        Some(Error::NoPermission)
    } else if m.progress.total != m.progress.done {
        Some(Error::NoPermission)
    } else {
        None
    }
}

/// Whether a ruling can be given on the challenge now. The caller asks
/// before it looks for the ruling.
pub fn check_arbitral(challenge: &Metadata) -> (checked: Result<(), Error>)
    ensures
        match checked {
            Ok(_) => arbitral_error(*challenge).is_none(),
            Err(e) => arbitral_error(*challenge) == Some(e),
        },
{
    if challenge.status != Status::ARBITRATION {
        return Err(Error::NoPermission);
    }
    if !challenge.is_all_done() {
        return Err(Error::NoPermission);
    }
    Ok(())
}

/// What a ruling pays to the one who brought it: half of the stake where the
/// game starts again with both parties in the right, and nothing otherwise.
pub open spec fn arbitral_fee(m: Metadata, joint_benefits: bool, restart: bool) -> Balance {
    if restart && joint_benefits {
        m.pool.staking / 2
    } else {
        0
    }
}

/// The record after a ruling.
pub open spec fn arbitrated(
    m: Metadata,
    score: u64,
    joint_benefits: bool,
    restart: bool,
    now: BlockNumber,
) -> Metadata {
    if restart {
        let paid = Metadata {
            pool: Pool {
                staking: (m.pool.staking - arbitral_fee(m, joint_benefits, restart)) as Balance,
                ..m.pool
            },
            last_update: now,
            ..m
        };
        paid.restarted(!joint_benefits)
    } else {
        Metadata {
            joint_benefits: if joint_benefits {
                true
            } else {
                m.joint_benefits
            },
            score,
            last_update: now,
            ..m
        }
    }
}

/// Applies a ruling to a challenge in arbitration. `joint_benefits` and
/// `restart` are what the caller has found for the cell in `remark`. Returns the amount that is to be released
/// to `who` out of the pool.
pub fn arbitral(
    challenge: &mut Metadata,
    who: &AccountId,
    score: u64,
    joint_benefits: bool,
    restart: bool,
    now: BlockNumber,
) -> (fee: Result<Balance, Error>)
    ensures
        match fee {
            Ok(paid) => arbitral_error(*old(challenge)).is_none() && *final(challenge)
                == arbitrated(*old(challenge), score, joint_benefits, restart, now) && paid
                == arbitral_fee(*old(challenge), joint_benefits, restart),
            Err(e) => arbitral_error(*old(challenge)) == Some(e) && *final(challenge) == *old(challenge),
        },
{
    match check_arbitral(challenge) {
        Ok(_) => {},
        Err(e) => { return Err(e); },
    }
    let mut paid: Balance = 0;
    if restart {
        if joint_benefits {
            let arbitral_fee = challenge.pool.staking / 2;
            challenge.pool.staking = challenge.pool.staking - arbitral_fee;
            paid = arbitral_fee;
        }
        challenge.restart(!joint_benefits);
    } else {
        if joint_benefits {
            challenge.joint_benefits = true;
        }
        challenge.score = score;
    }
    challenge.last_update = now;
    Ok(paid)
}

} // verus!
