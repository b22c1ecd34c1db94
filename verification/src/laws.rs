//! What holds of a challenge record whatever moves are made on it.

use crate::challenges::{
    advanced, arbitral_error, arbitral_fee, arbitrated, blank, evidence_error, evidenced, fee_error,
    harvest_error, is_party, new_error, opened, progress_error, question_error, questioned, replied,
    reply_error, settled, Error, Metadata, Status,
};
use crate::fee::lemma_fee_split_conserves;
use crate::primitives::{AccountId, Balance, BlockNumber};
use vstd::prelude::*;

verus! {

/// One move of the game, with what the caller brings to it.
pub enum Move {
    New { who: AccountId, path_finder: AccountId, fee: Balance, staking: Balance, quantity: u32, score: u64 },
    Next { who: AccountId, count: u32, remark: u32 },
    Question { who: AccountId, index: u32 },
    Reply { who: AccountId, total: u32, count: u32 },
    Evidence { who: AccountId, needs_arbitration: bool },
    Arbitral { who: AccountId, score: u64, joint_benefits: bool, restart: bool },
}

/// Why the move is refused on `m` at block `now`, if it is.
pub open spec fn move_error(
    m: Metadata,
    mv: Move,
    now: BlockNumber,
    challenge_perior: BlockNumber,
) -> Option<Error> {
    match mv {
        Move::New { fee, staking, .. } => new_error(m, fee, staking, now, challenge_perior),
        Move::Next { who, count, .. } => progress_error(m.progress, count, who),
        Move::Question { who, .. } => question_error(m, who),
        Move::Reply { who, total, count } => reply_error(m, who, total, count),
        Move::Evidence { who, .. } => evidence_error(m, who),
        Move::Arbitral { .. } => arbitral_error(m),
    }
}

/// The record after the move, where it is not refused.
pub open spec fn moved(m: Metadata, mv: Move, now: BlockNumber) -> Metadata {
    match mv {
        Move::New { who, path_finder, fee, staking, quantity, score } => opened(
            m,
            who,
            path_finder,
            fee,
            staking,
            quantity,
            score,
            now,
        ),
        Move::Next { who, count, remark } => advanced(m, who, count, remark, now),
        Move::Question { who, index } => questioned(m, who, index, now),
        Move::Reply { who, total, count } => replied(m, who, total, count, now),
        Move::Evidence { needs_arbitration, .. } => evidenced(m, needs_arbitration, now),
        Move::Arbitral { score, joint_benefits, restart, .. } => arbitrated(
            m,
            score,
            joint_benefits,
            restart,
            now,
        ),
    }
}

/// The record after the move was tried: a refused move changes nothing.
pub open spec fn played(
    m: Metadata,
    mv: Move,
    now: BlockNumber,
    challenge_perior: BlockNumber,
) -> Metadata {
    if move_error(m, mv, now, challenge_perior).is_none() {
        moved(m, mv, now)
    } else {
        m
    }
}

/// What the move, if it is not refused, adds to the pool.
pub open spec fn credited(mv: Move) -> nat {
    match mv {
        Move::New { fee, staking, .. } => (fee + staking) as nat,
        _ => 0,
    }
}

/// What the move, if it is not refused, pays out of the pool.
pub open spec fn released(m: Metadata, mv: Move) -> nat {
    match mv {
        Move::Arbitral { joint_benefits, restart, .. } => arbitral_fee(m, joint_benefits, restart) as nat,
        _ => 0,
    }
}

/// The move starts the game again with the challenger's case fully proved.
pub open spec fn is_full_restart(mv: Move) -> bool {
    match mv {
        Move::Evidence { needs_arbitration, .. } => !needs_arbitration,
        Move::Arbitral { joint_benefits, restart, .. } => restart && !joint_benefits,
        _ => false,
    }
}

/// A move keeps a record well formed: the upload never goes past its end and
/// the pool fits a balance.
pub proof fn lemma_move_keeps_wf(m: Metadata, mv: Move, now: BlockNumber, challenge_perior: BlockNumber)
    requires
        m.wf(),
    ensures
        played(m, mv, now, challenge_perior).wf(),
{
}

/// Within a challenge the number of items done never goes down: only the
/// opening of a new challenge starts the count again.
pub proof fn lemma_progress_monotone(
    m: Metadata,
    mv: Move,
    now: BlockNumber,
    challenge_perior: BlockNumber,
)
    requires
        m.wf(),
        !(mv is New),
    ensures
        played(m, mv, now, challenge_perior).progress.done >= m.progress.done,
        played(m, mv, now, challenge_perior).progress.done <= played(
            m,
            mv,
            now,
            challenge_perior,
        ).progress.total,
{
}

/// No move mints or burns: what the pool holds after a move and what the
/// move paid out are what the pool held before and what the move added.
pub proof fn lemma_move_conserves(m: Metadata, mv: Move, now: BlockNumber, challenge_perior: BlockNumber)
    requires
        m.wf(),
        move_error(m, mv, now, challenge_perior).is_none(),
    ensures
        moved(m, mv, now).pool_total() + released(m, mv) == m.pool_total() + credited(mv),
{
}

/// The challenger never changes, and the pathfinder changes only where the
/// game starts again on full proof: the challenger then takes that place.
pub proof fn lemma_roles_change_only_on_full_restart(
    m: Metadata,
    mv: Move,
    now: BlockNumber,
    challenge_perior: BlockNumber,
)
    ensures
        played(m, mv, now, challenge_perior).challenger == m.challenger,
        played(m, mv, now, challenge_perior).pathfinder != m.pathfinder ==> is_full_restart(mv)
            && played(m, mv, now, challenge_perior).pathfinder == m.challenger,
{
}

/// Every move that is not refused leaves the block of the move on the record.
pub proof fn lemma_move_bumps_last_update(
    m: Metadata,
    mv: Move,
    now: BlockNumber,
    challenge_perior: BlockNumber,
)
    requires
        move_error(m, mv, now, challenge_perior).is_none(),
    ensures
        moved(m, mv, now).last_update == now,
{
}

/// No challenge is opened on a record before the challenge period has
/// passed since its last update.
pub proof fn lemma_new_waits_for_period(
    m: Metadata,
    fee: Balance,
    staking: Balance,
    now: BlockNumber,
    challenge_perior: BlockNumber,
)
    requires
        m.last_update + challenge_perior >= now,
    ensures
        new_error(m, fee, staking, now, challenge_perior) == Some(Error::NoChallengeAllowed),
{
}

/// No party settles a challenge while the challenge period runs, and nobody
/// else before the sweeper's period has passed.
pub proof fn lemma_harvest_waits(m: Metadata, who: AccountId, now: BlockNumber, challenge_perior: BlockNumber)
    ensures
        is_party(m, who) && m.last_update + challenge_perior >= now ==> harvest_error(
            m,
            who,
            now,
            challenge_perior,
        ).is_some(),
        !is_party(m, who) && m.last_update + crate::fee::SWEEPER_PERIOD >= now ==> harvest_error(
            m,
            who,
            now,
            challenge_perior,
        ).is_some(),
        m.wf() ==> (harvest_error(m, who, now, challenge_perior).is_none() <==> fee_error(
            m,
            who,
            now,
            challenge_perior,
        ).is_none()),
{
}

/// In the block of a move that was not refused no challenge can be opened on
/// the record.
pub proof fn lemma_no_same_block_opening(
    m: Metadata,
    mv: Move,
    fee: Balance,
    staking: Balance,
    now: BlockNumber,
    challenge_perior: BlockNumber,
)
    requires
        move_error(m, mv, now, challenge_perior).is_none(),
    ensures
        new_error(moved(m, mv, now), fee, staking, now, challenge_perior) == Some(
            Error::NoChallengeAllowed,
        ),
{
}

/// In the block of a move that was not refused nobody can settle the
/// challenge.
pub proof fn lemma_no_same_block_harvest(
    m: Metadata,
    mv: Move,
    who: AccountId,
    now: BlockNumber,
    challenge_perior: BlockNumber,
)
    requires
        move_error(m, mv, now, challenge_perior).is_none(),
    ensures
        harvest_error(moved(m, mv, now), who, now, challenge_perior).is_some(),
{
}

/// On a record whose pool fits a balance, a party that comes before more
/// than the challenge period has passed is told that it is too soon, and so
/// is anybody else before more than the sweeper's period has passed. The
/// record is not touched: settling only reads it.
pub proof fn lemma_harvest_too_soon(
    m: Metadata,
    who: AccountId,
    now: BlockNumber,
    challenge_perior: BlockNumber,
)
    requires
        m.pool_total() <= Balance::MAX,
        if is_party(m, who) {
            m.last_update + challenge_perior >= now
        } else {
            m.last_update + crate::fee::SWEEPER_PERIOD >= now
        },
    ensures
        harvest_error(m, who, now, challenge_perior) == Some(Error::TooSoon),
{
}

/// A ruling is given only on a challenge in arbitration whose upload is
/// complete; on any other record it is refused for want of permission.
pub proof fn lemma_arbitral_only_in_arbitration(m: Metadata)
    ensures
        arbitral_error(m).is_none() <==> m.status == Status::ARBITRATION && m.progress.total
            == m.progress.done,
        arbitral_error(m).is_some() ==> arbitral_error(m) == Some(Error::NoPermission),
{
}

/// A settlement pays out exactly what the pool holds.
pub proof fn lemma_harvest_conserves(m: Metadata, who: AccountId)
    requires
        m.pool_total() <= Balance::MAX,
    ensures
        settled(m, who).sweeper_fee + settled(m, who).pathfinder_amount + settled(
            m,
            who,
        ).challenger_amount == m.pool_total(),
        is_party(m, who) ==> settled(m, who).sweeper_fee == 0,
        !is_party(m, who) ==> settled(m, who).sweeper_fee == m.pool_total() / 50,
{
    lemma_fee_split_conserves(m.pool_total() as Balance);
}

/// A move and the block in which it is made.
pub struct Timed {
    pub mv: Move,
    pub now: BlockNumber,
}

/// The record after the moves were tried one after the other.
pub open spec fn run(m: Metadata, moves: Seq<Timed>, challenge_perior: BlockNumber) -> Metadata
    decreases moves.len(),
{
    if moves.len() == 0 {
        m
    } else {
        let before = run(m, moves.drop_last(), challenge_perior);
        played(before, moves.last().mv, moves.last().now, challenge_perior)
    }
}

/// All that the moves which were not refused added to the pool.
pub open spec fn run_credited(m: Metadata, moves: Seq<Timed>, challenge_perior: BlockNumber) -> nat
    decreases moves.len(),
{
    if moves.len() == 0 {
        0
    } else {
        let before = run(m, moves.drop_last(), challenge_perior);
        run_credited(m, moves.drop_last(), challenge_perior) + if move_error(
            before,
            moves.last().mv,
            moves.last().now,
            challenge_perior,
        ).is_none() {
            credited(moves.last().mv)
        } else {
            0
        }
    }
}

/// All that the moves which were not refused paid out of the pool.
pub open spec fn run_released(m: Metadata, moves: Seq<Timed>, challenge_perior: BlockNumber) -> nat
    decreases moves.len(),
{
    if moves.len() == 0 {
        0
    } else {
        let before = run(m, moves.drop_last(), challenge_perior);
        run_released(m, moves.drop_last(), challenge_perior) + if move_error(
            before,
            moves.last().mv,
            moves.last().now,
            challenge_perior,
        ).is_none() {
            released(before, moves.last().mv)
        } else {
            0
        }
    }
}

/// Whatever moves are made on a well-formed record, it stays well formed, and
/// what its pool holds together with what was paid out is what the pool held
/// at the start together with what was added.
pub proof fn lemma_run_conserves(m: Metadata, moves: Seq<Timed>, challenge_perior: BlockNumber)
    requires
        m.wf(),
    ensures
        run(m, moves, challenge_perior).wf(),
        run(m, moves, challenge_perior).pool_total() + run_released(m, moves, challenge_perior)
            == m.pool_total() + run_credited(m, moves, challenge_perior),
        run(m, moves, challenge_perior).challenger == m.challenger,
    decreases moves.len(),
{
    if moves.len() > 0 {
        lemma_run_conserves(m, moves.drop_last(), challenge_perior);
        let before = run(m, moves.drop_last(), challenge_perior);
        let last = moves.last();
        lemma_move_keeps_wf(before, last.mv, last.now, challenge_perior);
        if move_error(before, last.mv, last.now, challenge_perior).is_none() {
            lemma_move_conserves(before, last.mv, last.now, challenge_perior);
        }
    }
}

/// Over the life of a record, from a blank one through any moves to its
/// settlement, all that is paid out is all that was added to the pool.
pub proof fn lemma_lifetime_conserves(moves: Seq<Timed>, who: AccountId, challenge_perior: BlockNumber)
    ensures
        ({
            let last = run(blank(), moves, challenge_perior);
            let payout = settled(last, who);
            run_released(blank(), moves, challenge_perior) + payout.sweeper_fee
                + payout.pathfinder_amount + payout.challenger_amount == run_credited(
                blank(),
                moves,
                challenge_perior,
            )
        }),
{
    lemma_run_conserves(blank(), moves, challenge_perior);
    lemma_harvest_conserves(run(blank(), moves, challenge_perior), who);
}

} // verus!
