//! The seeds refresh: what it keeps for a target under challenge, and the
//! moves that it drives.

use crate::bytes::{bytes_eq, lex_less, lex_lt, unpack_le};
use crate::challenges::{
    check_evidence, evidence_error, evidenced, harvest, harvest_error, new_evidence, replied, reply, reply_error,
    settled, Metadata, Payout,
};
use crate::commitment::{OrderedSet, ResultHash, DEEP, RANGE};
use crate::full_order::FullOrder;
use crate::paths::{copy_nodes, ends_order, first_fault, lemma_first_fault_skip, nodes_fault, Path};
use crate::primitives::{AccountId, BlockNumber, TIRStep};
use crate::score_list::{ascending, with_score, without_score, Candidate};
use vstd::prelude::*;

verus! {

/// The application under which the seeds refresh opens its challenges.
pub const APP_ID: [u8; 8] = [115, 101, 101, 100, 115, 32, 32, 32];

/// Why the seeds refresh refused something.
#[derive(Debug, Clone, Copy, PartialEq, Eq, Structural)]
pub enum Error {
    /// The commitment already has the greatest number of levels.
    MaximumDepth,
    /// The system is not refreshing seeds.
    StepNotMatch,
    /// The pathfinder has published no paths.
    PathDoesNotExist,
    /// There is nothing at that index.
    IndexExceedsMaximum,
    /// A path has at least two nodes.
    PathTooShort,
    /// The path does not pass through the target.
    NoTargetNode,
    /// The number of shortest paths is out of range.
    PathTooLong,
    /// The path's ends do not belong to the cell.
    OrderNotMatch,
    /// The keys do not fit one number.
    ConverError,
    /// There is no level to go on with.
    DataEmpty,
    /// Two cells share a key.
    DataDuplication,
    /// The number of shortest paths is out of range.
    LengthTooLong,
    /// The scores do not add up to the score committed to.
    ScoreMismatch,
    /// Calculation overflow.
    Overflow,
    /// The numbers of items differ.
    LengthNotEqual,
    /// No commitment has been made.
    ResultHashNotExit,
    /// The path does not belong to the cell under challenge.
    NotMatch,
    /// The path has been published already.
    AlreadyExist,
    /// The path's key does not lie between its neighbours.
    PathIndexError,
    /// The trust graph does not hold the nodes as a path.
    WrongPath,
    /// The challenge itself refused the move.
    Challenge(crate::challenges::Error),
}

/// What the seeds refresh reports to the outside.
#[derive(Debug, Clone, Copy, PartialEq, Eq, Structural)]
pub enum Event {
    /// So many seeds were selected.
    SeedsSelected(u32),
    /// The challenge on a target started again with a new score. \[target, score\]
    ChallengeRestarted(AccountId, u64),
    /// A path that the pathfinder left out was shown. \[challenger, target, index\]
    MissedPathPresented(AccountId, AccountId, u32),
}

/// The seeds refresh, with what is fixed for it.
#[derive(Debug, Clone, Copy, PartialEq, Eq, Structural)]
pub struct Pallet {
    /// The greatest number of seeds that are selected.
    pub max_seed_count: u32,
    /// Blocks that must pass after the last refresh before all is taken as
    /// confirmed.
    pub confirmation_period: BlockNumber,
    /// Blocks that must pass after the last update of a challenge before a
    /// party settles it.
    pub challenge_perior: BlockNumber,
}

/// What the seeds refresh keeps for one target while its score is under
/// challenge.
pub struct Dispute {
    /// The paths that the pathfinder has published, if any.
    pub paths: Option<Vec<Path>>,
    /// The levels that the pathfinder has committed to, the first one first.
    pub result_hashs_sets: Vec<OrderedSet>,
    /// The path that the challenger holds to have been left out, if any.
    pub missed_paths: Option<Vec<AccountId>>,
}

impl Pallet {
    /// Seeds are refreshed only while the system is at that step.
    pub fn check_step(step: &TIRStep) -> (checked: Result<(), Error>)
        ensures
            match checked {
                Ok(_) => *step == TIRStep::Seed,
                Err(e) => e == Error::StepNotMatch && *step != TIRStep::Seed,
            },
    {
        match step {
            TIRStep::Seed => Ok(()),
            _ => Err(Error::StepNotMatch),
        }
    }
}

impl Pallet {
    /// Whether more than the confirmation period has passed since the last
    /// refresh.
    pub fn is_all_timeout(&self, last_refresh: BlockNumber, now: BlockNumber) -> (timeout: bool)
        ensures
            timeout == (last_refresh + self.confirmation_period < now),
    {
        last_refresh as u128 + (self.confirmation_period as u128) < now as u128
    }

    /// Settles the challenge on a target for `who`. Where the settlement names
    /// a score, the candidate takes it. What was kept for the challenge is
    /// dropped. The caller pays the amounts out and drops the challenge record.
    pub fn do_harvest_challenge(
        &self,
        candidate: &mut Candidate,
        dispute: &mut Dispute,
        challenge: &Metadata,
        who: &AccountId,
        now: BlockNumber,
    ) -> (payout: Result<Payout, Error>)
        ensures
            match payout {
                Ok(p) => harvest_error(*challenge, *who, now, self.challenge_perior).is_none() && p
                    == settled(*challenge, *who) && *final(candidate) == (Candidate {
                    score: if p.score.is_some() {
                        p.score.unwrap()
                    } else {
                        old(candidate).score
                    },
                    ..*old(candidate)
                }) && final(dispute).is_cleared(),
                Err(e) => harvest_error(*challenge, *who, now, self.challenge_perior).is_some()
                    && e == Error::Challenge(
                    harvest_error(*challenge, *who, now, self.challenge_perior).unwrap(),
                ) && *final(candidate) == *old(candidate) && *final(dispute) == *old(dispute),
            },
    {
        match harvest(challenge, who, now, self.challenge_perior) {
            Ok(payout) => {
                match payout.score {
                    Some(score) => {
                        candidate.score = score;
                    },
                    None => {},
                }
                Pallet::remove_challenge(dispute);
                Ok(payout)
            },
            Err(e) => Err(Error::Challenge(e)),
        }
    }
}

impl Dispute {
    /// Nothing is kept for the target.
    pub open spec fn is_cleared(&self) -> bool {
        &&& self.paths.is_none()
        &&& self.result_hashs_sets@.len() == 0
        &&& self.missed_paths.is_none()
    }

    /// A dispute with nothing in it.
    pub fn new() -> (dispute: Dispute)
        ensures
            dispute.is_cleared(),
    {
        Dispute { paths: None, result_hashs_sets: Vec::new(), missed_paths: None }
    }
}

impl Pallet {
    /// Drops all that is kept for the target's challenge.
    pub fn remove_challenge(dispute: &mut Dispute)
        ensures
            final(dispute).is_cleared(),
    {
        dispute.paths = None;
        dispute.result_hashs_sets = Vec::new();
        dispute.missed_paths = None;
    }

    /// Starts again on `target` with `pathfinder` and its `score`: the candidate
    /// and the score list take the new score, and what was kept for the
    /// challenge is dropped.
    pub fn restart(
        candidate: &mut Candidate,
        score_list: &mut Vec<u64>,
        dispute: &mut Dispute,
        target: &AccountId,
        pathfinder: &AccountId,
        score: &u64,
    ) -> (event: Event)
        requires
            ascending(old(score_list)@),
        ensures
            *final(candidate) == (Candidate { score: *score, pathfinder: *pathfinder, ..*old(candidate) }),
            final(score_list)@ == with_score(
                without_score(old(score_list)@, old(candidate).score),
                *score,
            ),
            ascending(final(score_list)@),
            final(dispute).is_cleared(),
            event == Event::ChallengeRestarted(*target, *score),
    {
        Pallet::mutate_score(score_list, &candidate.score, score);
        candidate.score = *score;
        candidate.pathfinder = *pathfinder;
        Pallet::remove_challenge(dispute);
        Event::ChallengeRestarted(*target, *score)
    }
}

/// What the trust graph was asked about each of the paths that lead from
/// `start` over one of `mid_paths` to `stop`, as findings.
pub open spec fn mid_path_faults(valid: Seq<bool>) -> Seq<Option<Error>> {
    Seq::new(
        valid.len(),
        |i: int|
            if valid[i] {
                None
            } else {
                Some(Error::WrongPath)
            },
    )
}

/// Why the pathfinder's answer with the number of shortest paths is refused,
/// if it is.
pub open spec fn reply_num_fault(
    m: Metadata,
    paths: Option<Vec<Path>>,
    who: AccountId,
    count: nat,
    valid: Seq<bool>,
) -> Option<Error> {
    if reply_error(m, who, 0, 0).is_some() {
        Some(Error::Challenge(reply_error(m, who, 0, 0).unwrap()))
    } else if paths.is_none() {
        Some(Error::PathDoesNotExist)
    } else if m.remark >= paths.unwrap()@.len() {
        Some(Error::IndexExceedsMaximum)
    } else if count != paths.unwrap()@[m.remark as int].total {
        Some(Error::LengthNotEqual)
    } else if paths.unwrap()@[m.remark as int].nodes@.len() == 0 {
        Some(Error::PathTooShort)
    } else {
        first_fault(mid_path_faults(valid))
    }
}

impl Pallet {
    /// The pathfinder answers for the path that the challenger chose with all the
    /// shortest paths between its ends, given by what lies between the ends. There
    /// have to be as many as the published path says, and the trust graph has
    /// to hold each: `valid` tells, in their order, what it says of the paths
    /// from the start over each of `mid_paths` to the stop.
    #[verifier::loop_isolation(false)]
    pub fn do_reply_num(
        challenge: &mut Metadata,
        paths: &Option<Vec<Path>>,
        challenger: &AccountId,
        mid_paths: &[Vec<AccountId>],
        valid: &[bool],
        now: BlockNumber,
    ) -> (done: Result<(), Error>)
        requires
            valid@.len() == mid_paths@.len(),
        ensures
            match done {
                Ok(_) => reply_num_fault(*old(challenge), *paths, *challenger, mid_paths@.len(), valid@).is_none()
                    && *final(challenge) == replied(*old(challenge), *challenger, 0, 0, now),
                Err(e) => reply_num_fault(*old(challenge), *paths, *challenger, mid_paths@.len(), valid@)
                    == Some(e) && *final(challenge) == *old(challenge),
            },
    {
        let saved = *challenge;
        let count = mid_paths.len();
        let index = match reply(challenge, challenger, 0, 0, now) {
            Ok((_, index)) => index,
            Err(e) => { return Err(Error::Challenge(e)); },
        };
        let p_path = match Pallet::get_pathfinder_paths(paths, &index) {
            Ok(p) => p,
            Err(e) => {
                *challenge = saved;
                return Err(e);
            },
        };
        if count as u64 != p_path.total as u64 {
            *challenge = saved;
            return Err(Error::LengthNotEqual);
        }
        if p_path.nodes.len() == 0 {
            *challenge = saved;
            return Err(Error::PathTooShort);
        }
        let (start, stop) = Pallet::get_ends(&p_path);
        let ghost faults = mid_path_faults(valid@);
        let mut i: usize = 0;
        while i < mid_paths.len()
            invariant
                i <= mid_paths.len(),
                valid@.len() == mid_paths@.len(),
                faults == mid_path_faults(valid@),
                forall|k: int| 0 <= k < i ==> faults[k].is_none(),
                *challenge == replied(saved, *challenger, 0, 0, now),
            decreases mid_paths.len() - i,
        {
            match Pallet::check_mid_path(mid_paths[i].as_slice(), &start, &stop, valid[i]) {
                Ok(_) => {},
                Err(e) => {
                    proof {
                        lemma_first_fault_skip(faults, i as int);
                        assert(faults.skip(i as int)[0] == faults[i as int]);
                    }
                    *challenge = saved;
                    return Err(e);
                },
            }
            i += 1;
        }
        proof {
            lemma_first_fault_skip(faults, faults.len() as int);
        }
        Ok(())
    }
}

/// `published` has the two ends of `nodes`.
pub open spec fn shares_ends(published: Seq<AccountId>, nodes: Seq<AccountId>) -> bool {
    published.len() > 0 && published[0] == nodes[0] && published.last() == nodes.last()
}

/// What a published path has against `nodes` as a path that was left out: with
/// the same ends it must be as long as `nodes`, and must not be `nodes`.
pub open spec fn published_fault(published: Seq<AccountId>, nodes: Seq<AccountId>) -> Option<Error> {
    if !shares_ends(published, nodes) {
        None
    } else if published.len() != nodes.len() {
        Some(Error::LengthNotEqual)
    } else if published == nodes {
        Some(Error::AlreadyExist)
    } else {
        None
    }
}

/// What each published path has against `nodes`, in their order.
pub open spec fn published_faults(paths: Seq<Path>, nodes: Seq<AccountId>) -> Seq<Option<Error>> {
    Seq::new(paths.len(), |i: int| published_fault(paths[i].nodes@, nodes))
}

/// Some published path has the two ends of `nodes`.
pub open spec fn any_shares_ends(paths: Seq<Path>, nodes: Seq<AccountId>) -> bool {
    exists|i: int| 0 <= i < paths.len() && shares_ends(#[trigger] paths[i].nodes@, nodes)
}

/// The finding on a path that the challenger holds to have been left out:
/// whether it takes an arbitration, or why the path is refused.
///
/// `user_full_order` is the fingerprint of the path's ends at the depth
/// `deep` of the commitment, `order` the packed keys of the cell under
/// challenge, `last_level` the deepest level committed to.
///
/// Where the pathfinder has published paths, the fingerprint has to be that
/// of the cell. A published path between the same ends refutes the
/// pathfinder if it is as long as the path shown and differs from it: no
/// arbitration is needed then. Without such a path the matter goes to
/// arbitration.
///
/// Where no paths are published, the keys above the deepest level have to
/// be those of the cell, and the first key of the fingerprint has to lie
/// strictly between the keys of the cells before and at `index`: the
/// pathfinder has then left the path out, which takes an arbitration.
pub open spec fn missed_verdict(
    paths: Option<Vec<Path>>,
    last_level: Seq<ResultHash>,
    nodes: Seq<AccountId>,
    user_full_order: Seq<u8>,
    order: u64,
    deep: nat,
    index: int,
) -> Result<bool, Error> {
    if paths.is_some() {
        if unpack_le(order as nat, (deep * RANGE) as nat) != user_full_order {
            Err(Error::NotMatch)
        } else if first_fault(published_faults(paths.unwrap()@, nodes)).is_some() {
            Err(first_fault(published_faults(paths.unwrap()@, nodes)).unwrap())
        } else {
            Ok(!any_shares_ends(paths.unwrap()@, nodes))
        }
    } else {
        if index > last_level.len() {
            Err(Error::IndexExceedsMaximum)
        } else if deep > 1 && unpack_le(order as nat, ((deep - 1) * RANGE) as nat)
            != user_full_order.take((deep - 1) * RANGE) {
            Err(Error::NotMatch)
        } else if index > 0 && !lex_less(
            last_level[index - 1].order@,
            user_full_order.take(RANGE as int),
        ) {
            Err(Error::PathIndexError)
        } else if index < last_level.len() && !lex_less(
            user_full_order.take(RANGE as int),
            last_level[index].order@,
        ) {
            Err(Error::PathIndexError)
        } else {
            Ok(true)
        }
    }
}

/// Whether two rows of accounts are the same.
pub fn same_nodes(a: &[AccountId], b: &[AccountId]) -> (same: bool)
    ensures
        same == (a@ == b@),
{
    if a.len() != b.len() {
        return false;
    }
    let mut i: usize = 0;
    while i < a.len()
        invariant
            a.len() == b.len(),
            i <= a.len(),
            a@.take(i as int) == b@.take(i as int),
        decreases a.len() - i,
    {
        if a[i] != b[i] {
            return false;
        }
        proof {
            assert(a@.take(i + 1) =~= a@.take(i as int).push(a@[i as int]));
            assert(b@.take(i + 1) =~= b@.take(i as int).push(b@[i as int]));
        }
        i += 1;
    }
    proof {
        assert(a@ =~= a@.take(a.len() as int));
        assert(b@ =~= b@.take(b.len() as int));
    }
    true
}

/// Finds out whether a path that the challenger holds to have been left out
/// takes an arbitration, settles the matter, or is refused.
#[verifier::loop_isolation(false)]
pub fn missed_path_verdict(
    paths: &Option<Vec<Path>>,
    result_hash_sets: &[OrderedSet],
    nodes: &[AccountId],
    user_full_order: &[u8],
    order: u64,
    index: u32,
) -> (verdict: Result<bool, Error>)
    requires
        0 < result_hash_sets@.len() <= DEEP,
        user_full_order@.len() == result_hash_sets@.len() * RANGE,
        nodes@.len() > 0,
    ensures
        verdict == missed_verdict(
            *paths,
            result_hash_sets@.last()@,
            nodes@,
            user_full_order@,
            order,
            result_hash_sets@.len(),
            index as int,
        ),
{
    let deep = result_hash_sets.len();
    let (start, stop) = Pallet::get_nodes_ends(nodes);
    match paths {
        Some(path_vec) => {
            let cell_order = FullOrder::from_u64(&order, deep);
            if !bytes_eq(cell_order.0.as_slice(), user_full_order) {
                return Err(Error::NotMatch);
            }
            let ghost faults = published_faults(path_vec@, nodes@);
            let mut same_ends = false;
            let mut i: usize = 0;
            while i < path_vec.len()
                invariant
                    i <= path_vec.len(),
                    nodes@.len() > 0,
                    start == nodes@[0],
                    stop == nodes@.last(),
                    faults == published_faults(path_vec@, nodes@),
                    forall|k: int| 0 <= k < i ==> faults[k].is_none(),
                    same_ends == any_shares_ends(path_vec@.take(i as int), nodes@),
                decreases path_vec.len() - i,
            {
                let p = &path_vec[i];
                proof {
                    lemma_first_fault_skip(faults, i as int);
                    assert(faults.skip(i as int)[0] == faults[i as int]);
                }
                let ghost seen = path_vec@.take(i as int);
                let ghost more = path_vec@.take(i + 1);
                let shares = p.nodes.len() > 0 && start == p.nodes[0] && stop == p.nodes[p.nodes.len()
                    - 1];
                if shares {
                    if p.nodes.len() != nodes.len() {
                        return Err(Error::LengthNotEqual);
                    }
                    if same_nodes(p.nodes.as_slice(), nodes) {
                        return Err(Error::AlreadyExist);
                    }
                }
                proof {
                    assert(more[i as int] == path_vec@[i as int]);
                    assert(shares == shares_ends(more[i as int].nodes@, nodes@));
                    if any_shares_ends(seen, nodes@) {
                        let k = choose|k: int|
                            0 <= k < seen.len() && shares_ends(#[trigger] seen[k].nodes@, nodes@);
                        assert(more[k] == seen[k]);
                        assert(shares_ends(more[k].nodes@, nodes@));
                        assert(any_shares_ends(more, nodes@));
                    }
                    if shares {
                        assert(any_shares_ends(more, nodes@));
                    }
                    if any_shares_ends(more, nodes@) && !shares {
                        let k = choose|k: int|
                            0 <= k < more.len() && shares_ends(#[trigger] more[k].nodes@, nodes@);
                        assert(k < i);
                        assert(seen[k] == more[k]);
                        assert(shares_ends(seen[k].nodes@, nodes@));
                        assert(any_shares_ends(seen, nodes@));
                    }
                    assert((same_ends || shares) == any_shares_ends(more, nodes@));
                }
                if shares {
                    same_ends = true;
                }
                i += 1;
            }
            proof {
                lemma_first_fault_skip(faults, faults.len() as int);
                assert(path_vec@.take(path_vec.len() as int) =~= path_vec@);
            }
            Ok(!same_ends)
        },
        None => {
            let index = index as usize;
            let last_r_hash = &result_hash_sets[deep - 1].0;
            if index > last_r_hash.len() {
                return Err(Error::IndexExceedsMaximum);
            }
            if deep > 1 {
                let above = FullOrder::from_u64(&order, deep - 1);
                let prefix = vstd::slice::slice_subrange(user_full_order, 0, RANGE * (deep - 1));
                proof {
                    assert(prefix@ =~= user_full_order@.take((deep - 1) * RANGE));
                }
                if !bytes_eq(above.0.as_slice(), prefix) {
                    return Err(Error::NotMatch);
                }
            }
            let first_key = vstd::slice::slice_subrange(user_full_order, 0, RANGE);
            proof {
                assert(first_key@ =~= user_full_order@.take(RANGE as int));
            }
            if index > 0 {
                if !lex_lt(&last_r_hash[index - 1].order, first_key) {
                    return Err(Error::PathIndexError);
                }
            }
            if index < last_r_hash.len() {
                if !lex_lt(first_key, &last_r_hash[index].order) {
                    return Err(Error::PathIndexError);
                }
            }
            // arbitration : Unable to determine the shortest path
            Ok(true)
        },
    }
}

/// Why a path shown as left out is refused, if it is. `user_full_order` is
/// the fingerprint of the path's ends at the depth of the commitment.
pub open spec fn missed_fault(
    challenge: Metadata,
    dispute: Dispute,
    step: TIRStep,
    challenger: AccountId,
    target: AccountId,
    nodes: Seq<AccountId>,
    index: int,
    valid: bool,
    user_full_order: Seq<u8>,
) -> Option<Error> {
    let levels = dispute.result_hashs_sets@;
    if step != TIRStep::Seed {
        Some(Error::StepNotMatch)
    } else if nodes_fault(nodes, target, valid).is_some() {
        nodes_fault(nodes, target, valid)
    } else if levels.len() == 0 {
        Some(Error::ResultHashNotExit)
    } else if evidence_error(challenge, challenger).is_some() {
        Some(Error::Challenge(evidence_error(challenge, challenger).unwrap()))
    } else {
        match missed_verdict(
            dispute.paths,
            levels.last()@,
            nodes,
            user_full_order,
            challenge.score,
            levels.len(),
            index,
        ) {
            Ok(_) => None,
            Err(e) => Some(e),
        }
    }
}

/// Whether a path shown as left out, and not refused, takes an arbitration.
pub open spec fn missed_to_arbitration(
    challenge: Metadata,
    dispute: Dispute,
    nodes: Seq<AccountId>,
    index: int,
    user_full_order: Seq<u8>,
) -> bool {
    missed_verdict(
        dispute.paths,
        dispute.result_hashs_sets@.last()@,
        nodes,
        user_full_order,
        challenge.score,
        dispute.result_hashs_sets@.len(),
        index,
    ) == Ok::<bool, Error>(true)
}

/// What comes of a path shown as left out that is not refused.
///
/// Where it takes an arbitration, the challenge goes there and the path is
/// kept for it. Otherwise the challenger has won: the challenge starts again
/// with the challenger as pathfinder, the candidate passes to the
/// challenger with the score that was contested, the score list follows, and
/// what was kept for the challenge is dropped.
pub open spec fn missed_outcome(
    to_arbitration: bool,
    challenge: (Metadata, Metadata),
    candidate: (Candidate, Candidate),
    score_list: (Seq<u64>, Seq<u64>),
    dispute: (Dispute, Dispute),
    challenger: AccountId,
    target: AccountId,
    nodes: Seq<AccountId>,
    index: u32,
    now: BlockNumber,
    events: Seq<Event>,
) -> bool {
    &&& challenge.1 == evidenced(challenge.0, to_arbitration, now)
    &&& if to_arbitration {
        &&& candidate.1 == candidate.0
        &&& score_list.1 == score_list.0
        &&& dispute.1.paths == dispute.0.paths
        &&& dispute.1.result_hashs_sets == dispute.0.result_hashs_sets
        &&& dispute.1.missed_paths.is_some()
        &&& dispute.1.missed_paths.unwrap()@ == nodes
        &&& events == seq![Event::MissedPathPresented(challenger, target, index)]
    } else {
        &&& candidate.1 == (Candidate {
            score: challenge.0.score,
            pathfinder: challenger,
            ..candidate.0
        })
        &&& score_list.1 == with_score(without_score(score_list.0, candidate.0.score), challenge.0.score)
        &&& dispute.1.is_cleared()
        &&& events == seq![
            Event::ChallengeRestarted(target, challenge.0.score),
            Event::MissedPathPresented(challenger, target, index),
        ]
    }
}

/// Takes up a path that the challenger holds to have been left out, given
/// the fingerprint of its ends at the depth of the commitment and, in
/// `valid`, what the trust graph says of the path. A refusal changes nothing.
pub fn present_missed_path(
    challenge: &mut Metadata,
    candidate: &mut Candidate,
    score_list: &mut Vec<u64>,
    dispute: &mut Dispute,
    step: &TIRStep,
    challenger: &AccountId,
    target: &AccountId,
    nodes: &[AccountId],
    index: u32,
    valid: bool,
    user_full_order: &[u8],
    now: BlockNumber,
) -> (events: Result<Vec<Event>, Error>)
    requires
        ascending(old(score_list)@),
        old(dispute).result_hashs_sets@.len() <= DEEP,
        user_full_order@.len() == old(dispute).result_hashs_sets@.len() * RANGE,
    ensures
        ascending(final(score_list)@),
        final(dispute).result_hashs_sets@.len() <= DEEP,
        match events {
            Ok(evs) => missed_fault(
                *old(challenge),
                *old(dispute),
                *step,
                *challenger,
                *target,
                nodes@,
                index as int,
                valid,
                user_full_order@,
            ).is_none() && missed_outcome(
                missed_to_arbitration(
                    *old(challenge),
                    *old(dispute),
                    nodes@,
                    index as int,
                    user_full_order@,
                ),
                (*old(challenge), *final(challenge)),
                (*old(candidate), *final(candidate)),
                (old(score_list)@, final(score_list)@),
                (*old(dispute), *final(dispute)),
                *challenger,
                *target,
                nodes@,
                index,
                now,
                evs@,
            ),
            Err(e) => missed_fault(
                *old(challenge),
                *old(dispute),
                *step,
                *challenger,
                *target,
                nodes@,
                index as int,
                valid,
                user_full_order@,
            ) == Some(e) && *final(challenge) == *old(challenge) && *final(candidate) == *old(candidate) && final(score_list)@ == old(score_list)@ && *final(dispute) == *old(dispute),
        },
{
    match Pallet::check_step(step) {
        Ok(_) => {},
        Err(e) => { return Err(e); },
    }
    match Pallet::checked_nodes(nodes, target, valid) {
        Ok(_) => {},
        Err(e) => { return Err(e); },
    }
    if dispute.result_hashs_sets.len() == 0 {
        return Err(Error::ResultHashNotExit);
    }
    match check_evidence(challenge, challenger) {
        Ok(_) => {},
        Err(e) => { return Err(Error::Challenge(e)); },
    }
    let needs_arbitration = match missed_path_verdict(
        &dispute.paths,
        dispute.result_hashs_sets.as_slice(),
        nodes,
        user_full_order,
        challenge.score,
        index,
    ) {
        Ok(verdict) => verdict,
        Err(e) => { return Err(e); },
    };
    let maybe_score = match new_evidence(challenge, challenger, needs_arbitration, now) {
        Ok(score) => score,
        Err(e) => { return Err(Error::Challenge(e)); },
    };
    let mut events: Vec<Event> = Vec::new();
    match maybe_score {
        Some(score) => {
            let restarted = Pallet::restart(candidate, score_list, dispute, target, challenger, &score);
            events.push(restarted);
            events.push(Event::MissedPathPresented(*challenger, *target, index));
            proof {
                assert(events@ =~= seq![
                    Event::ChallengeRestarted(*target, score),
                    Event::MissedPathPresented(*challenger, *target, index),
                ]);
            }
        },
        None => {
            dispute.missed_paths = Some(copy_nodes(nodes));
            events.push(Event::MissedPathPresented(*challenger, *target, index));
            proof {
                assert(events@ =~= seq![Event::MissedPathPresented(*challenger, *target, index)]);
            }
        },
    }
    Ok(events)
}

impl Pallet {
    /// The challenger shows a path that the pathfinder has left out of the
    /// deepest level committed to. `valid` is what the trust graph says of
    /// `nodes`. A refusal changes nothing.
    pub fn evidence_of_missed(
        challenge: &mut Metadata,
        candidate: &mut Candidate,
        score_list: &mut Vec<u64>,
        dispute: &mut Dispute,
        step: &TIRStep,
        challenger: &AccountId,
        target: &AccountId,
        nodes: &[AccountId],
        index: u32,
        valid: bool,
        now: BlockNumber,
    ) -> (events: Result<Vec<Event>, Error>)
        requires
            ascending(old(score_list)@),
            old(dispute).result_hashs_sets@.len() <= DEEP,
        ensures
            ascending(final(score_list)@),
            final(dispute).result_hashs_sets@.len() <= DEEP,
            match events {
                Ok(evs) => missed_fault(
                    *old(challenge),
                    *old(dispute),
                    *step,
                    *challenger,
                    *target,
                    nodes@,
                    index as int,
                    valid,
                    ends_order(nodes@, old(dispute).result_hashs_sets@.len()),
                ).is_none() && missed_outcome(
                    missed_to_arbitration(
                        *old(challenge),
                        *old(dispute),
                        nodes@,
                        index as int,
                        ends_order(nodes@, old(dispute).result_hashs_sets@.len()),
                    ),
                    (*old(challenge), *final(challenge)),
                    (*old(candidate), *final(candidate)),
                    (old(score_list)@, final(score_list)@),
                    (*old(dispute), *final(dispute)),
                    *challenger,
                    *target,
                    nodes@,
                    index,
                    now,
                    evs@,
                ),
                Err(e) => missed_fault(
                    *old(challenge),
                    *old(dispute),
                    *step,
                    *challenger,
                    *target,
                    nodes@,
                    index as int,
                    valid,
                    ends_order(nodes@, old(dispute).result_hashs_sets@.len()),
                ) == Some(e) && *final(challenge) == *old(challenge) && *final(candidate) == *old(candidate) && final(score_list)@ == old(score_list)@ && *final(dispute) == *old(dispute),
            },
    {
        match Pallet::check_step(step) {
            Ok(_) => {},
            Err(e) => { return Err(e); },
        }
        match Pallet::checked_nodes(nodes, target, valid) {
            Ok(_) => {},
            Err(e) => { return Err(e); },
        }
        let (start, stop) = Pallet::get_nodes_ends(nodes);
        let deep = dispute.result_hashs_sets.len();
        if deep == 0 {
            return Err(Error::ResultHashNotExit);
        }
        let user_full_order = Pallet::make_full_order(&start, &stop, deep);
        present_missed_path(
            challenge,
            candidate,
            score_list,
            dispute,
            step,
            challenger,
            target,
            nodes,
            index,
            valid,
            user_full_order.as_slice(),
            now,
        )
    }
}

/// The first key of the fingerprint lies strictly between the keys of the
/// cells before and at `index`, as far as there are such cells.
pub open spec fn bracketed(last_level: Seq<ResultHash>, user_full_order: Seq<u8>, index: int) -> bool {
    &&& index > 0 ==> lex_less(last_level[index - 1].order@, user_full_order.take(RANGE as int))
    &&& index < last_level.len() ==> lex_less(
        user_full_order.take(RANGE as int),
        last_level[index].order@,
    )
}

/// The keys above the deepest level, as the fingerprint gives them, are
/// those of the cell under challenge.
pub open spec fn upper_keys_match(user_full_order: Seq<u8>, order: u64, deep: nat) -> bool {
    deep > 1 ==> unpack_le(order as nat, ((deep - 1) * RANGE) as nat) == user_full_order.take(
        (deep - 1) * RANGE,
    )
}

/// Where no paths are published, a path shown as left out goes to
/// arbitration exactly when `index` is no further than the end of the
/// deepest level, the keys above match and the first key is bracketed.
/// An index past the level is refused as such, and with the keys above
/// matching, a key that is not strictly between its neighbours is refused
/// as misplaced.
pub proof fn lemma_omission_needs_bracket(
    last_level: Seq<ResultHash>,
    nodes: Seq<AccountId>,
    user_full_order: Seq<u8>,
    order: u64,
    deep: nat,
    index: int,
)
    requires
        0 <= index,
    ensures
        ({
            let verdict = missed_verdict(
                None,
                last_level,
                nodes,
                user_full_order,
                order,
                deep,
                index,
            );
            &&& verdict.is_ok() <==> index <= last_level.len() && upper_keys_match(
                user_full_order,
                order,
                deep,
            ) && bracketed(last_level, user_full_order, index)
            &&& verdict.is_ok() ==> verdict == Ok::<bool, Error>(true)
            &&& index > last_level.len() ==> verdict == Err::<bool, Error>(
                Error::IndexExceedsMaximum,
            )
            &&& index <= last_level.len() && upper_keys_match(user_full_order, order, deep)
                && !bracketed(last_level, user_full_order, index) ==> verdict == Err::<bool, Error>(
                Error::PathIndexError,
            )
        }),
{
}

/// A row of findings without a fault has no first fault.
pub proof fn lemma_no_fault(faults: Seq<Option<Error>>)
    requires
        forall|k: int| 0 <= k < faults.len() ==> faults[k].is_none(),
    ensures
        first_fault(faults).is_none(),
{
    lemma_first_fault_skip(faults, faults.len() as int);
}

/// Where the fingerprint is that of the cell, some published path runs
/// between the ends of the path shown, and every such path is as long as
/// the path shown and differs from it, the matter is settled without
/// arbitration.
pub proof fn lemma_differing_path_settles(
    paths: Vec<Path>,
    last_level: Seq<ResultHash>,
    nodes: Seq<AccountId>,
    user_full_order: Seq<u8>,
    order: u64,
    deep: nat,
    index: int,
)
    requires
        unpack_le(order as nat, (deep * RANGE) as nat) == user_full_order,
        any_shares_ends(paths@, nodes),
        forall|i: int|
            0 <= i < paths@.len() && shares_ends(#[trigger] paths@[i].nodes@, nodes)
                ==> paths@[i].nodes@.len() == nodes.len() && paths@[i].nodes@ != nodes,
    ensures
        missed_verdict(Some(paths), last_level, nodes, user_full_order, order, deep, index) == Ok::<
            bool,
            Error,
        >(false),
{
    let faults = published_faults(paths@, nodes);
    assert forall|k: int| 0 <= k < faults.len() implies faults[k].is_none() by {
        if shares_ends(paths@[k].nodes@, nodes) {
            assert(paths@[k].nodes@.len() == nodes.len());
        }
    }
    lemma_no_fault(faults);
}

/// Where the matter is settled without arbitration, the challenge starts
/// again with the challenger as pathfinder and challenger, the candidate
/// passes to the challenger with the score that was contested, nothing is
/// kept of the dispute, and the path shown is not stored.
pub proof fn lemma_settled_outcome(
    challenge: (Metadata, Metadata),
    candidate: (Candidate, Candidate),
    score_list: (Seq<u64>, Seq<u64>),
    dispute: (Dispute, Dispute),
    challenger: AccountId,
    target: AccountId,
    nodes: Seq<AccountId>,
    index: u32,
    now: BlockNumber,
    events: Seq<Event>,
)
    requires
        evidence_error(challenge.0, challenger).is_none(),
        missed_outcome(
            false,
            challenge,
            candidate,
            score_list,
            dispute,
            challenger,
            target,
            nodes,
            index,
            now,
            events,
        ),
    ensures
        challenge.1.status == crate::challenges::Status::FREE,
        challenge.1.pathfinder == challenger,
        challenge.1.challenger == challenger,
        candidate.1.pathfinder == challenger,
        candidate.1.score == challenge.0.score,
        dispute.1.paths.is_none(),
        dispute.1.result_hashs_sets@.len() == 0,
        dispute.1.missed_paths.is_none(),
{
}

} // verus!
