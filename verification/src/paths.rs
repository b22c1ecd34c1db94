//! Trust paths and the checks that they have to pass.

use crate::commitment::{ResultHash, RANGE};
use crate::bytes::bytes_eq;
use crate::hashing::{full_order_of, SHA1_LEN};
use crate::primitives::AccountId;
use crate::refresh_seeds::{Error, Pallet};
use vstd::prelude::*;

verus! {

/// A target has fewer shortest paths than this.
pub const MAX_SHORTEST_PATH: u32 = 100;

/// A shortest path through the trust graph.
#[derive(Debug, PartialEq, Eq)]
pub struct Path {
    /// The accounts along the path, from its start to its stop.
    pub nodes: Vec<AccountId>,
    /// The number of shortest paths between the two ends.
    pub total: u32,
}

impl Clone for Path {
    fn clone(&self) -> (copy: Path)
        ensures
            copy.nodes@ == self.nodes@,
            copy.total == self.total,
    {
        Path { nodes: copy_nodes(self.nodes.as_slice()), total: self.total }
    }
}

/// A vector with the accounts of `nodes`.
pub fn copy_nodes(nodes: &[AccountId]) -> (copy: Vec<AccountId>)
    ensures
        copy@ == nodes@,
{
    let mut copy: Vec<AccountId> = Vec::new();
    let mut i: usize = 0;
    while i < nodes.len()
        invariant
            i <= nodes.len(),
            copy@ == nodes@.take(i as int),
        decreases nodes.len() - i,
    {
        copy.push(nodes[i]);
        proof {
            assert(nodes@.take(i + 1) =~= nodes@.take(i as int).push(nodes@[i as int]));
        }
        i += 1;
    }
    proof {
        assert(nodes@.take(nodes.len() as int) =~= nodes@);
    }
    copy
}

/// The first fault in a row of findings, if there is one.
pub open spec fn first_fault(faults: Seq<Option<Error>>) -> Option<Error>
    decreases faults.len(),
{
    if faults.len() == 0 {
        None
    } else if faults[0].is_some() {
        faults[0]
    } else {
        first_fault(faults.drop_first())
    }
}

/// Findings without a fault at the front can be passed over.
pub proof fn lemma_first_fault_skip(faults: Seq<Option<Error>>, i: int)
    requires
        0 <= i <= faults.len(),
        forall|k: int| 0 <= k < i ==> faults[k].is_none(),
    ensures
        first_fault(faults) == first_fault(faults.skip(i)),
    decreases i,
{
    if i == 0 {
        assert(faults.skip(0) =~= faults);
    } else {
        lemma_first_fault_skip(faults, i - 1);
        let rest = faults.skip(i - 1);
        assert(rest[0] == faults[i - 1]);
        assert(rest.drop_first() =~= faults.skip(i));
    }
}

/// What is wrong with `nodes` as a path through `target`, if anything: fewer
/// than two nodes, no `target` among them, or, as `valid` tells, no such
/// path in the trust graph.
pub open spec fn nodes_fault(nodes: Seq<AccountId>, target: AccountId, valid: bool) -> Option<Error> {
    if nodes.len() < 2 {
        Some(Error::PathTooShort)
    } else if !nodes.contains(target) {
        Some(Error::NoTargetNode)
    } else if !valid {
        Some(Error::WrongPath)
    } else {
        None
    }
}

/// Whether `target` is one of `nodes`.
pub fn has_node(nodes: &[AccountId], target: &AccountId) -> (found: bool)
    ensures
        found == nodes@.contains(*target),
{
    let mut i: usize = 0;
    while i < nodes.len()
        invariant
            i <= nodes.len(),
            forall|k: int| 0 <= k < i ==> nodes@[k] != *target,
        decreases nodes.len() - i,
    {
        if nodes[i] == *target {
            return true;
        }
        i += 1;
    }
    false
}

impl Pallet {
    /// Checks `nodes` as a path through `target`. `valid` is what the trust graph
    /// says of `nodes`.
    pub fn checked_nodes(nodes: &[AccountId], target: &AccountId, valid: bool) -> (checked: Result<
        (),
        Error,
    >)
        ensures
            match checked {
                Ok(_) => nodes_fault(nodes@, *target, valid).is_none(),
                Err(e) => nodes_fault(nodes@, *target, valid) == Some(e),
            },
    {
        if nodes.len() < 2 {
            return Err(Error::PathTooShort);
        }
        if !has_node(nodes, target) {
            return Err(Error::NoTargetNode);
        }
        if !valid {
            return Err(Error::WrongPath);
        }
        Ok(())
    }

    /// The first and the last of `nodes`.
    pub fn get_nodes_ends(nodes: &[AccountId]) -> (ends: (AccountId, AccountId))
        requires
            nodes@.len() > 0,
        ensures
            ends == (nodes@[0], nodes@.last()),
    {
        let stop = nodes[nodes.len() - 1];
        (nodes[0], stop)
    }

    /// The start and the stop of `path`.
    pub fn get_ends(path: &Path) -> (ends: (AccountId, AccountId))
        requires
            path.nodes@.len() > 0,
        ensures
            ends == (path.nodes@[0], path.nodes@.last()),
    {
        Pallet::get_nodes_ends(path.nodes.as_slice())
    }
}

/// The path that leads from `start` over `mid_path` to `stop`.
pub open spec fn joined(mid_path: Seq<AccountId>, start: AccountId, stop: AccountId) -> Seq<AccountId> {
    seq![start] + mid_path + seq![stop]
}

/// Builds the path that leads from `start` over `mid_path` to `stop`.
pub fn join_mid_path(mid_path: &[AccountId], start: &AccountId, stop: &AccountId) -> (nodes: Vec<
    AccountId,
>)
    ensures
        nodes@ == joined(mid_path@, *start, *stop),
{
    let mut nodes: Vec<AccountId> = Vec::new();
    nodes.push(*start);
    let mut i: usize = 0;
    while i < mid_path.len()
        invariant
            i <= mid_path.len(),
            nodes@ == seq![*start] + mid_path@.take(i as int),
        decreases mid_path.len() - i,
    {
        nodes.push(mid_path[i]);
        proof {
            assert(mid_path@.take(i + 1) =~= mid_path@.take(i as int).push(mid_path@[i as int]));
            assert((seq![*start] + mid_path@.take(i as int)).push(mid_path@[i as int]) =~= seq![
                *start,
            ] + mid_path@.take(i + 1));
        }
        i += 1;
    }
    nodes.push(*stop);
    proof {
        assert(mid_path@.take(mid_path.len() as int) =~= mid_path@);
        assert(nodes@ =~= joined(mid_path@, *start, *stop));
    }
    nodes
}

impl Pallet {
    /// The path from `start` over `mid_path` to `stop`, if the trust graph holds
    /// it. `valid` is what the trust graph says of that path.
    pub fn check_mid_path(
        mid_path: &[AccountId],
        start: &AccountId,
        stop: &AccountId,
        valid: bool,
    ) -> (nodes: Result<Vec<AccountId>, Error>)
        ensures
            match nodes {
                Ok(path) => valid && path@ == joined(mid_path@, *start, *stop),
                Err(e) => !valid && e == Error::WrongPath,
            },
    {
        let nodes = join_mid_path(mid_path, start, stop);
        if !valid {
            return Err(Error::WrongPath);
        }
        Ok(nodes)
    }
}

/// What is wrong with a path offered for the cell `order`, if anything.
/// `fingerprint` is the fingerprint of its two ends at the depth of the cell.
pub open spec fn path_fault(
    nodes: Seq<AccountId>,
    total: u32,
    target: AccountId,
    order: Seq<u8>,
    fingerprint: Seq<u8>,
    valid: bool,
) -> Option<Error> {
    if !(0 < total < MAX_SHORTEST_PATH) {
        Some(Error::PathTooLong)
    } else if nodes.len() == 0 {
        Some(Error::PathTooShort)
    } else if fingerprint != order {
        Some(Error::OrderNotMatch)
    } else {
        nodes_fault(nodes, target, valid)
    }
}

/// Checks one path offered for the cell `order`, given the fingerprint of its
/// ends and what the trust graph says of it.
pub fn checked_path(
    path: &Path,
    target: &AccountId,
    order: &[u8],
    fingerprint: &[u8],
    valid: bool,
) -> (checked: Result<(), Error>)
    ensures
        match checked {
            Ok(_) => path_fault(path.nodes@, path.total, *target, order@, fingerprint@, valid).is_none(),
            Err(e) => path_fault(path.nodes@, path.total, *target, order@, fingerprint@, valid)
                == Some(e),
        },
{
    if !(path.total > 0 && path.total < MAX_SHORTEST_PATH) {
        return Err(Error::PathTooLong);
    }
    if path.nodes.len() == 0 {
        return Err(Error::PathTooShort);
    }
    if !bytes_eq(fingerprint, order) {
        return Err(Error::OrderNotMatch);
    }
    Pallet::checked_nodes(path.nodes.as_slice(), target, valid)
}

/// The fingerprint at depth `deep` of the ends of `nodes`; of no use where
/// there are no nodes.
pub open spec fn ends_order(nodes: Seq<AccountId>, deep: nat) -> Seq<u8> {
    full_order_of(nodes[0], nodes.last(), deep)
}

/// What is wrong with each of `paths` as a path of the cell `order` at depth
/// `deep`, in their order.
pub open spec fn path_faults(
    paths: Seq<Path>,
    target: AccountId,
    order: Seq<u8>,
    deep: nat,
    valid: Seq<bool>,
) -> Seq<Option<Error>> {
    Seq::new(
        paths.len(),
        |i: int|
            path_fault(
                paths[i].nodes@,
                paths[i].total,
                target,
                order,
                ends_order(paths[i].nodes@, deep),
                valid[i],
            ),
    )
}

impl Pallet {
    /// Checks that each of `paths` has a number of shortest paths in range, has
    /// ends whose fingerprint at depth `deep` is `order`, and is a path through
    /// `target`. `valid` holds what the trust graph says of each. The first fault
    /// found is the one reported.
    pub fn checked_paths_vec(
        paths: &[Path],
        target: &AccountId,
        order: &[u8],
        deep: usize,
        valid: &[bool],
    ) -> (checked: Result<(), Error>)
        requires
            deep * RANGE <= 2 * SHA1_LEN,
            valid@.len() == paths@.len(),
        ensures
            match checked {
                Ok(_) => first_fault(path_faults(paths@, *target, order@, deep as nat, valid@)).is_none(),
                Err(e) => first_fault(path_faults(paths@, *target, order@, deep as nat, valid@))
                    == Some(e),
            },
    {
        let ghost faults = path_faults(paths@, *target, order@, deep as nat, valid@);
        let mut i: usize = 0;
        while i < paths.len()
            invariant
                i <= paths.len(),
                valid@.len() == paths@.len(),
                deep * RANGE <= 2 * SHA1_LEN,
                faults == path_faults(paths@, *target, order@, deep as nat, valid@),
                forall|k: int| 0 <= k < i ==> faults[k].is_none(),
            decreases paths.len() - i,
        {
            let p = &paths[i];
            let fingerprint = if p.nodes.len() > 0 {
                let (start, stop) = Pallet::get_ends(p);
                Pallet::make_full_order(&start, &stop, deep)
            } else {
                Vec::new()
            };
            match checked_path(p, target, order, fingerprint.as_slice(), valid[i]) {
                Ok(_) => {},
                Err(e) => {
                    proof {
                        assert(faults[i as int] == Some(e));
                        lemma_first_fault_skip(faults, i as int);
                        assert(faults.skip(i as int)[0] == faults[i as int]);
                    }
                    return Err(e);
                },
            }
            i += 1;
        }
        proof {
            lemma_first_fault_skip(faults, faults.len() as int);
        }
        Ok(())
    }
}

/// The part of a hundred that falls to each of `total` shortest paths.
pub open spec fn contribution(total: u32) -> nat {
    (100int / total as int) as nat
}

/// What is wrong with a path brought as evidence, if anything.
pub open spec fn evidence_fault(nodes: Seq<AccountId>, total: u32, target: AccountId, valid: bool) -> Option<
    Error,
> {
    if nodes_fault(nodes, target, valid).is_some() {
        nodes_fault(nodes, target, valid)
    } else if !(0 < total < MAX_SHORTEST_PATH) {
        Some(Error::LengthTooLong)
    } else {
        None
    }
}

/// What is wrong with each of `paths` as evidence, in their order.
pub open spec fn evidence_faults(paths: Seq<Path>, target: AccountId, valid: Seq<bool>) -> Seq<
    Option<Error>,
> {
    Seq::new(
        paths.len(),
        |i: int| evidence_fault(paths[i].nodes@, paths[i].total, target, valid[i]),
    )
}

/// The contributions of `paths` added up.
pub open spec fn contributions(paths: Seq<Path>) -> nat
    decreases paths.len(),
{
    if paths.len() == 0 {
        0
    } else {
        contributions(paths.drop_last()) + contribution(paths.last().total)
    }
}

/// The score that `paths` stand for: their contributions added up, and no
/// more than a `u32` holds.
pub open spec fn paths_score(paths: Seq<Path>) -> nat {
    if contributions(paths) > u32::MAX {
        u32::MAX as nat
    } else {
        contributions(paths)
    }
}

impl Pallet {
    /// Checks the paths brought for a cell: each is a path through `target` with
    /// a number of shortest paths in range, and together they stand for the
    /// cell's score. `valid` holds what the trust graph says of each path.
    pub fn verify_paths(
        paths: &[Path],
        target: &AccountId,
        result_hash: &ResultHash,
        valid: &[bool],
    ) -> (verified: Result<(), Error>)
        requires
            valid@.len() == paths@.len(),
        ensures
            match verified {
                Ok(_) => first_fault(evidence_faults(paths@, *target, valid@)).is_none() && paths_score(
                    paths@,
                ) == result_hash.score,
                Err(e) => if first_fault(evidence_faults(paths@, *target, valid@)).is_some() {
                    first_fault(evidence_faults(paths@, *target, valid@)) == Some(e)
                } else {
                    e == Error::ScoreMismatch && paths_score(paths@) != result_hash.score
                },
            },
    {
        let ghost faults = evidence_faults(paths@, *target, valid@);
        let mut total_score: u32 = 0;
        let mut i: usize = 0;
        while i < paths.len()
            invariant
                i <= paths.len(),
                valid@.len() == paths@.len(),
                faults == evidence_faults(paths@, *target, valid@),
                forall|k: int| 0 <= k < i ==> faults[k].is_none(),
                total_score == paths_score(paths@.take(i as int)),
            decreases paths.len() - i,
        {
            let p = &paths[i];
            proof {
                lemma_first_fault_skip(faults, i as int);
                assert(faults.skip(i as int)[0] == faults[i as int]);
                assert(paths@.take(i + 1).drop_last() =~= paths@.take(i as int));
                assert(paths@.take(i + 1).last() == paths@[i as int]);
            }
            match Pallet::checked_nodes(p.nodes.as_slice(), target, valid[i]) {
                Ok(_) => {},
                Err(e) => { return Err(e); },
            }
            if !(p.total > 0 && p.total < MAX_SHORTEST_PATH) {
                return Err(Error::LengthTooLong);
            }
            // Two-digit accuracy
            let score = 100 / p.total;
            total_score = total_score.saturating_add(score);
            i += 1;
        }
        proof {
            lemma_first_fault_skip(faults, faults.len() as int);
            assert(paths@.take(paths.len() as int) =~= paths@);
        }
        if total_score as u64 != result_hash.score {
            return Err(Error::ScoreMismatch);
        }
        Ok(())
    }

    /// The path that the pathfinder published at `index`.
    pub fn get_pathfinder_paths(paths: &Option<Vec<Path>>, index: &u32) -> (path: Result<Path, Error>)
        ensures
            match path {
                Ok(p) => paths.is_some() && *index < paths.unwrap()@.len() && p.nodes@
                    == paths.unwrap()@[*index as int].nodes@ && p.total
                    == paths.unwrap()@[*index as int].total,
                Err(e) => if paths.is_none() {
                    e == Error::PathDoesNotExist
                } else {
                    e == Error::IndexExceedsMaximum && *index >= paths.unwrap()@.len()
                },
            },
    {
        match paths {
            None => Err(Error::PathDoesNotExist),
            Some(published) => {
                let index = *index as usize;
                if published.len() <= index {
                    return Err(Error::IndexExceedsMaximum);
                }
                Ok(published[index].clone())
            },
        }
    }
}

} // verus!
