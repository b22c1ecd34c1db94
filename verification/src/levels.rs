//! The levels that a pathfinder commits to, and the scores that they have to
//! add up to.

use crate::bytes::{lemma_unpack_le_len, pack_le, unpack_le};
use crate::commitment::{
    collect, distinct_orders, holds_order, lemma_collect, strictly_ordered, OrderedSet,
    PostResultHash, ResultHash, DEEP, RANGE,
};
use crate::full_order::FullOrder;
use crate::refresh_seeds::{Error, Pallet};
use vstd::prelude::*;

verus! {

/// The cells of each level.
pub open spec fn cells(levels: Seq<OrderedSet>) -> Seq<Seq<ResultHash>> {
    Seq::new(levels.len(), |i: int| levels[i]@)
}

/// There are no more levels than the game allows, and the cells of each stand
/// in the strict order of their keys.
pub open spec fn levels_wf(levels: Seq<OrderedSet>) -> bool {
    &&& levels.len() <= DEEP
    &&& forall|i: int| 0 <= i < levels.len() ==> (#[trigger] levels[i]).wf()
}

/// The scores of the cells added up.
pub open spec fn level_sum(level: Seq<ResultHash>) -> nat
    decreases level.len(),
{
    if level.len() == 0 {
        0
    } else {
        level_sum(level.drop_last()) + level.last().score as nat
    }
}

impl Pallet {
    /// Adds a level below the ones that are there.
    pub fn insert_hash(levels: &mut Vec<OrderedSet>, hash_set: OrderedSet) -> (inserted: Result<
        (),
        Error,
    >)
        ensures
            match inserted {
                Ok(_) => old(levels)@.len() < DEEP && final(levels)@ == old(levels)@.push(hash_set),
                Err(e) => e == Error::MaximumDepth && old(levels)@.len() >= DEEP && final(levels)@
                    == old(levels)@,
            },
            levels_wf(old(levels)@) && hash_set.wf() ==> levels_wf(final(levels)@),
    {
        if levels.len() >= DEEP as usize {
            return Err(Error::MaximumDepth);
        }
        levels.push(hash_set);
        Ok(())
    }
}

/// The keys from the first level down to the cell `index` of the last level,
/// where `old_order` holds the keys down to the level before.
pub open spec fn full_order_at(levels: Seq<Seq<ResultHash>>, old_order: u64, index: int) -> Seq<u8> {
    unpack_le(old_order as nat, ((levels.len() - 1) * RANGE) as nat) + levels.last()[index].order@
}

/// Why the keys down to the cell `index` of the last level cannot be given,
/// if they cannot.
pub open spec fn full_order_fault(levels: Seq<Seq<ResultHash>>, index: int) -> Option<Error> {
    if levels.len() == 0 {
        None
    } else if levels.len() > DEEP {
        Some(Error::ConverError)
    } else if index >= levels.last().len() {
        Some(Error::IndexExceedsMaximum)
    } else {
        None
    }
}

impl Pallet {
    /// The keys from the first level down to the cell `index` of the last level.
    /// `old_order` holds, packed, the keys down to the level before. Without a
    /// level there are no keys.
    pub fn get_full_order(result_hashs_sets: &[OrderedSet], old_order: &u64, index: &usize) -> (order:
        Result<FullOrder, Error>)
        ensures
            match order {
                Ok(full) => full_order_fault(cells(result_hashs_sets@), *index as int).is_none()
                    && full@ == if result_hashs_sets@.len() == 0 {
                    Seq::<u8>::empty()
                } else {
                    full_order_at(cells(result_hashs_sets@), *old_order, *index as int)
                },
                Err(e) => full_order_fault(cells(result_hashs_sets@), *index as int) == Some(e),
            },
    {
        let deep = result_hashs_sets.len();
        if deep == 0 {
            return Ok(FullOrder::default());
        }
        if deep > DEEP as usize {
            return Err(Error::ConverError);
        }
        let last = &result_hashs_sets[deep - 1];
        if *index >= last.len() {
            return Err(Error::IndexExceedsMaximum);
        }
        let next_level_order = last.0[*index].order;
        let mut full_order = FullOrder::from_u64(old_order, deep - 1);
        full_order.connect(&next_level_order);
        proof {
            assert(cells(result_hashs_sets@).last() == result_hashs_sets@[deep - 1]@);
        }
        Ok(full_order)
    }

    /// The keys down to the cell `index` of the last level, packed into one
    /// number; zero where there is no level.
    pub fn get_next_order(result_hashs_sets: &[OrderedSet], old_order: &u64, index: &usize) -> (order:
        Result<u64, Error>)
        ensures
            match order {
                Ok(packed) => full_order_fault(cells(result_hashs_sets@), *index as int).is_none()
                    && packed == if result_hashs_sets@.len() == 0 {
                    0
                } else {
                    pack_le(full_order_at(cells(result_hashs_sets@), *old_order, *index as int))
                },
                Err(e) => full_order_fault(cells(result_hashs_sets@), *index as int) == Some(e),
            },
    {
        if result_hashs_sets.len() == 0 {
            return Ok(0u64);
        }
        let full_order = match Pallet::get_full_order(result_hashs_sets, old_order, index) {
            Ok(full) => full,
            Err(e) => { return Err(e); },
        };
        proof {
            lemma_unpack_le_len(*old_order as nat, ((result_hashs_sets@.len() - 1) * RANGE) as nat);
        }
        match full_order.try_to_u64() {
            Some(packed) => Ok(packed),
            None => Err(Error::ConverError),
        }
    }
}

/// The score that the last level has to add up to: the candidate's score for
/// the first level, and below it the score of the cell `index` of the level
/// above.
pub open spec fn expected_score(levels: Seq<Seq<ResultHash>>, index: int, candidate_score: u64) -> u64 {
    if levels.len() == 1 {
        candidate_score
    } else {
        levels[levels.len() - 2][index].score
    }
}

/// What is wrong with the last level, if anything: its scores do not fit a
/// number, there is no cell `index` above it, or its scores do not add up to
/// what they should.
pub open spec fn verify_fault(levels: Seq<Seq<ResultHash>>, index: int, candidate_score: u64) -> Option<
    Error,
> {
    if levels.len() == 0 {
        None
    } else if level_sum(levels.last()) > u64::MAX {
        Some(Error::Overflow)
    } else if levels.len() >= 2 && index >= levels[levels.len() - 2].len() {
        Some(Error::IndexExceedsMaximum)
    } else if level_sum(levels.last()) != expected_score(levels, index, candidate_score) {
        Some(Error::ScoreMismatch)
    } else {
        None
    }
}

/// The sum of a level is at least the sum of any of its beginnings.
pub proof fn lemma_level_sum_grows(level: Seq<ResultHash>, i: int)
    requires
        0 <= i <= level.len(),
    ensures
        level_sum(level.take(i)) <= level_sum(level),
    decreases level.len() - i,
{
    if i < level.len() {
        lemma_level_sum_grows(level, i + 1);
        assert(level.take(i + 1).drop_last() =~= level.take(i));
    } else {
        assert(level.take(i) =~= level);
    }
}

impl Pallet {
    /// Checks that the scores of the last level add up to the score of the cell
    /// `index` of the level above, or, for the first level, to the candidate's score.
    pub fn verify_result_hashs(result_hashs: &[OrderedSet], index: u32, candidate_score: u64) -> (verified:
        Result<(), Error>)
        ensures
            match verified {
                Ok(_) => verify_fault(cells(result_hashs@), index as int, candidate_score).is_none(),
                Err(e) => verify_fault(cells(result_hashs@), index as int, candidate_score) == Some(e),
            },
    {
        let deep = result_hashs.len();
        if deep == 0 {
            return Ok(());
        }
        let last = &result_hashs[deep - 1];
        let ghost level = last@;
        proof {
            assert(cells(result_hashs@).last() == level);
        }
        let mut fold_score: u64 = 0;
        let mut i: usize = 0;
        while i < last.0.len()
            invariant
                i <= last.0.len(),
                level == last@,
                result_hashs@.len() > 0,
                cells(result_hashs@).last() == level,
                fold_score == level_sum(level.take(i as int)),
            decreases last.0.len() - i,
        {
            proof {
                assert(level.take(i + 1).drop_last() =~= level.take(i as int));
                assert(level.take(i + 1).last() == level[i as int]);
                assert(level_sum(level.take(i + 1)) == fold_score + level[i as int].score);
                lemma_level_sum_grows(level, i + 1);
            }
            fold_score = match fold_score.checked_add(last.0[i].score) {
                Some(sum) => sum,
                None => { return Err(Error::Overflow); },
            };
            i += 1;
        }
        proof {
            assert(level.take(level.len() as int) =~= level);
        }
        let total_score = if deep == 1 {
            candidate_score
        } else {
            let above = &result_hashs[deep - 2];
            proof {
                assert(cells(result_hashs@)[deep - 2] == above@);
            }
            if index as usize >= above.len() {
                return Err(Error::IndexExceedsMaximum);
            }
            above.0[index as usize].score
        };
        if fold_score != total_score {
            return Err(Error::ScoreMismatch);
        }
        Ok(())
    }
}

/// The cells that were posted.
pub open spec fn posted(hashs: Seq<PostResultHash>) -> Seq<ResultHash> {
    Seq::new(
        hashs.len(),
        |i: int| ResultHash { order: hashs[i].0, score: hashs[i].1, hash: hashs[i].2 },
    )
}

/// The cells that the new or longer level is made of: with `next` those of
/// the last level and the posted ones behind them, else the posted ones.
pub open spec fn offered(levels: Seq<Seq<ResultHash>>, hashs: Seq<PostResultHash>, next: bool) -> Seq<
    ResultHash,
> {
    if next {
        levels.last() + posted(hashs)
    } else {
        posted(hashs)
    }
}

/// The levels after the posted cells were taken in: with `next` they make
/// the last level longer, else they are a new level below it.
pub open spec fn updated(levels: Seq<Seq<ResultHash>>, hashs: Seq<PostResultHash>, next: bool) -> Seq<
    Seq<ResultHash>,
> {
    if next {
        levels.drop_last().push(collect(offered(levels, hashs, next)))
    } else {
        levels.push(collect(offered(levels, hashs, next)))
    }
}

/// Why the posted cells cannot be taken in, if they cannot.
pub open spec fn update_fault(
    levels: Seq<Seq<ResultHash>>,
    candidate_score: u64,
    hashs: Seq<PostResultHash>,
    do_verify: bool,
    index: int,
    next: bool,
) -> Option<Error> {
    if next && levels.len() > DEEP {
        Some(Error::MaximumDepth)
    } else if next && levels.len() == 0 {
        Some(Error::DataEmpty)
    } else if !next && levels.len() >= DEEP {
        Some(Error::MaximumDepth)
    } else if !distinct_orders(offered(levels, hashs, next)) {
        Some(Error::DataDuplication)
    } else if do_verify {
        verify_fault(updated(levels, hashs, next), index, candidate_score)
    } else {
        None
    }
}

/// The cells that were posted, as a vector behind `cells`.
fn extend_posted(cells: &mut Vec<ResultHash>, hashs: &[PostResultHash])
    ensures
        final(cells)@ == old(cells)@ + posted(hashs@),
{
    let mut i: usize = 0;
    while i < hashs.len()
        invariant
            i <= hashs.len(),
            cells@ == old(cells)@ + posted(hashs@).take(i as int),
        decreases hashs.len() - i,
    {
        let cell = hashs[i].to_result_hash();
        proof {
            assert(cell == posted(hashs@)[i as int]);
            assert((old(cells)@ + posted(hashs@).take(i as int)).push(cell) =~= old(cells)@ + posted(
                hashs@,
            ).take(i + 1));
        }
        cells.push(cell);
        i += 1;
    }
    proof {
        assert(posted(hashs@).take(hashs.len() as int) =~= posted(hashs@));
    }
}

impl Pallet {
    /// Takes the posted cells in: with `next` into the last level, else as a
    /// new level. No key may occur twice in a level, and with `do_verify` the
    /// level's scores have to add up to the score of the cell `index` above it,
    /// or to `candidate_score` for the first level. A refusal changes nothing.
    pub fn update_result_hashs(
        levels: &mut Vec<OrderedSet>,
        candidate_score: u64,
        hashs: &[PostResultHash],
        do_verify: bool,
        index: u32,
        next: bool,
    ) -> (done: Result<(), Error>)
        ensures
            match done {
                Ok(_) => update_fault(
                    cells(old(levels)@),
                    candidate_score,
                    hashs@,
                    do_verify,
                    index as int,
                    next,
                ).is_none() && cells(final(levels)@) == updated(cells(old(levels)@), hashs@, next),
                Err(e) => update_fault(
                    cells(old(levels)@),
                    candidate_score,
                    hashs@,
                    do_verify,
                    index as int,
                    next,
                ) == Some(e) && final(levels)@ == old(levels)@,
            },
            levels_wf(old(levels)@) ==> levels_wf(final(levels)@),
    {
        let current_deep = levels.len();
        let ghost before = levels@;
        let ghost old_cells = cells(levels@);
        let mut kept: Option<OrderedSet> = None;
        let mut r_hashs_vec: Vec<ResultHash> = Vec::new();
        if next {
            if current_deep > DEEP as usize {
                return Err(Error::MaximumDepth);
            }
            if current_deep == 0 {
                return Err(Error::DataEmpty);
            }
            let last = levels.pop().unwrap();
            proof {
                assert(old_cells.last() == last@);
            }
            let copy = last.clone();
            r_hashs_vec = copy.0;
            kept = Some(last);
        } else {
            if current_deep >= DEEP as usize {
                return Err(Error::MaximumDepth);
            }
        }
        extend_posted(&mut r_hashs_vec, hashs);
        assert(r_hashs_vec@ == offered(old_cells, hashs@, next));
        let given = r_hashs_vec.len();
        let full_hashs_set = OrderedSet::from(r_hashs_vec);
        let ghost rest = levels@;
        let mut fault: Option<Error> = None;
        if given != full_hashs_set.len() {
            fault = Some(Error::DataDuplication);
        } else {
            levels.push(full_hashs_set);
            proof {
                assert(cells(levels@) =~= updated(old_cells, hashs@, next)) by {
                    if next {
                        assert(rest =~= before.drop_last());
                        assert(cells(rest) =~= old_cells.drop_last());
                    }
                }
            }
            if do_verify {
                match Pallet::verify_result_hashs(levels.as_slice(), index, candidate_score) {
                    Ok(_) => {},
                    Err(e) => {
                        fault = Some(e);
                        levels.pop();
                    },
                }
            }
            proof {
                assert(fault.is_some() ==> levels@ =~= rest);
            }
        }
        match fault {
            Some(e) => {
                match kept {
                    Some(last) => {
                        levels.push(last);
                    },
                    None => {},
                }
                proof {
                    assert(levels@ =~= before);
                }
                Err(e)
            },
            None => Ok(()),
        }
    }
}

/// The scores are conserved from level to level: the first level adds up to
/// the candidate's score, and every level below to the score of the cell
/// that was chosen in the level above it. `picks` names those cells, one for
/// each level but the last.
pub open spec fn conserves(levels: Seq<Seq<ResultHash>>, candidate_score: u64, picks: Seq<int>) -> bool {
    &&& levels.len() == 0 ==> picks.len() == 0
    &&& levels.len() > 0 ==> picks.len() + 1 == levels.len() && level_sum(levels[0])
        == candidate_score
    &&& forall|d: int|
        0 < d < levels.len() ==> 0 <= #[trigger] picks[d - 1] < levels[d - 1].len() && level_sum(
            levels[d],
        ) == levels[d - 1][picks[d - 1]].score
}

/// The levels above the one that the posted cells go into.
pub open spec fn upper_levels(levels: Seq<Seq<ResultHash>>, next: bool) -> Seq<Seq<ResultHash>> {
    if next {
        levels.drop_last()
    } else {
        levels
    }
}

/// A level that was taken in with its scores checked conserves the scores:
/// where the levels above it do, so do the levels with it, the cell
/// `index` being the one chosen in the level just above.
pub proof fn lemma_verified_update_conserves(
    levels: Seq<Seq<ResultHash>>,
    candidate_score: u64,
    hashs: Seq<PostResultHash>,
    index: int,
    next: bool,
    picks: Seq<int>,
)
    requires
        0 <= index,
        update_fault(levels, candidate_score, hashs, true, index, next).is_none(),
        conserves(upper_levels(levels, next), candidate_score, picks),
    ensures
        conserves(
            updated(levels, hashs, next),
            candidate_score,
            if upper_levels(levels, next).len() == 0 {
                picks
            } else {
                picks.push(index)
            },
        ),
        updated(levels, hashs, next).len() <= DEEP,
        strictly_ordered(updated(levels, hashs, next).last()),
{
    let upper = upper_levels(levels, next);
    let after = updated(levels, hashs, next);
    let new_picks = if upper.len() == 0 {
        picks
    } else {
        picks.push(index)
    };
    lemma_collect(offered(levels, hashs, next));
    assert(after =~= upper.push(collect(offered(levels, hashs, next))));
    assert forall|d: int| 0 < d < after.len() implies 0 <= #[trigger] new_picks[d - 1] < after[d
        - 1].len() && level_sum(after[d]) == after[d - 1][new_picks[d - 1]].score by {
        if d < upper.len() {
            assert(after[d] == upper[d] && after[d - 1] == upper[d - 1]);
            assert(new_picks[d - 1] == picks[d - 1]);
        } else {
            assert(new_picks[d - 1] == index);
        }
    }
}

/// The depth admits the posted cells: with `next` there is a level to make
/// longer, else there is room for one more.
pub open spec fn depth_admits(levels: Seq<Seq<ResultHash>>, next: bool) -> bool {
    if next {
        0 < levels.len() <= DEEP
    } else {
        levels.len() < DEEP
    }
}

/// Where the depth admits the posted cells, two of them under one key, or
/// one under a key that the level to be made longer holds already, are
/// refused as a duplication.
pub proof fn lemma_duplicate_key_refused(
    levels: Seq<Seq<ResultHash>>,
    candidate_score: u64,
    hashs: Seq<PostResultHash>,
    do_verify: bool,
    index: int,
    next: bool,
)
    requires
        depth_admits(levels, next),
        (exists|i: int, j: int|
            0 <= i < j < hashs.len() && (#[trigger] hashs[i]).0@ == (#[trigger] hashs[j]).0@) || (next
            && exists|j: int|
            0 <= j < hashs.len() && holds_order(levels.last(), (#[trigger] hashs[j]).0@)),
    ensures
        update_fault(levels, candidate_score, hashs, do_verify, index, next) == Some(
            Error::DataDuplication,
        ),
{
    let cells = offered(levels, hashs, next);
    let base: int = if next {
        levels.last().len() as int
    } else {
        0
    };
    assert forall|k: int| 0 <= k < hashs.len() implies (#[trigger] cells[base + k]).order
        == hashs[k].0 by {
        assert(posted(hashs)[k].order == hashs[k].0);
    }
    if exists|i: int, j: int|
        0 <= i < j < hashs.len() && (#[trigger] hashs[i]).0@ == (#[trigger] hashs[j]).0@ {
        let (i, j) = choose|i: int, j: int|
            0 <= i < j < hashs.len() && (#[trigger] hashs[i]).0@ == (#[trigger] hashs[j]).0@;
        assert(cells[base + i].order@ == cells[base + j].order@);
    } else {
        let j = choose|j: int|
            0 <= j < hashs.len() && holds_order(levels.last(), (#[trigger] hashs[j]).0@);
        let last = levels.last();
        let k = choose|k: int| 0 <= k < last.len() && #[trigger] last[k].order@ == hashs[j].0@;
        assert(cells[k] == last[k]);
        assert(cells[k].order@ == cells[base + j].order@);
    }
}

/// With the scores checked, a level that is admitted, has no key twice and
/// whose scores fit a number but do not add up to the score that they
/// should, is refused for the mismatch.
pub proof fn lemma_score_mismatch_refused(
    levels: Seq<Seq<ResultHash>>,
    candidate_score: u64,
    hashs: Seq<PostResultHash>,
    index: int,
    next: bool,
)
    requires
        depth_admits(levels, next),
        distinct_orders(offered(levels, hashs, next)),
        level_sum(updated(levels, hashs, next).last()) <= u64::MAX,
        updated(levels, hashs, next).len() >= 2 ==> 0 <= index < updated(levels, hashs, next)[updated(
            levels,
            hashs,
            next,
        ).len() - 2].len(),
        level_sum(updated(levels, hashs, next).last()) != expected_score(
            updated(levels, hashs, next),
            index,
            candidate_score,
        ),
    ensures
        update_fault(levels, candidate_score, hashs, true, index, next) == Some(
            Error::ScoreMismatch,
        ),
{
}

/// Below the first level the scores of the last level are held against the
/// score of the cell `index` of the level above, and against nothing else:
/// where they fit a number and that cell is there, the level passes exactly
/// when they add up to its score, and is refused for the mismatch otherwise,
/// whatever the candidate's score.
pub proof fn lemma_verify_by_parent_cell(
    levels: Seq<Seq<ResultHash>>,
    index: int,
    candidate_score: u64,
    other_score: u64,
)
    requires
        levels.len() >= 2,
        0 <= index < levels[levels.len() - 2].len(),
        level_sum(levels.last()) <= u64::MAX,
    ensures
        verify_fault(levels, index, candidate_score) == if level_sum(levels.last())
            == levels[levels.len() - 2][index].score {
            None
        } else {
            Some(Error::ScoreMismatch)
        },
        verify_fault(levels, index, candidate_score) == verify_fault(levels, index, other_score),
{
}

} // verus!
