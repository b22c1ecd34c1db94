//! The list of candidate scores, kept from the lowest to the highest.

use crate::primitives::{AccountId, BlockNumber};
use crate::refresh_seeds::{Event, Pallet};
use vstd::prelude::*;

verus! {

/// A score that a pathfinder has published for a target.
#[derive(Debug, Clone, Copy, PartialEq, Eq, Structural)]
pub struct Candidate {
    pub score: u64,
    pub pathfinder: AccountId,
    pub has_challenge: bool,
    pub add_at: BlockNumber,
}

/// No score of the list is followed by a lower one.
pub open spec fn ascending(s: Seq<u64>) -> bool {
    forall|i: int, j: int| 0 <= i < j < s.len() ==> s[i] <= s[j]
}

/// The number of scores in `s` that are lower than `score`.
pub open spec fn count_below(s: Seq<u64>, score: u64) -> nat
    decreases s.len(),
{
    if s.len() == 0 {
        0
    } else {
        count_below(s.drop_last(), score) + if s.last() < score {
            1nat
        } else {
            0nat
        }
    }
}

/// `s` with `score` put in behind the scores that are lower.
pub open spec fn with_score(s: Seq<u64>, score: u64) -> Seq<u64> {
    s.insert(count_below(s, score) as int, score)
}

/// `s` with one `score` taken out, if it holds one.
pub open spec fn without_score(s: Seq<u64>, score: u64) -> Seq<u64> {
    if s.contains(score) {
        s.remove(count_below(s, score) as int)
    } else {
        s
    }
}

/// In an ascending list the scores below `score` are those in front of
/// `count_below`.
pub proof fn lemma_count_below_splits(s: Seq<u64>, score: u64)
    requires
        ascending(s),
    ensures
        count_below(s, score) <= s.len(),
        forall|j: int| 0 <= j < s.len() ==> (j < count_below(s, score) <==> s[j] < score),
    decreases s.len(),
{
    if s.len() > 0 {
        let front = s.drop_last();
        let n = s.len() - 1;
        assert forall|i: int, j: int| 0 <= i < j < front.len() implies front[i] <= front[j] by {
            assert(front[i] == s[i] && front[j] == s[j]);
        }
        lemma_count_below_splits(front, score);
        assert forall|j: int| 0 <= j < n implies front[j] == s[j] by {}
        if s.last() < score {
            assert forall|j: int| 0 <= j < n implies s[j] < score by {
                assert(s[j] <= s[n]);
            }
            if n > 0 {
                assert(front[n - 1] == s[n - 1]);
                assert(front[n - 1] < score);
            }
            assert(count_below(front, score) == n);
        }
    }
}

/// Putting a score into an ascending list leaves it ascending, and an
/// ascending list that holds a score holds it at `count_below`.
pub proof fn lemma_with_score_ascending(s: Seq<u64>, score: u64)
    requires
        ascending(s),
    ensures
        ascending(with_score(s, score)),
        ascending(without_score(s, score)),
        s.contains(score) ==> count_below(s, score) < s.len() && s[count_below(s, score) as int]
            == score,
{
    lemma_count_below_splits(s, score);
    let r = count_below(s, score) as int;
    let t = s.insert(r, score);
    assert forall|i: int, j: int| 0 <= i < j < t.len() implies t[i] <= t[j] by {
        if j < r {
        } else if j == r {
            assert(t[i] == s[i]);
        } else if i < r {
            assert(t[j] == s[j - 1]);
        } else if i == r {
            assert(t[j] == s[j - 1]);
        } else {
            assert(t[i] == s[i - 1] && t[j] == s[j - 1]);
        }
    }
    if s.contains(score) {
        let k = choose|k: int| 0 <= k < s.len() && s[k] == score;
        assert(!(k < r));
        assert(r < s.len());
        assert(!(s[r] < score));
        assert(s[r] <= s[k]);
        let u = s.remove(r);
        assert forall|i: int, j: int| 0 <= i < j < u.len() implies u[i] <= u[j] by {
            if j < r {
            } else if i < r {
                assert(u[j] == s[j + 1]);
            } else {
                assert(u[i] == s[i + 1] && u[j] == s[j + 1]);
            }
        }
    }
}

/// The place of the first score in `score_list` that is not below `score`.
pub fn lower_bound(score_list: &Vec<u64>, score: u64) -> (at: usize)
    requires
        ascending(score_list@),
    ensures
        at == count_below(score_list@, score),
        at <= score_list@.len(),
        score_list@.contains(score) <==> at < score_list@.len() && score_list@[at as int] == score,
{
    let mut lo: usize = 0;
    let mut hi: usize = score_list.len();
    while lo < hi
        invariant
            ascending(score_list@),
            lo <= hi <= score_list@.len(),
            forall|j: int| 0 <= j < lo ==> score_list@[j] < score,
            forall|j: int| hi <= j < score_list@.len() ==> score_list@[j] >= score,
        decreases hi - lo,
    {
        let mid = lo + (hi - lo) / 2;
        if score_list[mid] < score {
            lo = mid + 1;
        } else {
            hi = mid;
        }
    }
    proof {
        lemma_count_below_splits(score_list@, score);
        lemma_with_score_ascending(score_list@, score);
        if lo > 0 {
            assert(score_list@[lo - 1] < score);
        }
        if lo < score_list@.len() {
            assert(score_list@[lo as int] >= score);
        }
    }
    lo
}

impl Pallet {
    /// Insert `score` into `score_list`, which stays ascending.
    pub fn score_list_insert(score_list: &mut Vec<u64>, score: &u64)
        requires
            ascending(old(score_list)@),
        ensures
            final(score_list)@ == with_score(old(score_list)@, *score),
            ascending(final(score_list)@),
    {
        let index = lower_bound(score_list, *score);
        proof {
            lemma_with_score_ascending(score_list@, *score);
        }
        score_list.insert(index, *score);
    }

    /// Cuts the list down to its highest scores, as many as seeds are
    /// selected at most, and reports how many seeds were selected.
    pub fn hand_first_time(&self, score_list: &mut Vec<u64>) -> (event: Event)
        ensures
            final(score_list)@ == highest(old(score_list)@, self.max_seed_count),
            event == Event::SeedsSelected(final(score_list)@.len() as u32),
            final(score_list)@.len() <= self.max_seed_count,
    {
        let len = score_list.len();
        if len > self.max_seed_count as usize {
            let kept = score_list.split_off(len - self.max_seed_count as usize);
            *score_list = kept;
        }
        Event::SeedsSelected(score_list.len() as u32)
    }
}

impl Pallet {
    /// Replaces one `old_score` in the list, if there is one, by `new_score`;
    /// without one, `new_score` is put in all the same.
    pub fn mutate_score(score_list: &mut Vec<u64>, old_score: &u64, new_score: &u64)
        requires
            ascending(old(score_list)@),
        ensures
            final(score_list)@ == with_score(without_score(old(score_list)@, *old_score), *new_score),
            ascending(final(score_list)@),
    {
        let index = lower_bound(score_list, *old_score);
        proof {
            lemma_with_score_ascending(score_list@, *old_score);
        }
        if index < score_list.len() && score_list[index] == *old_score {
            score_list.remove(index);
        }
        Pallet::score_list_insert(score_list, new_score);
    }

    /// Files a newly published score: the list takes it in, and the candidate
    /// that comes back is to be kept under the target.
    pub fn candidate_insert(
        score_list: &mut Vec<u64>,
        pathfinder: &AccountId,
        score: &u64,
        now: BlockNumber,
    ) -> (candidate: Candidate)
        requires
            ascending(old(score_list)@),
        ensures
            candidate == (Candidate {
                score: *score,
                pathfinder: *pathfinder,
                has_challenge: false,
                add_at: now,
            }),
            final(score_list)@ == with_score(old(score_list)@, *score),
            ascending(final(score_list)@),
    {
        Pallet::score_list_insert(score_list, score);
        Candidate { score: *score, pathfinder: *pathfinder, has_challenge: false, add_at: now }
    }
}

/// The highest `max_seed_count` scores of `s`, or all of them if they are fewer.
pub open spec fn highest(s: Seq<u64>, max_seed_count: u32) -> Seq<u64> {
    if s.len() > max_seed_count {
        s.skip(s.len() - max_seed_count)
    } else {
        s
    }
}

} // verus!
