//! Commitment levels: cells of partial results, kept in the order of their keys.

use crate::bytes::{
    bytes_eq, lemma_lex_irreflexive, lemma_lex_total, lemma_lex_transitive, lex_less, lex_lt,
};
use vstd::prelude::*;

verus! {

/// The greatest number of levels that a pathfinder may commit to.
pub const DEEP: u8 = 4;

/// The number of bytes in the key of one level.
pub const RANGE: usize = 2;

/// One cell of a commitment level.
#[derive(Debug, Clone, Copy, PartialEq, Eq)]
pub struct ResultHash {
    /// The key that the cell is filed under.
    pub order: [u8; RANGE],
    /// The part of the score that the cell accounts for.
    pub score: u64,
    /// The fingerprint of what lies below the cell.
    pub hash: [u8; 8],
}

/// A cell as a pathfinder posts it: key, score, fingerprint.
#[derive(Debug, Clone, Copy, PartialEq, Eq)]
pub struct PostResultHash(pub [u8; RANGE], pub u64, pub [u8; 8]);

impl PostResultHash {
    /// The cell that was posted.
    pub fn to_result_hash(&self) -> (cell: ResultHash)
        ensures
            cell.order == self.0,
            cell.score == self.1,
            cell.hash == self.2,
    {
        ResultHash { order: self.0, score: self.1, hash: self.2 }
    }
}

/// The cells stand in the strict dictionary order of their keys.
pub open spec fn strictly_ordered(s: Seq<ResultHash>) -> bool {
    forall|i: int, j: int| 0 <= i < j < s.len() ==> lex_less(#[trigger] s[i].order@, #[trigger] s[j].order@)
}

/// Some cell of `s` is filed under `key`.
pub open spec fn holds_order(s: Seq<ResultHash>, key: Seq<u8>) -> bool {
    exists|i: int| 0 <= i < s.len() && #[trigger] s[i].order@ == key
}

/// No two cells of `s` share a key.
pub open spec fn distinct_orders(s: Seq<ResultHash>) -> bool {
    forall|i: int, j: int| 0 <= i < j < s.len() ==> #[trigger] s[i].order@ != #[trigger] s[j].order@
}

/// The number of cells of `s` whose key comes before `key`.
pub open spec fn rank(s: Seq<ResultHash>, key: Seq<u8>) -> nat
    decreases s.len(),
{
    if s.len() == 0 {
        0
    } else {
        rank(s.drop_last(), key) + if lex_less(s.last().order@, key) {
            1nat
        } else {
            0nat
        }
    }
}

/// `s` with `cell` filed in its place; `s` itself where the key is taken.
pub open spec fn insert_cell(s: Seq<ResultHash>, cell: ResultHash) -> Seq<ResultHash> {
    if holds_order(s, cell.order@) {
        s
    } else {
        s.insert(rank(s, cell.order@) as int, cell)
    }
}

/// The cells of `v` filed one after the other, from the first on.
pub open spec fn collect(v: Seq<ResultHash>) -> Seq<ResultHash>
    decreases v.len(),
{
    if v.len() == 0 {
        Seq::empty()
    } else {
        insert_cell(collect(v.drop_last()), v.last())
    }
}

/// In an ordered level no two cells share a key.
pub proof fn lemma_ordered_is_distinct(s: Seq<ResultHash>)
    requires
        strictly_ordered(s),
    ensures
        distinct_orders(s),
{
    assert forall|i: int, j: int| 0 <= i < j < s.len() implies #[trigger] s[i].order@
        != #[trigger] s[j].order@ by {
        lemma_lex_irreflexive(s[i].order@);
    }
}

/// A rank is at most the number of cells.
pub proof fn lemma_rank_bound(s: Seq<ResultHash>, key: Seq<u8>)
    ensures
        rank(s, key) <= s.len(),
    decreases s.len(),
{
    if s.len() > 0 {
        lemma_rank_bound(s.drop_last(), key);
    }
}

/// In an ordered level the cells before the rank of a key are exactly those
/// whose key comes before it.
pub proof fn lemma_rank_splits(s: Seq<ResultHash>, key: Seq<u8>)
    requires
        strictly_ordered(s),
    ensures
        forall|j: int| 0 <= j < s.len() ==> (j < rank(s, key) <==> lex_less(#[trigger] s[j].order@, key)),
    decreases s.len(),
{
    if s.len() > 0 {
        let front = s.drop_last();
        lemma_rank_splits(front, key);
        lemma_rank_bound(front, key);
        let n = s.len() - 1;
        assert forall|j: int| 0 <= j < n implies front[j] == s[j] by {}
        if lex_less(s.last().order@, key) {
            assert forall|j: int| 0 <= j < n implies lex_less(#[trigger] s[j].order@, key) by {
                lemma_lex_transitive(s[j].order@, s[n].order@, key);
            }
            if n > 0 {
                assert(front[n - 1] == s[n - 1]);
                assert(lex_less(front[n - 1].order@, key));
            }
            assert(rank(front, key) == n);
        }
    }
}

/// Filing a cell in an ordered level leaves the level ordered.
pub proof fn lemma_insert_cell_ordered(s: Seq<ResultHash>, cell: ResultHash)
    requires
        strictly_ordered(s),
    ensures
        strictly_ordered(insert_cell(s, cell)),
{
    let key = cell.order@;
    if !holds_order(s, key) {
        let r = rank(s, key) as int;
        lemma_rank_bound(s, key);
        lemma_rank_splits(s, key);
        let t = s.insert(r, cell);
        assert forall|i: int, j: int| 0 <= i < j < t.len() implies lex_less(
            #[trigger] t[i].order@,
            #[trigger] t[j].order@,
        ) by {
            if j < r {
                assert(t[i] == s[i] && t[j] == s[j]);
            } else if j == r {
                assert(t[i] == s[i]);
                assert(lex_less(s[i].order@, key));
            } else if i < r {
                assert(t[i] == s[i] && t[j] == s[j - 1]);
            } else if i == r {
                assert(t[j] == s[j - 1]);
                assert(!lex_less(s[j - 1].order@, key));
                assert(s[j - 1].order@ != key);
                lemma_lex_total(s[j - 1].order@, key);
            } else {
                assert(t[i] == s[i - 1] && t[j] == s[j - 1]);
            }
        }
    }
}

/// Filing a cell a second time changes nothing.
pub proof fn lemma_insert_cell_idempotent(s: Seq<ResultHash>, cell: ResultHash)
    ensures
        insert_cell(insert_cell(s, cell), cell) == insert_cell(s, cell),
{
    let key = cell.order@;
    if !holds_order(s, key) {
        let r = rank(s, key) as int;
        lemma_rank_bound(s, key);
        let t = s.insert(r, cell);
        assert(t[r].order@ == key);
    }
}

/// After filing `cell`, the keys of the level are those it had and the key of `cell`.
pub proof fn lemma_insert_cell_orders(s: Seq<ResultHash>, cell: ResultHash, key: Seq<u8>)
    ensures
        holds_order(insert_cell(s, cell), key) <==> holds_order(s, key) || key == cell.order@,
        insert_cell(s, cell).len() == s.len() + if holds_order(s, cell.order@) {
            0int
        } else {
            1int
        },
{
    if !holds_order(s, cell.order@) {
        let r = rank(s, cell.order@) as int;
        lemma_rank_bound(s, cell.order@);
        let t = s.insert(r, cell);
        if holds_order(s, key) {
            let i = choose|i: int| 0 <= i < s.len() && #[trigger] s[i].order@ == key;
            if i < r {
                assert(t[i].order@ == key);
            } else {
                assert(t[i + 1].order@ == key);
            }
        }
        if key == cell.order@ {
            assert(t[r].order@ == key);
        }
        if holds_order(t, key) {
            let i = choose|i: int| 0 <= i < t.len() && #[trigger] t[i].order@ == key;
            if i < r {
                assert(s[i].order@ == key);
            } else if i > r {
                assert(s[i - 1].order@ == key);
            }
        }
    }
}

/// Filing cells one after the other gives an ordered level that holds the
/// keys of the cells and no others, and has as many cells as were given
/// exactly when no two of those share a key.
pub proof fn lemma_collect(v: Seq<ResultHash>)
    ensures
        strictly_ordered(collect(v)),
        forall|key: Seq<u8>| holds_order(collect(v), key) <==> holds_order(v, key),
        collect(v).len() <= v.len(),
        collect(v).len() == v.len() <==> distinct_orders(v),
    decreases v.len(),
{
    if v.len() > 0 {
        let front = v.drop_last();
        let cell = v.last();
        let n = v.len() - 1;
        lemma_collect(front);
        let s = collect(front);
        lemma_insert_cell_ordered(s, cell);
        assert forall|key: Seq<u8>| holds_order(collect(v), key) <==> holds_order(v, key) by {
            lemma_insert_cell_orders(s, cell, key);
            if holds_order(front, key) {
                let i = choose|i: int| 0 <= i < front.len() && #[trigger] front[i].order@ == key;
                assert(v[i].order@ == key);
            }
            if key == cell.order@ {
                assert(v[n].order@ == key);
            }
            if holds_order(v, key) {
                let i = choose|i: int| 0 <= i < v.len() && #[trigger] v[i].order@ == key;
                if i < n {
                    assert(front[i].order@ == key);
                }
            }
        }
        lemma_insert_cell_orders(s, cell, cell.order@);
        assert(holds_order(s, cell.order@) <==> holds_order(front, cell.order@));
        if distinct_orders(v) {
            assert forall|i: int, j: int| 0 <= i < j < front.len() implies #[trigger] front[i].order@
                != #[trigger] front[j].order@ by {
                assert(front[i] == v[i] && front[j] == v[j]);
            }
            if holds_order(front, cell.order@) {
                let i = choose|i: int| 0 <= i < front.len() && #[trigger] front[i].order@ == cell.order@;
                assert(v[i].order@ == v[n].order@);
            }
        }
        if distinct_orders(front) && !holds_order(front, cell.order@) {
            assert forall|i: int, j: int| 0 <= i < j < v.len() implies #[trigger] v[i].order@
                != #[trigger] v[j].order@ by {
                assert(front[i] == v[i]);
                if j < n {
                    assert(front[j] == v[j]);
                }
            }
        }
    }
}

/// A level of commitment: cells in the strict dictionary order of their keys.
#[derive(Debug, PartialEq, Eq)]
pub struct OrderedSet(pub Vec<ResultHash>);

impl View for OrderedSet {
    type V = Seq<ResultHash>;

    open spec fn view(&self) -> Seq<ResultHash> {
        self.0@
    }
}

impl Clone for OrderedSet {
    fn clone(&self) -> (copy: OrderedSet)
        ensures
            copy@ == self@,
    {
        let mut cells: Vec<ResultHash> = Vec::new();
        let mut i: usize = 0;
        while i < self.0.len()
            invariant
                i <= self.0.len(),
                cells@ == self.0@.take(i as int),
            decreases self.0.len() - i,
        {
            cells.push(self.0[i]);
            proof {
                assert(self.0@.take(i + 1) =~= self.0@.take(i as int).push(self.0@[i as int]));
            }
            i += 1;
        }
        proof {
            assert(self.0@.take(self.0.len() as int) =~= self.0@);
        }
        OrderedSet(cells)
    }
}

impl OrderedSet {
    /// The cells stand in the strict order of their keys, so no key occurs twice.
    pub open spec fn wf(&self) -> bool {
        strictly_ordered(self@)
    }

    /// A level without cells.
    pub fn new() -> (set: OrderedSet)
        ensures
            set@ == Seq::<ResultHash>::empty(),
            set.wf(),
    {
        OrderedSet(Vec::new())
    }

    /// The level that comes of filing the cells of `v` one after the other.
    /// Of two cells with one key the earlier stays.
    pub fn from(v: Vec<ResultHash>) -> (set: OrderedSet)
        ensures
            set@ == collect(v@),
            set.wf(),
            set@.len() <= v@.len(),
            set@.len() == v@.len() <==> distinct_orders(v@),
    {
        let mut set = OrderedSet::new();
        let mut i: usize = 0;
        while i < v.len()
            invariant
                i <= v.len(),
                set.wf(),
                set@ == collect(v@.take(i as int)),
            decreases v.len() - i,
        {
            proof {
                assert(v@.take(i + 1).drop_last() =~= v@.take(i as int));
                assert(v@.take(i + 1).last() == v@[i as int]);
            }
            set.insert(v[i]);
            i += 1;
        }
        proof {
            assert(v@.take(v.len() as int) =~= v@);
            lemma_collect(v@);
        }
        set
    }

    /// The number of cells.
    pub fn len(&self) -> (n: usize)
        ensures
            n == self@.len(),
    {
        self.0.len()
    }

    /// Whether the level has no cell.
    pub fn is_empty(&self) -> (empty: bool)
        ensures
            empty == (self@.len() == 0),
    {
        self.0.len() == 0
    }

    /// The place at which a cell with key `order` stands or would be filed:
    /// the number of cells whose key comes before it.
    pub fn position(&self, order: &[u8; RANGE]) -> (at: usize)
        requires
            self.wf(),
        ensures
            at == rank(self@, order@),
            at <= self@.len(),
            holds_order(self@, order@) <==> at < self@.len() && self@[at as int].order@ == order@,
    {
        let mut lo: usize = 0;
        let mut hi: usize = self.0.len();
        while lo < hi
            invariant
                self.wf(),
                lo <= hi <= self@.len(),
                forall|j: int| 0 <= j < lo ==> lex_less(#[trigger] self@[j].order@, order@),
                forall|j: int| hi <= j < self@.len() ==> !lex_less(#[trigger] self@[j].order@, order@),
            decreases hi - lo,
        {
            let mid = lo + (hi - lo) / 2;
            if lex_lt(&self.0[mid].order, order) {
                proof {
                    assert forall|j: int| 0 <= j < mid + 1 implies lex_less(
                        #[trigger] self@[j].order@,
                        order@,
                    ) by {
                        if j < mid {
                            lemma_lex_transitive(self@[j].order@, self@[mid as int].order@, order@);
                        }
                    }
                }
                lo = mid + 1;
            } else {
                proof {
                    assert forall|j: int| mid <= j < self@.len() implies !lex_less(
                        #[trigger] self@[j].order@,
                        order@,
                    ) by {
                        if j > mid && lex_less(self@[j].order@, order@) {
                            lemma_lex_transitive(self@[mid as int].order@, self@[j].order@, order@);
                        }
                    }
                }
                hi = mid;
            }
        }
        proof {
            let s = self@;
            let key = order@;
            lemma_rank_splits(s, key);
            lemma_rank_bound(s, key);
            let r = rank(s, key) as int;
            if lo > 0 {
                assert(lex_less(s[lo - 1].order@, key));
            }
            if lo < s.len() {
                assert(!lex_less(s[lo as int].order@, key));
            }
            assert(r == lo);
            if holds_order(s, key) {
                let i = choose|i: int| 0 <= i < s.len() && #[trigger] s[i].order@ == key;
                lemma_lex_irreflexive(key);
                if i > lo {
                    assert(lex_less(s[lo as int].order@, s[i].order@));
                }
                assert(i == lo);
            }
        }
        lo
    }

    /// Whether some cell is filed under `order`.
    pub fn contains(&self, order: &[u8; RANGE]) -> (found: bool)
        requires
            self.wf(),
        ensures
            found == holds_order(self@, order@),
    {
        let at = self.position(order);
        at < self.0.len() && bytes_eq(&self.0[at].order, order)
    }

    /// Files `value` in its place unless a cell with its key is there already;
    /// says whether it was filed.
    pub fn insert(&mut self, value: ResultHash) -> (inserted: bool)
        requires
            old(self).wf(),
        ensures
            final(self).wf(),
            final(self)@ == insert_cell(old(self)@, value),
            inserted == !holds_order(old(self)@, value.order@),
    {
        let at = self.position(&value.order);
        proof {
            lemma_insert_cell_ordered(self@, value);
        }
        if at < self.0.len() && bytes_eq(&self.0[at].order, &value.order) {
            false
        } else {
            self.0.insert(at, value);
            true
        }
    }
}

/// Filing a cell twice in a level is the same as filing it once, and the
/// level stays in the strict order of its keys.
pub proof fn lemma_insert_idempotent_and_ordered(s: Seq<ResultHash>, cell: ResultHash)
    requires
        strictly_ordered(s),
    ensures
        strictly_ordered(insert_cell(s, cell)),
        insert_cell(insert_cell(s, cell), cell) == insert_cell(s, cell),
        holds_order(insert_cell(s, cell), cell.order@),
{
    lemma_insert_cell_ordered(s, cell);
    lemma_insert_cell_idempotent(s, cell);
    lemma_insert_cell_orders(s, cell, cell.order@);
}

} // verus!
