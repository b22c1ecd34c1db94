//! The keys from the first level down to a cell, as bytes and as one number.

use crate::bytes::{
    exp256, lemma_exp256_values, lemma_pack_le_bound, lemma_unpack_le_prefix, lemma_unpack_pack,
    pack_le, unpack_le,
};
use crate::commitment::{DEEP, RANGE};
use vstd::prelude::*;

verus! {

/// The keys of the cells chosen from the first level down, one after the other.
#[derive(Debug, PartialEq, Eq)]
pub struct FullOrder(pub Vec<u8>);

impl View for FullOrder {
    type V = Seq<u8>;

    open spec fn view(&self) -> Seq<u8> {
        self.0@
    }
}

impl Default for FullOrder {
    fn default() -> (order: FullOrder)
        ensures
            order@ == Seq::<u8>::empty(),
    {
        FullOrder(Vec::new())
    }
}

impl FullOrder {
    /// The keys of the first `deep` levels that `from` holds, low byte first.
    pub fn from_u64(from: &u64, deep: usize) -> (order: FullOrder)
        requires
            deep <= DEEP,
        ensures
            order@ == unpack_le(*from as nat, (deep * RANGE) as nat),
            order@.len() == deep * RANGE,
    {
        let n = deep * RANGE;
        let mut bytes: Vec<u8> = Vec::new();
        let mut rest: u64 = *from;
        let mut i: usize = 0;
        while i < n
            invariant
                i <= n,
                bytes@.len() == i,
                unpack_le(*from as nat, n as nat) == bytes@ + unpack_le(rest as nat, (n - i) as nat),
            decreases n - i,
        {
            proof {
                assert(bytes@.push((rest % 256) as u8) + unpack_le((rest / 256) as nat, (n - i - 1) as nat)
                    =~= bytes@ + unpack_le(rest as nat, (n - i) as nat));
            }
            bytes.push((rest % 256) as u8);
            rest = rest / 256;
            i += 1;
        }
        proof {
            assert(bytes@ + unpack_le(rest as nat, 0) =~= bytes@);
        }
        FullOrder(bytes)
    }

    /// The number that the keys spell, low byte first.
    pub fn to_u64(&self) -> (packed: u64)
        requires
            self@.len() <= 8,
        ensures
            packed == pack_le(self@),
    {
        let n = self.0.len();
        let mut packed: u64 = 0;
        let mut i: usize = n;
        proof {
            assert(self@.skip(n as int) =~= Seq::<u8>::empty());
        }
        while i > 0
            invariant
                i <= n,
                n == self@.len(),
                n <= 8,
                packed == pack_le(self@.skip(i as int)),
            decreases i,
        {
            proof {
                let tail = self@.skip(i as int);
                let longer = self@.skip(i - 1);
                assert(longer.drop_first() =~= tail);
                assert(longer[0] == self@[i - 1]);
                lemma_pack_le_bound(longer);
                lemma_exp256_values();
                lemma_exp256_grows(longer.len(), 8);
            }
            packed = packed * 256 + self.0[i - 1] as u64;
            i -= 1;
        }
        proof {
            assert(self@.skip(0) =~= self@);
        }
        packed
    }

    /// The number that the keys spell, if they are few enough to fit one.
    pub fn try_to_u64(&self) -> (packed: Option<u64>)
        ensures
            self@.len() <= 8 ==> packed == Some(pack_le(self@) as u64),
            self@.len() <= 8 ==> pack_le(self@) <= u64::MAX,
            self@.len() > 8 ==> packed.is_none(),
    {
        if self.0.len() > 8 {
            None
        } else {
            Some(self.to_u64())
        }
    }

    /// Adds the key of the next level at the end.
    pub fn connect(&mut self, order: &[u8; RANGE])
        ensures
            final(self)@ == old(self)@ + order@,
    {
        let mut i: usize = 0;
        while i < RANGE
            invariant
                i <= RANGE,
                self@ == old(self)@ + order@.take(i as int),
            decreases RANGE - i,
        {
            proof {
                assert(order@.take(i + 1) =~= order@.take(i as int).push(order@[i as int]));
                assert((old(self)@ + order@.take(i as int)).push(order@[i as int]) =~= old(self)@
                    + order@.take(i + 1));
            }
            self.0.push(order[i]);
            i += 1;
        }
        proof {
            assert(order@.take(RANGE as int) =~= order@);
        }
    }
}

/// More bytes reach further.
pub proof fn lemma_exp256_grows(m: nat, n: nat)
    requires
        m <= n,
    ensures
        exp256(m) <= exp256(n),
    decreases n,
{
    if m < n {
        lemma_exp256_grows(m, (n - 1) as nat);
    }
}

/// Keys for `depth` levels, packed into a number and taken out of it again at
/// that depth, are the keys one started from.
pub proof fn lemma_full_order_round_trip(bytes: Seq<u8>, depth: nat)
    requires
        depth <= DEEP,
        bytes.len() == depth * RANGE,
    ensures
        pack_le(bytes) <= u64::MAX,
        unpack_le(pack_le(bytes), (depth * RANGE) as nat) == bytes,
{
    lemma_unpack_pack(bytes);
    lemma_pack_le_bound(bytes);
    lemma_exp256_grows(bytes.len(), 8);
    lemma_exp256_values();
}

/// Taken out at a lesser depth, packed keys give the keys of the first levels.
pub proof fn lemma_full_order_prefix(bytes: Seq<u8>, depth: nat, upper: nat)
    requires
        upper <= depth <= DEEP,
        bytes.len() == depth * RANGE,
    ensures
        unpack_le(pack_le(bytes), (upper * RANGE) as nat) == bytes.take((upper * RANGE) as int),
{
    lemma_unpack_pack(bytes);
    assert(upper * RANGE <= depth * RANGE) by (nonlinear_arith)
        requires
            upper <= depth,
    ;
    lemma_unpack_le_prefix(pack_le(bytes), bytes.len(), (upper * RANGE) as nat);
}

} // verus!
