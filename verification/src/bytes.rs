//! Byte strings: their dictionary order, and numbers written with the low
//! byte first.

use vstd::prelude::*;

verus! {

/// `a` comes before `b` in dictionary order: at the first place where the two
/// differ `a` holds the smaller byte, or `a` ends there and `b` goes on.
pub open spec fn lex_less(a: Seq<u8>, b: Seq<u8>) -> bool
    decreases a.len(),
{
    if b.len() == 0 {
        false
    } else if a.len() == 0 {
        true
    } else if a[0] != b[0] {
        a[0] < b[0]
    } else {
        lex_less(a.drop_first(), b.drop_first())
    }
}

/// No byte string comes before itself.
pub proof fn lemma_lex_irreflexive(a: Seq<u8>)
    ensures
        !lex_less(a, a),
    decreases a.len(),
{
    if a.len() > 0 {
        lemma_lex_irreflexive(a.drop_first());
    }
}

/// Dictionary order is transitive.
pub proof fn lemma_lex_transitive(a: Seq<u8>, b: Seq<u8>, c: Seq<u8>)
    requires
        lex_less(a, b),
        lex_less(b, c),
    ensures
        lex_less(a, c),
    decreases a.len(),
{
    if a.len() > 0 && a[0] == b[0] && b[0] == c[0] {
        lemma_lex_transitive(a.drop_first(), b.drop_first(), c.drop_first());
    }
}

/// Of two byte strings one comes before the other, or they are the same.
pub proof fn lemma_lex_total(a: Seq<u8>, b: Seq<u8>)
    ensures
        lex_less(a, b) || lex_less(b, a) || a == b,
        !(lex_less(a, b) && lex_less(b, a)),
    decreases a.len(),
{
    if a.len() == 0 || b.len() == 0 {
        if a.len() == 0 && b.len() == 0 {
            assert(a =~= b);
        }
    } else if a[0] == b[0] {
        lemma_lex_total(a.drop_first(), b.drop_first());
        if a.drop_first() == b.drop_first() {
            assert(a =~= seq![a[0]] + a.drop_first());
            assert(b =~= seq![b[0]] + b.drop_first());
        }
    }
}

/// Whether `a` comes before `b` in dictionary order.
pub fn lex_lt(a: &[u8], b: &[u8]) -> (less: bool)
    ensures
        less == lex_less(a@, b@),
{
    let mut i: usize = 0;
    proof {
        assert(a@.skip(0) =~= a@);
        assert(b@.skip(0) =~= b@);
    }
    while i < a.len() && i < b.len()
        invariant
            i <= a.len(),
            i <= b.len(),
            lex_less(a@, b@) == lex_less(a@.skip(i as int), b@.skip(i as int)),
        decreases a.len() - i,
    {
        let ghost ra = a@.skip(i as int);
        let ghost rb = b@.skip(i as int);
        proof {
            assert(ra.drop_first() =~= a@.skip(i + 1));
            assert(rb.drop_first() =~= b@.skip(i + 1));
            assert(ra[0] == a@[i as int]);
            assert(rb[0] == b@[i as int]);
        }
        if a[i] != b[i] {
            return a[i] < b[i];
        }
        i += 1;
    }
    i < b.len()
}

/// Whether `a` and `b` hold the same bytes.
pub fn bytes_eq(a: &[u8], b: &[u8]) -> (same: bool)
    ensures
        same == (a@ == b@),
{
    if a.len() != b.len() {
        return false;
    }
    let mut i: usize = 0;
    while i < a.len()
        invariant
            a.len() == b.len(),
            i <= a.len(),
            a@.take(i as int) == b@.take(i as int),
        decreases a.len() - i,
    {
        if a[i] != b[i] {
            return false;
        }
        proof {
            assert(a@.take(i + 1) =~= a@.take(i as int).push(a@[i as int]));
            assert(b@.take(i + 1) =~= b@.take(i as int).push(b@[i as int]));
        }
        i += 1;
    }
    proof {
        assert(a@ =~= a@.take(a.len() as int));
        assert(b@ =~= b@.take(b.len() as int));
    }
    true
}

/// 256 to the power `n`.
pub open spec fn exp256(n: nat) -> nat
    decreases n,
{
    if n == 0 {
        1
    } else {
        256 * exp256((n - 1) as nat)
    }
}

/// The number that `bytes` spell, low byte first.
pub open spec fn pack_le(bytes: Seq<u8>) -> nat
    decreases bytes.len(),
{
    if bytes.len() == 0 {
        0
    } else {
        bytes[0] as nat + 256 * pack_le(bytes.drop_first())
    }
}

/// The lowest `n` bytes of `x`, low byte first.
pub open spec fn unpack_le(x: nat, n: nat) -> Seq<u8>
    decreases n,
{
    if n == 0 {
        Seq::empty()
    } else {
        seq![(x % 256) as u8] + unpack_le(x / 256, (n - 1) as nat)
    }
}

/// Eight bytes reach exactly as far as a `u64`.
pub proof fn lemma_exp256_values()
    ensures
        exp256(0) == 1,
        exp256(1) == 0x100,
        exp256(2) == 0x1_0000,
        exp256(3) == 0x100_0000,
        exp256(4) == 0x1_0000_0000,
        exp256(5) == 0x100_0000_0000,
        exp256(6) == 0x1_0000_0000_0000,
        exp256(7) == 0x100_0000_0000_0000,
        exp256(8) == 0x1_0000_0000_0000_0000,
{
    reveal_with_fuel(exp256, 9);
}

/// `n` bytes spell a number below 256 to the `n`.
pub proof fn lemma_pack_le_bound(bytes: Seq<u8>)
    ensures
        pack_le(bytes) < exp256(bytes.len()),
    decreases bytes.len(),
{
    if bytes.len() > 0 {
        lemma_pack_le_bound(bytes.drop_first());
    }
}

/// `unpack_le(x, n)` has `n` bytes, and byte `i` of it is the byte of `x` at
/// place `i`.
pub proof fn lemma_unpack_le_len(x: nat, n: nat)
    ensures
        unpack_le(x, n).len() == n,
    decreases n,
{
    if n > 0 {
        lemma_unpack_le_len(x / 256, (n - 1) as nat);
    }
}

/// Writing a number out and reading it back gives the bytes one started from.
pub proof fn lemma_unpack_pack(bytes: Seq<u8>)
    ensures
        unpack_le(pack_le(bytes), bytes.len()) == bytes,
    decreases bytes.len(),
{
    if bytes.len() > 0 {
        let rest = bytes.drop_first();
        lemma_unpack_pack(rest);
        let x = pack_le(bytes);
        assert(x % 256 == bytes[0] as nat && x / 256 == pack_le(rest)) by {
            let b0 = bytes[0] as nat;
            let r = pack_le(rest);
            assert((b0 + 256 * r) % 256 == b0 && (b0 + 256 * r) / 256 == r) by (nonlinear_arith)
                requires
                    b0 < 256,
            ;
        }
        assert(unpack_le(x, bytes.len()) =~= bytes);
    } else {
        assert(unpack_le(pack_le(bytes), 0) =~= bytes);
    }
}

/// Reading the lowest `n` bytes of a number below 256 to the `n` and spelling
/// them again gives the number back.
pub proof fn lemma_pack_unpack(x: nat, n: nat)
    requires
        x < exp256(n),
    ensures
        pack_le(unpack_le(x, n)) == x,
    decreases n,
{
    if n > 0 {
        let s = unpack_le(x, n);
        let rest = unpack_le(x / 256, (n - 1) as nat);
        assert(x / 256 < exp256((n - 1) as nat)) by (nonlinear_arith)
            requires
                x < 256 * exp256((n - 1) as nat),
        ;
        lemma_pack_unpack(x / 256, (n - 1) as nat);
        assert(s.drop_first() =~= rest);
        assert(s[0] == (x % 256) as u8);
        assert((x % 256) + 256 * (x / 256) == x) by (nonlinear_arith);
    }
}

/// The first `m` of the lowest `n` bytes are the lowest `m` bytes.
pub proof fn lemma_unpack_le_prefix(x: nat, n: nat, m: nat)
    requires
        m <= n,
    ensures
        unpack_le(x, n).take(m as int) == unpack_le(x, m),
    decreases m,
{
    lemma_unpack_le_len(x, n);
    if m == 0 {
        assert(unpack_le(x, n).take(0) =~= unpack_le(x, 0));
    } else {
        lemma_unpack_le_prefix(x / 256, (n - 1) as nat, (m - 1) as nat);
        lemma_unpack_le_len(x / 256, (n - 1) as nat);
        let tail_n = unpack_le(x / 256, (n - 1) as nat);
        assert(unpack_le(x, n).take(m as int) =~= seq![(x % 256) as u8] + tail_n.take(m - 1));
    }
}

} // verus!
