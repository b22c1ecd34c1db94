//! The fingerprint of a path's two ends.

use crate::bytes::unpack_le;
use crate::commitment::RANGE;
use crate::primitives::AccountId;
use crate::refresh_seeds::Pallet;
use parity_scale_codec::Encode;
use sha1::{Digest, Sha1};
use vstd::prelude::*;

verus! {

/// The SHA-1 digest of `data`, as the `sha1` crate computes it.
pub uninterp spec fn sha1_digest(data: Seq<u8>) -> Seq<u8>;

/// The number of bytes in a SHA-1 digest.
pub const SHA1_LEN: usize = 20;

/// `Sha1::new`, `update` and `finalize` of the `sha1` crate: the digest of
/// `data`. The digest is a function of the data alone and has 20 bytes.
#[verifier::external_body]
fn sha1_raw(data: &[u8]) -> (digest: Vec<u8>)
    ensures
        digest@ == sha1_digest(data@),
        digest@.len() == SHA1_LEN,
{
    let mut hasher = Sha1::new();
    hasher.update(data);
    hasher.finalize().to_vec()
}

/// `Encode::encode` of `parity_scale_codec` on a `u64`: its eight bytes, the
/// low byte first.
#[verifier::external_body]
fn scale_encode(who: &AccountId) -> (bytes: Vec<u8>)
    ensures
        bytes@ == unpack_le(*who as nat, 8),
{
    who.encode()
}

/// The lower-case hexadecimal digit for a number below 16, as a character code.
pub open spec fn hex_digit(n: u8) -> u8 {
    if n < 10 {
        (n + 48) as u8
    } else {
        (n - 10 + 97) as u8
    }
}

/// `data` in lower-case hexadecimal: two digits for each byte, the high one first.
pub open spec fn hex_lower(data: Seq<u8>) -> Seq<u8> {
    Seq::new(
        2 * data.len(),
        |k: int|
            if k % 2 == 0 {
                hex_digit(data[k / 2] / 16)
            } else {
                hex_digit(data[k / 2] % 16)
            },
    )
}

/// Writes `data` in lower-case hexadecimal.
pub fn hex_encode(data: &[u8]) -> (text: Vec<u8>)
    ensures
        text@ == hex_lower(data@),
{
    let mut text: Vec<u8> = Vec::new();
    let mut i: usize = 0;
    while i < data.len()
        invariant
            i <= data.len(),
            text@.len() == 2 * i,
            forall|k: int| 0 <= k < 2 * i ==> text@[k] == hex_lower(data@)[k],
        decreases data.len() - i,
    {
        let n = data[i];
        let high = n / 16u8;
        let low = n % 16u8;
        text.push(if high < 10u8 { high + 48u8 } else { high - 10u8 + 97u8 });
        text.push(if low < 10u8 { low + 48u8 } else { low - 10u8 + 97u8 });
        i += 1;
    }
    proof {
        assert(text@ =~= hex_lower(data@));
    }
    text
}

/// The last `deep * RANGE` bytes of `points_hash`.
pub open spec fn order_tail(points_hash: Seq<u8>, deep: nat) -> Seq<u8> {
    points_hash.skip(points_hash.len() - deep * RANGE)
}

/// The hashed ends of a path: the digest, in hexadecimal, of the encoded
/// start followed by the encoded stop.
pub open spec fn points_hash(start: AccountId, stop: AccountId) -> Seq<u8> {
    hex_lower(sha1_digest(unpack_le(start as nat, 8) + unpack_le(stop as nat, 8)))
}

/// The fingerprint, at depth `deep`, of a path from `start` to `stop`.
pub open spec fn full_order_of(start: AccountId, stop: AccountId, deep: nat) -> Seq<u8> {
    order_tail(points_hash(start, stop), deep)
}

/// Cuts the fingerprint for depth `deep` out of the hashed ends of a path.
pub fn tail_order(points_hash: &[u8], deep: usize) -> (order: Vec<u8>)
    requires
        deep * RANGE <= points_hash@.len(),
    ensures
        order@ == order_tail(points_hash@, deep as nat),
        order@.len() == deep * RANGE,
{
    let index = points_hash.len() - deep * RANGE;
    let mut order: Vec<u8> = Vec::new();
    let mut i: usize = index;
    while i < points_hash.len()
        invariant
            index <= i <= points_hash.len(),
            index == points_hash@.len() - deep * RANGE,
            order@ == points_hash@.subrange(index as int, i as int),
        decreases points_hash.len() - i,
    {
        order.push(points_hash[i]);
        proof {
            assert(points_hash@.subrange(index as int, i + 1) =~= points_hash@.subrange(
                index as int,
                i as int,
            ).push(points_hash@[i as int]));
        }
        i += 1;
    }
    proof {
        assert(points_hash@.subrange(index as int, points_hash@.len() as int) =~= points_hash@.skip(
            index as int,
        ));
    }
    order
}

impl Pallet {
    /// The SHA-1 digest of `data`, in lower-case hexadecimal.
    // Collisions have no impact on safety.
    pub fn sha1_hasher(data: &[u8]) -> (text: Vec<u8>)
        ensures
            text@ == hex_lower(sha1_digest(data@)),
            text@.len() == 2 * SHA1_LEN,
    {
        let digest = sha1_raw(data);
        hex_encode(digest.as_slice())
    }

    /// Generate `full_order` with `start` as the start user and `stop` as the
    /// end user at depth `deep`.
    pub fn make_full_order(start: &AccountId, stop: &AccountId, deep: usize) -> (order: Vec<u8>)
        requires
            deep * RANGE <= 2 * SHA1_LEN,
        ensures
            order@ == full_order_of(*start, *stop, deep as nat),
            order@.len() == deep * RANGE,
    {
        let mut points = scale_encode(start);
        let mut stop_bytes = scale_encode(stop);
        points.append(&mut stop_bytes);
        let points_hash = Pallet::sha1_hasher(points.as_slice());
        tail_order(points_hash.as_slice(), deep)
    }
}

} // verus!
