use zd_challenges::hashing::{hex_encode, tail_order};
use zd_challenges::refresh_seeds::Pallet;

#[test]
fn hex_encode_writes_two_lower_case_digits_a_byte() {
    assert_eq!(hex_encode(&[]), Vec::<u8>::new());
    assert_eq!(hex_encode(&[0x00]), b"00".to_vec());
    assert_eq!(hex_encode(&[0x09, 0x0a, 0xa0, 0xff]), b"090aa0ff".to_vec());
    assert_eq!(hex_encode(&[0x12, 0xef, 0xcd]), b"12efcd".to_vec());
}

#[test]
fn sha1_hasher_gives_the_digest_in_hex() {
    assert_eq!(Pallet::sha1_hasher(b"hello world"), b"2aae6c35c94fcfb415dbe95f408b9ce91ee846ed".to_vec());
    assert_eq!(Pallet::sha1_hasher(b""), b"da39a3ee5e6b4b0d3255bfef95601890afd80709".to_vec());
    assert_eq!(Pallet::sha1_hasher(b"x").len(), 40);
}

#[test]
fn tail_order_cuts_from_the_end() {
    let hash = b"0123456789".to_vec();
    assert_eq!(tail_order(&hash, 0), Vec::<u8>::new());
    assert_eq!(tail_order(&hash, 1), b"89".to_vec());
    assert_eq!(tail_order(&hash, 3), b"456789".to_vec());
    assert_eq!(tail_order(&hash, 5), hash);
}

#[test]
fn make_full_order_hashes_the_encoded_ends() {
    // sha1 of the 16 bytes 01 00.. 02 00.. is bfc7e924eea68b337b7599cc5e3dcbda910e662d
    assert_eq!(Pallet::make_full_order(&1, &2, 0), Vec::<u8>::new());
    assert_eq!(Pallet::make_full_order(&1, &2, 1), b"2d".to_vec());
    assert_eq!(Pallet::make_full_order(&1, &2, 2), b"662d".to_vec());
    assert_eq!(Pallet::make_full_order(&1, &2, 3), b"0e662d".to_vec());
    assert_eq!(
        Pallet::make_full_order(&1, &2, 20),
        b"bfc7e924eea68b337b7599cc5e3dcbda910e662d".to_vec()
    );
    // the order of the two ends matters
    assert_eq!(Pallet::make_full_order(&2, &1, 2), b"f944".to_vec());
    assert_eq!(Pallet::make_full_order(&10, &20, 3), b"6a1d72".to_vec());
}
