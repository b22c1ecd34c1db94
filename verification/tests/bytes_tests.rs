use zd_challenges::bytes::{bytes_eq, lex_lt};
use zd_challenges::commitment::{DEEP, RANGE};
use zd_challenges::full_order::FullOrder;

#[test]
fn lex_lt_orders_like_a_dictionary() {
    assert!(lex_lt(&[1, 2], &[1, 3]));
    assert!(!lex_lt(&[1, 3], &[1, 2]));
    assert!(lex_lt(&[0, 255], &[1, 0]));
    assert!(!lex_lt(&[1, 2], &[1, 2]));
    assert!(lex_lt(&[1], &[1, 0]));
    assert!(!lex_lt(&[1, 0], &[1]));
    assert!(lex_lt(&[], &[0]));
    assert!(!lex_lt(&[], &[]));
    assert!(!lex_lt(&[0], &[]));
}

#[test]
fn bytes_eq_compares_all_bytes() {
    assert!(bytes_eq(&[], &[]));
    assert!(bytes_eq(&[1, 2, 3], &[1, 2, 3]));
    assert!(!bytes_eq(&[1, 2, 3], &[1, 2, 4]));
    assert!(!bytes_eq(&[1, 2], &[1, 2, 3]));
}

#[test]
fn constants_fit_one_number() {
    assert_eq!(DEEP, 4);
    assert_eq!(RANGE, 2);
    assert!(DEEP as usize * RANGE <= 8);
}

#[test]
fn from_u64_takes_the_low_bytes_first() {
    let x: u64 = 0x0807_0605_0403_0201;
    assert_eq!(FullOrder::from_u64(&x, 0).0, Vec::<u8>::new());
    assert_eq!(FullOrder::from_u64(&x, 1).0, vec![1, 2]);
    assert_eq!(FullOrder::from_u64(&x, 2).0, vec![1, 2, 3, 4]);
    assert_eq!(FullOrder::from_u64(&x, 3).0, vec![1, 2, 3, 4, 5, 6]);
    assert_eq!(FullOrder::from_u64(&x, 4).0, vec![1, 2, 3, 4, 5, 6, 7, 8]);
    assert_eq!(FullOrder::from_u64(&500, 1).0, vec![244, 1]);
}

#[test]
fn to_u64_spells_the_number() {
    assert_eq!(FullOrder(vec![]).to_u64(), 0);
    assert_eq!(FullOrder(vec![1]).to_u64(), 1);
    assert_eq!(FullOrder(vec![0, 1]).to_u64(), 256);
    assert_eq!(FullOrder(vec![1, 2, 3, 4]).to_u64(), 0x0403_0201);
    assert_eq!(FullOrder(vec![255; 8]).to_u64(), u64::MAX);
    assert_eq!(FullOrder(vec![1, 2, 3, 4, 5, 6, 7, 8]).try_to_u64(), Some(0x0807_0605_0403_0201));
    assert_eq!(FullOrder(vec![0; 9]).try_to_u64(), None);
}

#[test]
fn full_order_round_trip() {
    let cases: Vec<Vec<u8>> = vec![
        vec![],
        vec![0, 0],
        vec![7, 0],
        vec![0, 9],
        vec![255, 255, 0, 1],
        vec![1, 2, 3, 4, 5, 6],
        vec![0, 0, 0, 0, 0, 0, 0, 0],
        vec![9, 8, 7, 6, 5, 4, 3, 255],
    ];
    for bytes in cases {
        let depth = bytes.len() / RANGE;
        let packed = FullOrder(bytes.clone()).to_u64();
        assert_eq!(FullOrder::from_u64(&packed, depth).0, bytes);
    }
}

#[test]
fn from_u64_at_a_lesser_depth_gives_the_upper_keys() {
    let bytes = vec![10, 11, 12, 13, 14, 15];
    let packed = FullOrder(bytes.clone()).to_u64();
    assert_eq!(FullOrder::from_u64(&packed, 1).0, vec![10, 11]);
    assert_eq!(FullOrder::from_u64(&packed, 2).0, vec![10, 11, 12, 13]);
}

#[test]
fn connect_adds_a_key_at_the_end() {
    let mut order = FullOrder::default();
    assert_eq!(order.0, Vec::<u8>::new());
    order.connect(&[3, 4]);
    assert_eq!(order.0, vec![3, 4]);
    order.connect(&[0, 9]);
    assert_eq!(order.0, vec![3, 4, 0, 9]);
}
