use zd_challenges::commitment::{OrderedSet, PostResultHash, ResultHash};

fn cell(a: u8, b: u8, score: u64) -> ResultHash {
    ResultHash { order: [a, b], score, hash: [0; 8] }
}

#[test]
fn to_result_hash_keeps_the_fields() {
    let post = PostResultHash([1, 2], 77, [1, 2, 3, 4, 5, 6, 7, 8]);
    assert_eq!(
        post.to_result_hash(),
        ResultHash { order: [1, 2], score: 77, hash: [1, 2, 3, 4, 5, 6, 7, 8] }
    );
}

#[test]
fn from_sorts_by_key() {
    let set = OrderedSet::from(vec![cell(2, 0, 1), cell(0, 9, 2), cell(1, 1, 3), cell(0, 1, 4)]);
    assert_eq!(set.0, vec![cell(0, 1, 4), cell(0, 9, 2), cell(1, 1, 3), cell(2, 0, 1)]);
    assert_eq!(set.len(), 4);
    assert!(!set.is_empty());
}

#[test]
fn from_keeps_the_first_of_two_cells_with_one_key() {
    let set = OrderedSet::from(vec![cell(5, 5, 1), cell(1, 1, 2), cell(5, 5, 3)]);
    assert_eq!(set.0, vec![cell(1, 1, 2), cell(5, 5, 1)]);
    assert_eq!(set.len(), 2);
}

#[test]
fn from_nothing_is_empty() {
    let set = OrderedSet::from(vec![]);
    assert!(set.is_empty());
    assert_eq!(set.len(), 0);
    assert_eq!(OrderedSet::new().0, Vec::<ResultHash>::new());
}

#[test]
fn insert_is_idempotent_and_keeps_the_order() {
    let mut set = OrderedSet::new();
    assert!(set.insert(cell(3, 0, 10)));
    assert!(set.insert(cell(1, 0, 20)));
    assert!(set.insert(cell(2, 0, 30)));
    assert!(set.insert(cell(0, 255, 40)));
    assert!(set.insert(cell(3, 1, 50)));
    let once = set.clone();
    assert_eq!(
        once.0,
        vec![cell(0, 255, 40), cell(1, 0, 20), cell(2, 0, 30), cell(3, 0, 10), cell(3, 1, 50)]
    );
    assert!(!set.insert(cell(2, 0, 30)));
    assert_eq!(set, once);
    assert!(!set.insert(cell(2, 0, 999)));
    assert_eq!(set, once);
}

#[test]
fn contains_and_position() {
    let set = OrderedSet::from(vec![cell(1, 0, 1), cell(3, 0, 2), cell(5, 0, 3)]);
    assert!(set.contains(&[1, 0]));
    assert!(set.contains(&[5, 0]));
    assert!(!set.contains(&[2, 0]));
    assert!(!set.contains(&[1, 1]));
    assert_eq!(set.position(&[0, 0]), 0);
    assert_eq!(set.position(&[1, 0]), 0);
    assert_eq!(set.position(&[1, 1]), 1);
    assert_eq!(set.position(&[3, 0]), 1);
    assert_eq!(set.position(&[4, 0]), 2);
    assert_eq!(set.position(&[5, 0]), 2);
    assert_eq!(set.position(&[5, 1]), 3);
    assert_eq!(OrderedSet::new().position(&[5, 1]), 0);
}
