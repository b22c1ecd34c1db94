use zd_challenges::refresh_seeds::{Event, Pallet};
use zd_challenges::score_list::{lower_bound, Candidate};

fn seeds(max_seed_count: u32) -> Pallet {
    Pallet { max_seed_count, confirmation_period: 5, challenge_perior: 100 }
}

#[test]
fn score_list_insert_keeps_the_list_ascending() {
    let mut list: Vec<u64> = vec![];
    Pallet::score_list_insert(&mut list, &5);
    Pallet::score_list_insert(&mut list, &1);
    Pallet::score_list_insert(&mut list, &9);
    Pallet::score_list_insert(&mut list, &5);
    Pallet::score_list_insert(&mut list, &0);
    Pallet::score_list_insert(&mut list, &u64::MAX);
    assert_eq!(list, vec![0, 1, 5, 5, 9, u64::MAX]);
}

#[test]
fn lower_bound_is_the_number_of_lower_scores() {
    let list = vec![1, 3, 3, 7];
    assert_eq!(lower_bound(&list, 0), 0);
    assert_eq!(lower_bound(&list, 1), 0);
    assert_eq!(lower_bound(&list, 2), 1);
    assert_eq!(lower_bound(&list, 3), 1);
    assert_eq!(lower_bound(&list, 4), 3);
    assert_eq!(lower_bound(&list, 7), 3);
    assert_eq!(lower_bound(&list, 8), 4);
}

#[test]
fn mutate_score_replaces_one_score() {
    let mut list = vec![1, 3, 3, 7];
    Pallet::mutate_score(&mut list, &3, &5);
    assert_eq!(list, vec![1, 3, 5, 7]);
    Pallet::mutate_score(&mut list, &7, &0);
    assert_eq!(list, vec![0, 1, 3, 5]);
}

#[test]
fn mutate_score_without_the_old_score_only_inserts() {
    let mut list = vec![1, 3, 7];
    Pallet::mutate_score(&mut list, &4, &2);
    assert_eq!(list, vec![1, 2, 3, 7]);
}

#[test]
fn candidate_insert_files_the_score() {
    let mut list = vec![10, 30];
    let candidate = Pallet::candidate_insert(&mut list, &4, &20, 77);
    assert_eq!(candidate, Candidate { score: 20, pathfinder: 4, has_challenge: false, add_at: 77 });
    assert_eq!(list, vec![10, 20, 30]);
}

#[test]
fn hand_first_time_keeps_the_highest_scores() {
    let mut list = vec![1, 2, 3, 4, 5];
    assert_eq!(seeds(3).hand_first_time(&mut list), Event::SeedsSelected(3));
    assert_eq!(list, vec![3, 4, 5]);
    assert_eq!(seeds(3).hand_first_time(&mut list), Event::SeedsSelected(3));
    assert_eq!(list, vec![3, 4, 5]);
    assert_eq!(seeds(10).hand_first_time(&mut list), Event::SeedsSelected(3));
    assert_eq!(list, vec![3, 4, 5]);
    assert_eq!(seeds(0).hand_first_time(&mut list), Event::SeedsSelected(0));
    assert_eq!(list, Vec::<u64>::new());
}
