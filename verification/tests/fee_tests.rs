use zd_challenges::fee::{SweeperFee, SWEEPER_PERIOD};
use zd_challenges::primitives::{appro_ln, Balance};

#[test]
fn with_fee_takes_two_percent_rounded_down() {
    let amount: Balance = 1_000;
    assert_eq!(amount.with_fee(), (20, 980));
    let odd: Balance = 99;
    assert_eq!(odd.with_fee(), (1, 98));
    let small: Balance = 49;
    assert_eq!(small.with_fee(), (0, 49));
    let large: Balance = u128::MAX;
    let (fee, rest) = large.with_fee();
    assert_eq!(fee, u128::MAX / 50);
    assert_eq!(fee + rest, u128::MAX);
}

#[test]
fn sweeper_waits_for_more_than_the_period() {
    assert!(!<Balance as SweeperFee>::is_allowed_sweeper(0, SWEEPER_PERIOD));
    assert!(<Balance as SweeperFee>::is_allowed_sweeper(0, SWEEPER_PERIOD + 1));
    assert!(!<Balance as SweeperFee>::is_allowed_sweeper(u64::MAX, u64::MAX));
    assert!(!<Balance as SweeperFee>::is_allowed_sweeper(100, 600));
    assert!(<Balance as SweeperFee>::is_allowed_sweeper(100, 601));
}

#[test]
fn checked_with_fee_is_none_too_soon() {
    let amount: Balance = 500;
    assert_eq!(amount.checked_with_fee(10, 510), None);
    assert_eq!(amount.checked_with_fee(10, 511), Some((10, 490)));
}

#[test]
fn appro_ln_steps() {
    assert_eq!(appro_ln(0), 1);
    assert_eq!(appro_ln(2), 1);
    assert_eq!(appro_ln(3), 2);
    assert_eq!(appro_ln(7), 2);
    assert_eq!(appro_ln(8), 3);
    assert_eq!(appro_ln(20), 3);
    assert_eq!(appro_ln(21), 4);
    assert_eq!(appro_ln(54), 4);
    assert_eq!(appro_ln(55), 5);
    assert_eq!(appro_ln(148), 5);
    assert_eq!(appro_ln(149), 6);
    assert_eq!(appro_ln(403), 6);
    assert_eq!(appro_ln(404), 7);
    assert_eq!(appro_ln(1096), 7);
    assert_eq!(appro_ln(1097), 8);
    assert_eq!(appro_ln(u32::MAX), 8);
}
