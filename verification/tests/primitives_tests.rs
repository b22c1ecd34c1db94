use zd_challenges::primitives::{ChallengeStatus, CurrencyId, Metadata, Pool, Progress};

fn record() -> Metadata {
    Metadata {
        pool: Pool { staking: 7, earnings: 5 },
        joint_benefits: true,
        progress: Progress { total: 4, done: 2 },
        last_update: 10,
        remark: 3,
        score: 500,
        pathfinder: 1,
        status: ChallengeStatus::Reply,
        challenger: 2,
    }
}

#[test]
fn defaults() {
    assert_eq!(ChallengeStatus::default(), ChallengeStatus::Examine);
    let m = Metadata::default();
    assert_eq!(m.status, ChallengeStatus::Examine);
    assert_eq!(m.pool, Pool { staking: 0, earnings: 0 });
    assert_eq!(m.progress, Progress { total: 0, done: 0 });
    assert!(CurrencyId::ZDAO < CurrencyId::SOCI);
}

#[test]
fn total_amount_adds_staking_and_earnings() {
    let mut m = record();
    assert_eq!(m.total_amount(), Some(12));
    m.pool = Pool { staking: u128::MAX, earnings: 0 };
    assert_eq!(m.total_amount(), Some(u128::MAX));
    m.pool = Pool { staking: u128::MAX, earnings: 1 };
    assert_eq!(m.total_amount(), None);
}

#[test]
fn progress_helpers() {
    let mut m = record();
    assert!(!m.is_all_done());
    assert!(m.check_progress());
    m.next(2);
    assert!(m.is_all_done());
    m.next(1);
    assert!(!m.check_progress());
    m.next(u32::MAX);
    assert_eq!(m.progress.done, u32::MAX);
    m.new_progress(9);
    assert_eq!(m.progress, Progress { total: 9, done: 0 });
}

#[test]
fn roles_and_status() {
    let mut m = record();
    assert!(m.is_pathfinder(&1));
    assert!(!m.is_pathfinder(&2));
    assert!(m.is_challenger(&2));
    assert!(!m.is_challenger(&1));
    m.set_status(&ChallengeStatus::Arbitral);
    assert_eq!(m.status, ChallengeStatus::Arbitral);
    m.restart(false);
    assert_eq!(m.status, ChallengeStatus::Free);
    assert!(!m.joint_benefits);
    assert_eq!(m.pathfinder, 1);
    m.restart(true);
    assert_eq!(m.pathfinder, 2);
    assert_eq!(m.challenger, 2);
    assert_eq!(m.pool, Pool { staking: 7, earnings: 5 });
}
