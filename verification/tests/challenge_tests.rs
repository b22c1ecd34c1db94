use zd_challenges::challenges::{
    arbitral, check_arbitral, check_evidence, checked_sweeper_fee, get_new_progress, harvest, new,
    new_evidence, next, question, reply, Error, Event, Metadata, Payout, Pool, Progress, Status,
    MAX_UPDATE_COUNT,
};

const PERIOD: u64 = 100;
const PATHFINDER: u64 = 1;
const CHALLENGER: u64 = 2;
const SWEEPER: u64 = 77;
const TARGET: u64 = 9;

fn record(status: Status) -> Metadata {
    Metadata {
        pool: Pool { staking: 400, sub_staking: 0, earnings: 100 },
        beneficiary: PATHFINDER,
        joint_benefits: false,
        progress: Progress { owner: PATHFINDER, total: 0, done: 0 },
        last_update: 1000,
        remark: 0,
        score: 500,
        pathfinder: PATHFINDER,
        status,
        challenger: CHALLENGER,
    }
}

#[test]
fn default_record_is_blank_and_waits_for_the_pathfinder() {
    let m = Metadata::default();
    assert_eq!(m.status, Status::EXAMINE);
    assert_eq!(Status::default(), Status::EXAMINE);
    assert_eq!(m.pool, Pool { staking: 0, sub_staking: 0, earnings: 0 });
    assert_eq!(m.progress, Progress { owner: 0, total: 0, done: 0 });
    assert_eq!(m.total_amount(), Some(0));
    assert!(m.is_all_done());
}

#[test]
fn total_amount_adds_the_three_parts() {
    let mut m = record(Status::FREE);
    m.pool = Pool { staking: 1, sub_staking: 20, earnings: 300 };
    assert_eq!(m.total_amount(), Some(321));
    m.pool = Pool { staking: u128::MAX, sub_staking: 0, earnings: 0 };
    assert_eq!(m.total_amount(), Some(u128::MAX));
    m.pool = Pool { staking: u128::MAX, sub_staking: 1, earnings: 0 };
    assert_eq!(m.total_amount(), None);
    m.pool = Pool { staking: u128::MAX - 1, sub_staking: 1, earnings: 1 };
    assert_eq!(m.total_amount(), None);
}

#[test]
fn record_helpers() {
    let mut m = record(Status::EXAMINE);
    assert!(m.is_pathfinder(&PATHFINDER));
    assert!(!m.is_pathfinder(&CHALLENGER));
    assert!(m.is_challenger(&CHALLENGER));
    assert!(!m.is_challenger(&SWEEPER));
    assert!(!m.is_allowed_evidence(1100, PERIOD));
    assert!(m.is_allowed_evidence(1101, PERIOD));
    assert!(!m.is_allowed_evidence(0, u64::MAX));
    m.new_progress(5);
    assert_eq!(m.progress, Progress { owner: PATHFINDER, total: 5, done: 0 });
    assert!(m.check_progress());
    m.next(3, CHALLENGER);
    assert_eq!(m.progress.done, 3);
    assert_eq!(m.beneficiary, PATHFINDER);
    assert!(!m.is_all_done());
    m.next(2, CHALLENGER);
    assert!(m.is_all_done());
    assert_eq!(m.beneficiary, CHALLENGER);
    m.next(u32::MAX, SWEEPER);
    assert_eq!(m.progress.done, u32::MAX);
    assert!(!m.check_progress());
    m.set_status(&Status::ARBITRATION);
    assert_eq!(m.status, Status::ARBITRATION);
}

#[test]
fn restart_hands_the_place_over_only_on_full_proof() {
    let mut m = record(Status::ARBITRATION);
    m.joint_benefits = true;
    m.restart(false);
    assert_eq!(m.status, Status::FREE);
    assert!(!m.joint_benefits);
    assert_eq!(m.pathfinder, PATHFINDER);
    assert_eq!(m.challenger, CHALLENGER);
    m.restart(true);
    assert_eq!(m.pathfinder, CHALLENGER);
    assert_eq!(m.challenger, CHALLENGER);
}

#[test]
fn new_opens_a_challenge_on_a_blank_record() {
    let mut m = Metadata::default();
    let event = new(&mut m, &CHALLENGER, &PATHFINDER, 100, 400, &TARGET, 3, 500, 101, PERIOD);
    assert_eq!(event, Ok(Event::Challenged(CHALLENGER, TARGET, PATHFINDER, 3)));
    assert_eq!(
        m,
        Metadata {
            pool: Pool { staking: 400, sub_staking: 0, earnings: 100 },
            beneficiary: PATHFINDER,
            joint_benefits: false,
            progress: Progress { owner: CHALLENGER, total: 3, done: 0 },
            last_update: 101,
            remark: 0,
            score: 500,
            pathfinder: 0,
            status: Status::EVIDENCE,
            challenger: 0,
        }
    );
}

#[test]
fn new_waits_for_the_challenge_period() {
    let mut m = record(Status::FREE);
    let before = m;
    assert_eq!(
        new(&mut m, &CHALLENGER, &PATHFINDER, 1, 1, &TARGET, 3, 500, 1100, PERIOD),
        Err(Error::NoChallengeAllowed)
    );
    assert_eq!(m, before);
    assert_eq!(
        new(&mut m, &CHALLENGER, &PATHFINDER, 1, 1, &TARGET, 3, 500, 1000, PERIOD),
        Err(Error::NoChallengeAllowed)
    );
    assert_eq!(m, before);
    assert!(new(&mut m, &CHALLENGER, &PATHFINDER, 1, 1, &TARGET, 3, 500, 1101, PERIOD).is_ok());
    assert_eq!(m.pool, Pool { staking: 401, sub_staking: 0, earnings: 101 });
    // a second opening in the same block is refused
    let opened = m;
    assert_eq!(
        new(&mut m, &SWEEPER, &PATHFINDER, 1, 1, &TARGET, 3, 500, 1101, PERIOD),
        Err(Error::NoChallengeAllowed)
    );
    assert_eq!(m, opened);
}

#[test]
fn new_refuses_a_pool_that_overflows() {
    let mut m = Metadata::default();
    m.pool.staking = u128::MAX - 5;
    let before = m;
    assert_eq!(
        new(&mut m, &CHALLENGER, &PATHFINDER, 0, 6, &TARGET, 3, 500, 101, PERIOD),
        Err(Error::Overflow)
    );
    assert_eq!(m, before);
    assert_eq!(
        new(&mut m, &CHALLENGER, &PATHFINDER, 6, 0, &TARGET, 3, 500, 101, PERIOD),
        Err(Error::Overflow)
    );
    assert_eq!(m, before);
    assert_eq!(
        new(&mut m, &CHALLENGER, &PATHFINDER, 3, 3, &TARGET, 3, 500, 101, PERIOD),
        Err(Error::Overflow)
    );
    assert_eq!(m, before);
    assert!(new(&mut m, &CHALLENGER, &PATHFINDER, 2, 3, &TARGET, 3, 500, 101, PERIOD).is_ok());
    assert_eq!(m.total_amount(), Some(u128::MAX));
}

#[test]
fn new_then_harvest_unchallenged() {
    let mut m = Metadata::default();
    new(&mut m, &CHALLENGER, &PATHFINDER, 100, 400, &TARGET, 3, 500, 101, PERIOD).unwrap();
    // a sweeper has to wait for more than its own period
    assert_eq!(harvest(&m, &SWEEPER, 150, PERIOD), Err(Error::TooSoon));
    assert_eq!(harvest(&m, &SWEEPER, 601, PERIOD), Err(Error::TooSoon));
    // then it gets two percent, and the rest goes to the account that the
    // record names for both parts
    assert_eq!(m.challenger, m.pathfinder);
    assert_eq!(
        harvest(&m, &SWEEPER, 602, PERIOD),
        Ok(Payout {
            sweeper_fee: 10,
            pathfinder_amount: 0,
            challenger_amount: 490,
            score: Some(500)
        })
    );
}

#[test]
fn sweeper_harvest_of_a_free_record_pays_the_pathfinder() {
    let m = record(Status::FREE);
    assert_eq!(
        harvest(&m, &SWEEPER, 1501, PERIOD),
        Ok(Payout { sweeper_fee: 10, pathfinder_amount: 490, challenger_amount: 0, score: None })
    );
}

#[test]
fn too_soon_sweeper() {
    let m = record(Status::FREE);
    assert_eq!(harvest(&m, &SWEEPER, 1400, PERIOD), Err(Error::TooSoon));
    assert_eq!(harvest(&m, &SWEEPER, 1500, PERIOD), Err(Error::TooSoon));
    assert!(harvest(&m, &SWEEPER, 1501, PERIOD).is_ok());
}

#[test]
fn party_harvest_waits_for_the_challenge_period() {
    let m = record(Status::REPLY);
    assert_eq!(harvest(&m, &PATHFINDER, 1099, PERIOD), Err(Error::TooSoon));
    assert_eq!(harvest(&m, &CHALLENGER, 1000, PERIOD), Err(Error::TooSoon));
    assert_eq!(harvest(&m, &PATHFINDER, 1100, PERIOD), Err(Error::TooSoon));
    assert_eq!(harvest(&m, &CHALLENGER, 1100, PERIOD), Err(Error::TooSoon));
    let paid = Payout { sweeper_fee: 0, pathfinder_amount: 500, challenger_amount: 0, score: None };
    assert_eq!(harvest(&m, &PATHFINDER, 1101, PERIOD), Ok(paid));
    assert_eq!(harvest(&m, &CHALLENGER, 1150, PERIOD), Ok(paid));
    // with no period at all a party still waits for the next block
    assert_eq!(harvest(&m, &PATHFINDER, 1000, 0), Err(Error::TooSoon));
    assert_eq!(harvest(&m, &PATHFINDER, 1001, 0), Ok(paid));
}

#[test]
fn harvest_by_status() {
    let now = 5000;
    for status in [Status::FREE, Status::REPLY] {
        assert_eq!(
            harvest(&record(status), &PATHFINDER, now, PERIOD),
            Ok(Payout {
                sweeper_fee: 0,
                pathfinder_amount: 500,
                challenger_amount: 0,
                score: None
            })
        );
    }
    for status in [Status::EXAMINE, Status::EVIDENCE] {
        assert_eq!(
            harvest(&record(status), &PATHFINDER, now, PERIOD),
            Ok(Payout {
                sweeper_fee: 0,
                pathfinder_amount: 0,
                challenger_amount: 500,
                score: Some(500)
            })
        );
    }
    assert_eq!(
        harvest(&record(Status::ARBITRATION), &PATHFINDER, now, PERIOD),
        Ok(Payout {
            sweeper_fee: 0,
            pathfinder_amount: 500,
            challenger_amount: 0,
            score: Some(500)
        })
    );
}

#[test]
fn harvest_pays_out_all_of_the_pool() {
    for total in [0u128, 1, 49, 50, 51, 99, 100, 501, 12_345, u128::MAX] {
        for status in
            [Status::FREE, Status::EXAMINE, Status::REPLY, Status::EVIDENCE, Status::ARBITRATION]
        {
            for joint in [false, true] {
                for who in [PATHFINDER, CHALLENGER, SWEEPER] {
                    let mut m = record(status);
                    m.pool = Pool { staking: total, sub_staking: 0, earnings: 0 };
                    m.joint_benefits = joint;
                    let p = harvest(&m, &who, 5000, PERIOD).unwrap();
                    assert_eq!(
                        p.sweeper_fee
                            .checked_add(p.pathfinder_amount)
                            .and_then(|s| s.checked_add(p.challenger_amount)),
                        Some(total)
                    );
                    assert_eq!(p.sweeper_fee, if who == SWEEPER { total / 50 } else { 0 });
                }
            }
        }
    }
}

#[test]
fn harvest_of_an_overflowing_pool_fails() {
    let mut m = record(Status::FREE);
    m.pool = Pool { staking: u128::MAX, sub_staking: 1, earnings: 0 };
    assert_eq!(harvest(&m, &PATHFINDER, 5000, PERIOD), Err(Error::Overflow));
}

#[test]
fn checked_sweeper_fee_splits_for_a_sweeper_only() {
    let m = record(Status::FREE);
    assert_eq!(checked_sweeper_fee(&m, &SWEEPER, &1000, 1501, PERIOD), Ok((20, 980)));
    assert_eq!(checked_sweeper_fee(&m, &SWEEPER, &1000, 1500, PERIOD), Err(Error::TooSoon));
    assert_eq!(checked_sweeper_fee(&m, &PATHFINDER, &1000, 1101, PERIOD), Ok((0, 1000)));
    assert_eq!(checked_sweeper_fee(&m, &PATHFINDER, &1000, 1100, PERIOD), Err(Error::TooSoon));
    assert_eq!(checked_sweeper_fee(&m, &CHALLENGER, &1000, 1099, PERIOD), Err(Error::TooSoon));
}

#[test]
fn get_new_progress_checks_count_owner_and_total() {
    let progress = Progress { owner: PATHFINDER, total: 12, done: 5 };
    assert_eq!(get_new_progress(&progress, &3, &PATHFINDER), Ok((8, false)));
    assert_eq!(get_new_progress(&progress, &7, &PATHFINDER), Ok((12, true)));
    assert_eq!(get_new_progress(&progress, &0, &PATHFINDER), Ok((5, false)));
    assert_eq!(get_new_progress(&progress, &8, &PATHFINDER), Err(Error::ErrProgress));
    assert_eq!(get_new_progress(&progress, &11, &PATHFINDER), Err(Error::NoPermission));
    assert_eq!(get_new_progress(&progress, &3, &CHALLENGER), Err(Error::NoPermission));
    let full = Progress { owner: PATHFINDER, total: u32::MAX, done: u32::MAX };
    assert_eq!(get_new_progress(&full, &1, &PATHFINDER), Err(Error::ErrProgress));
    assert_eq!(get_new_progress(&full, &0, &PATHFINDER), Ok((u32::MAX, true)));
}

#[test]
fn next_advances_the_upload() {
    let mut m = record(Status::REPLY);
    m.progress = Progress { owner: PATHFINDER, total: 4, done: 2 };
    m.beneficiary = SWEEPER;
    assert_eq!(next(&mut m, &PATHFINDER, 1, 7, 1010), Ok(false));
    assert_eq!(m.progress.done, 3);
    assert_eq!(m.remark, 7);
    assert_eq!(m.last_update, 1010);
    assert_eq!(m.beneficiary, SWEEPER);
    assert_eq!(next(&mut m, &PATHFINDER, 1, 8, 1011), Ok(true));
    assert_eq!(m.progress.done, 4);
    assert_eq!(m.remark, 8);
    assert_eq!(m.beneficiary, PATHFINDER);
    let before = m;
    assert_eq!(next(&mut m, &PATHFINDER, 1, 9, 1012), Err(Error::ErrProgress));
    assert_eq!(m, before);
    assert_eq!(next(&mut m, &CHALLENGER, 0, 9, 1012), Err(Error::NoPermission));
    assert_eq!(m, before);
    assert_eq!(next(&mut m, &PATHFINDER, MAX_UPDATE_COUNT + 1, 9, 1012), Err(Error::NoPermission));
    assert_eq!(m, before);
}

#[test]
fn reply_too_many() {
    let mut m = record(Status::EXAMINE);
    let before = m;
    assert_eq!(reply(&mut m, &PATHFINDER, 8, 11, 1001), Err(Error::TooMany));
    assert_eq!(m, before);
    assert_eq!(reply(&mut m, &PATHFINDER, 100, 11, 1001), Err(Error::TooMany));
    assert_eq!(m, before);
    assert_eq!(reply(&mut m, &PATHFINDER, 8, 9, 1001), Err(Error::TooMany));
    assert_eq!(m, before);
}

#[test]
fn reply_needs_the_pathfinder_and_the_right_phase() {
    let mut m = record(Status::EXAMINE);
    assert_eq!(reply(&mut m, &CHALLENGER, 4, 2, 1001), Err(Error::NoPermission));
    let mut m = record(Status::REPLY);
    assert_eq!(reply(&mut m, &PATHFINDER, 4, 2, 1001), Err(Error::NoPermission));
    let mut m = record(Status::FREE);
    assert_eq!(reply(&mut m, &PATHFINDER, 4, 2, 1001), Err(Error::NoPermission));
}

#[test]
fn reply_in_parts_waits_for_the_rest() {
    let mut m = record(Status::EXAMINE);
    m.remark = 3;
    m.beneficiary = CHALLENGER;
    assert_eq!(reply(&mut m, &PATHFINDER, 4, 2, 1001), Ok((false, 3)));
    assert_eq!(m.status, Status::REPLY);
    assert_eq!(m.progress, Progress { owner: PATHFINDER, total: 4, done: 2 });
    assert_eq!(m.beneficiary, CHALLENGER);
    assert_eq!(m.last_update, 1001);
}

#[test]
fn reply_at_once_stays_in_examine() {
    let mut m = record(Status::EXAMINE);
    m.beneficiary = CHALLENGER;
    assert_eq!(reply(&mut m, &PATHFINDER, 4, 4, 1001), Ok((true, 0)));
    assert_eq!(m.status, Status::EXAMINE);
    assert_eq!(m.progress, Progress { owner: PATHFINDER, total: 4, done: 4 });
    assert_eq!(m.beneficiary, PATHFINDER);
}

#[test]
fn question_picks_a_cell_of_a_complete_level() {
    let mut m = record(Status::REPLY);
    m.progress = Progress { owner: PATHFINDER, total: 4, done: 4 };
    assert_eq!(question(&mut m, CHALLENGER, 2, 1020), Ok(()));
    assert_eq!(m.status, Status::EXAMINE);
    assert_eq!(m.remark, 2);
    assert_eq!(m.beneficiary, CHALLENGER);
    assert_eq!(m.last_update, 1020);
}

#[test]
fn question_is_refused_out_of_turn() {
    let mut m = record(Status::REPLY);
    m.progress = Progress { owner: PATHFINDER, total: 4, done: 3 };
    let before = m;
    assert_eq!(question(&mut m, CHALLENGER, 2, 1020), Err(Error::NoChallengeAllowed));
    assert_eq!(m, before);
    m.progress.done = 4;
    let before = m;
    assert_eq!(question(&mut m, PATHFINDER, 2, 1020), Err(Error::NoChallengeAllowed));
    assert_eq!(m, before);
    let mut m = record(Status::EXAMINE);
    assert_eq!(question(&mut m, CHALLENGER, 2, 1020), Err(Error::NoChallengeAllowed));
}

#[test]
fn new_evidence_goes_to_arbitration_or_restarts() {
    let mut m = record(Status::EXAMINE);
    assert_eq!(new_evidence(&mut m, &CHALLENGER, true, 1030), Ok(None));
    assert_eq!(m.status, Status::ARBITRATION);
    assert_eq!(m.pathfinder, PATHFINDER);
    assert_eq!(m.last_update, 1030);

    let mut m = record(Status::EXAMINE);
    m.joint_benefits = true;
    assert_eq!(new_evidence(&mut m, &CHALLENGER, false, 1030), Ok(Some(500)));
    assert_eq!(m.status, Status::FREE);
    assert_eq!(m.pathfinder, CHALLENGER);
    assert_eq!(m.challenger, CHALLENGER);
    assert!(!m.joint_benefits);
}

#[test]
fn new_evidence_needs_the_challenger_and_a_complete_upload() {
    let mut m = record(Status::EXAMINE);
    let before = m;
    assert_eq!(new_evidence(&mut m, &PATHFINDER, true, 1030), Err(Error::NoPermission));
    assert_eq!(m, before);
    m.progress = Progress { owner: PATHFINDER, total: 4, done: 3 };
    let before = m;
    assert_eq!(new_evidence(&mut m, &CHALLENGER, true, 1030), Err(Error::NoPermission));
    assert_eq!(m, before);
}

#[test]
fn arbitration_joint_split() {
    let mut m = record(Status::ARBITRATION);
    m.pool = Pool { staking: 401, sub_staking: 0, earnings: 100 };
    assert_eq!(arbitral(&mut m, &SWEEPER, 450, true, false, 1040), Ok(0));
    assert!(m.joint_benefits);
    assert_eq!(m.score, 450);
    assert_eq!(m.status, Status::ARBITRATION);
    assert_eq!(m.pool, Pool { staking: 401, sub_staking: 0, earnings: 100 });
    assert_eq!(harvest(&m, &CHALLENGER, 1140, PERIOD), Err(Error::TooSoon));
    assert_eq!(
        harvest(&m, &CHALLENGER, 1141, PERIOD),
        Ok(Payout {
            sweeper_fee: 0,
            pathfinder_amount: 250,
            challenger_amount: 251,
            score: None
        })
    );
    // a sweeper takes its fee first
    assert_eq!(
        harvest(&m, &SWEEPER, 1541, PERIOD),
        Ok(Payout {
            sweeper_fee: 10,
            pathfinder_amount: 245,
            challenger_amount: 246,
            score: None
        })
    );
}

#[test]
fn arbitral_settles_the_score() {
    let mut m = record(Status::ARBITRATION);
    assert_eq!(arbitral(&mut m, &SWEEPER, 450, false, false, 1040), Ok(0));
    assert!(!m.joint_benefits);
    assert_eq!(m.score, 450);
    assert_eq!(m.pathfinder, PATHFINDER);
}

#[test]
fn arbitral_restart_with_both_in_the_right_pays_half_the_stake() {
    let mut m = record(Status::ARBITRATION);
    m.pool = Pool { staking: 401, sub_staking: 7, earnings: 100 };
    assert_eq!(arbitral(&mut m, &SWEEPER, 450, true, true, 1040), Ok(200));
    assert_eq!(m.pool, Pool { staking: 201, sub_staking: 7, earnings: 100 });
    assert_eq!(m.status, Status::FREE);
    assert_eq!(m.pathfinder, PATHFINDER);
    assert_eq!(m.score, 500);
    assert!(!m.joint_benefits);
}

#[test]
fn arbitral_restart_on_full_proof_changes_the_pathfinder() {
    let mut m = record(Status::ARBITRATION);
    assert_eq!(arbitral(&mut m, &SWEEPER, 450, false, true, 1040), Ok(0));
    assert_eq!(m.pool, Pool { staking: 400, sub_staking: 0, earnings: 100 });
    assert_eq!(m.status, Status::FREE);
    assert_eq!(m.pathfinder, CHALLENGER);
    assert_eq!(m.challenger, CHALLENGER);
}

#[test]
fn arbitral_outside_arbitration_is_refused() {
    for status in [Status::FREE, Status::EXAMINE, Status::REPLY, Status::EVIDENCE] {
        for (joint, restart) in [(false, false), (false, true), (true, false), (true, true)] {
            let mut m = record(status);
            let before = m;
            assert_eq!(
                arbitral(&mut m, &SWEEPER, 450, joint, restart, 1040),
                Err(Error::NoPermission)
            );
            assert_eq!(m, before);
            assert_eq!(check_arbitral(&m), Err(Error::NoPermission));
        }
    }
    assert_eq!(check_arbitral(&record(Status::ARBITRATION)), Ok(()));
}

#[test]
fn check_evidence_asks_for_the_challenger_and_a_complete_upload() {
    let mut m = record(Status::EXAMINE);
    assert_eq!(check_evidence(&m, &CHALLENGER), Ok(()));
    assert_eq!(check_evidence(&m, &PATHFINDER), Err(Error::NoPermission));
    m.progress = Progress { owner: PATHFINDER, total: 4, done: 3 };
    assert_eq!(check_evidence(&m, &CHALLENGER), Err(Error::NoPermission));
    assert_eq!(check_arbitral(&m), Err(Error::NoPermission));
}

#[test]
fn arbitral_needs_a_complete_upload() {
    let mut m = record(Status::ARBITRATION);
    m.progress = Progress { owner: PATHFINDER, total: 4, done: 3 };
    let before = m;
    assert_eq!(arbitral(&mut m, &SWEEPER, 450, true, true, 1040), Err(Error::NoPermission));
    assert_eq!(m, before);
}

#[test]
fn lifetime_conserves_the_pool() {
    let mut m = Metadata::default();
    let mut credited: u128 = 0;
    let mut released: u128 = 0;
    new(&mut m, &CHALLENGER, &PATHFINDER, 100, 401, &TARGET, 0, 500, 101, PERIOD).unwrap();
    credited += 501;
    m.challenger = CHALLENGER;
    m.pathfinder = PATHFINDER;
    new_evidence(&mut m, &CHALLENGER, true, 110).unwrap();
    released += arbitral(&mut m, &SWEEPER, 450, true, true, 120).unwrap();
    assert_eq!(released, 200);
    new(&mut m, &PATHFINDER, &CHALLENGER, 10, 20, &TARGET, 0, 450, 221, PERIOD).unwrap();
    credited += 30;
    let p = harvest(&m, &SWEEPER, 722, PERIOD).unwrap();
    released += p.sweeper_fee + p.pathfinder_amount + p.challenger_amount;
    assert_eq!(p.sweeper_fee, 6);
    assert_eq!(released, credited);
}
