use zd_challenges::challenges::{Error, Event, Metadata, Payout, Pool, Progress, Status};
use zd_challenges::pallet::{ChallengeBase, Config, Pallet};
use zd_challenges::refresh_seeds::APP_ID;

const OTHER_APP: [u8; 8] = *b"other   ";
const PERIOD: u64 = 100;
const PATHFINDER: u64 = 1;
const CHALLENGER: u64 = 2;
const SWEEPER: u64 = 77;
const TARGET: u64 = 9;

fn pallet() -> Pallet {
    Pallet::with_config(Config { challenge_perior: PERIOD })
}

fn record(status: Status) -> Metadata {
    Metadata {
        pool: Pool { staking: 400, sub_staking: 0, earnings: 100 },
        beneficiary: PATHFINDER,
        joint_benefits: false,
        progress: Progress { owner: PATHFINDER, total: 0, done: 0 },
        last_update: 1000,
        remark: 0,
        score: 500,
        pathfinder: PATHFINDER,
        status,
        challenger: CHALLENGER,
    }
}

#[test]
fn app_id_spells_seeds() {
    assert_eq!(&APP_ID, b"seeds   ");
}

#[test]
fn a_pallet_starts_without_challenges() {
    let p = pallet();
    assert!(p.is_all_harvest(&APP_ID));
    assert_eq!(p.try_get(&APP_ID, &TARGET), None);
    assert_eq!(p.get_metadata(&APP_ID, &TARGET), Metadata::default());
}

#[test]
fn new_files_the_record_under_app_and_target() {
    let mut p = pallet();
    assert_eq!(
        p.new(&APP_ID, &CHALLENGER, &PATHFINDER, 100, 400, &TARGET, 3, 500, 101),
        Ok(Event::Challenged(CHALLENGER, TARGET, PATHFINDER, 3))
    );
    assert!(!p.is_all_harvest(&APP_ID));
    assert!(p.is_all_harvest(&OTHER_APP));
    let m = p.try_get(&APP_ID, &TARGET).unwrap();
    assert_eq!(m.status, Status::EVIDENCE);
    assert_eq!(m.pool, Pool { staking: 400, sub_staking: 0, earnings: 100 });
    assert_eq!(p.try_get(&APP_ID, &(TARGET + 1)), None);
    assert_eq!(p.try_get(&OTHER_APP, &TARGET), None);
    // too soon for a second challenge on the same target, but not on another
    assert_eq!(
        p.new(&APP_ID, &CHALLENGER, &PATHFINDER, 1, 1, &TARGET, 3, 500, 201),
        Err(Error::NoChallengeAllowed)
    );
    assert_eq!(p.try_get(&APP_ID, &TARGET), Some(m));
    assert!(p.new(&OTHER_APP, &CHALLENGER, &PATHFINDER, 1, 1, &TARGET, 3, 500, 201).is_ok());
    assert_eq!(p.try_get(&APP_ID, &TARGET), Some(m));
    assert!(p.new(&APP_ID, &CHALLENGER, &PATHFINDER, 1, 1, &TARGET, 3, 500, 202).is_ok());
    assert_eq!(
        p.try_get(&APP_ID, &TARGET).unwrap().pool,
        Pool { staking: 401, sub_staking: 0, earnings: 101 }
    );
}

#[test]
fn new_before_the_period_has_passed_since_block_zero_is_refused() {
    let mut p = pallet();
    assert_eq!(
        p.new(&APP_ID, &CHALLENGER, &PATHFINDER, 100, 400, &TARGET, 3, 500, 100),
        Err(Error::NoChallengeAllowed)
    );
    assert!(p.is_all_harvest(&APP_ID));
}

#[test]
fn moves_on_a_missing_record_are_refused() {
    let mut p = pallet();
    assert_eq!(p.next(&APP_ID, &PATHFINDER, &TARGET, 1, 0, 5), Err(Error::NonExistent));
    assert_eq!(p.question(&APP_ID, CHALLENGER, &TARGET, 1, 5), Err(Error::NonExistent));
    assert_eq!(p.reply(&APP_ID, &PATHFINDER, &TARGET, 1, 1, 5), Err(Error::NonExistent));
    assert_eq!(p.arbitral(&APP_ID, &SWEEPER, &TARGET, 1, true, true, 5), Err(Error::NonExistent));
    assert_eq!(p.new_evidence(&APP_ID, &CHALLENGER, &TARGET, true, 5), Err(Error::NoPermission));
    assert!(p.is_all_harvest(&APP_ID));
}

#[test]
fn the_game_runs_on_the_record_that_is_named() {
    let mut p = pallet();
    p.insert(&APP_ID, &TARGET, record(Status::EXAMINE));
    p.insert(&APP_ID, &(TARGET + 1), record(Status::FREE));
    let other = p.try_get(&APP_ID, &(TARGET + 1));
    assert_eq!(p.reply(&APP_ID, &PATHFINDER, &TARGET, 4, 2, 1001), Ok((false, 0)));
    assert_eq!(p.reply(&APP_ID, &PATHFINDER, &TARGET, 4, 2, 1001), Err(Error::NoPermission));
    assert_eq!(p.next(&APP_ID, &PATHFINDER, &TARGET, 2, 0, 1002), Ok(true));
    assert_eq!(p.next(&APP_ID, &PATHFINDER, &TARGET, 1, 0, 1002), Err(Error::ErrProgress));
    assert_eq!(p.question(&APP_ID, PATHFINDER, &TARGET, 2, 1003), Err(Error::NoChallengeAllowed));
    assert_eq!(p.question(&APP_ID, CHALLENGER, &TARGET, 2, 1003), Ok(()));
    let m = p.try_get(&APP_ID, &TARGET).unwrap();
    assert_eq!(m.status, Status::EXAMINE);
    assert_eq!(m.remark, 2);
    assert_eq!(m.last_update, 1003);
    let waiting = p.try_get(&APP_ID, &TARGET);
    assert_eq!(
        p.arbitral(&APP_ID, &SWEEPER, &TARGET, 450, true, true, 1004),
        Err(Error::NoPermission)
    );
    assert_eq!(p.try_get(&APP_ID, &TARGET), waiting);
    assert_eq!(p.new_evidence(&APP_ID, &CHALLENGER, &TARGET, true, 1004), Ok(None));
    assert_eq!(p.try_get(&APP_ID, &TARGET).unwrap().status, Status::ARBITRATION);
    assert_eq!(p.arbitral(&APP_ID, &SWEEPER, &TARGET, 450, true, false, 1005), Ok(0));
    assert_eq!(p.try_get(&APP_ID, &(TARGET + 1)), other);
    assert_eq!(p.harvest(&PATHFINDER, &APP_ID, &TARGET, 1105), Err(Error::TooSoon));
    assert!(p.try_get(&APP_ID, &TARGET).is_some());
    assert_eq!(
        p.harvest(&PATHFINDER, &APP_ID, &TARGET, 1106),
        Ok(Payout { sweeper_fee: 0, pathfinder_amount: 250, challenger_amount: 250, score: None })
    );
    assert_eq!(p.try_get(&APP_ID, &TARGET), None);
    assert!(!p.is_all_harvest(&APP_ID));
    assert_eq!(
        p.harvest(&SWEEPER, &APP_ID, &(TARGET + 1), 1501),
        Ok(Payout { sweeper_fee: 10, pathfinder_amount: 490, challenger_amount: 0, score: None })
    );
    assert!(p.is_all_harvest(&APP_ID));
}

#[test]
fn harvest_without_a_record_settles_a_blank_one() {
    let mut p = pallet();
    assert_eq!(p.harvest(&SWEEPER, &APP_ID, &TARGET, 500), Err(Error::TooSoon));
    assert_eq!(
        p.harvest(&SWEEPER, &APP_ID, &TARGET, 501),
        Ok(Payout { sweeper_fee: 0, pathfinder_amount: 0, challenger_amount: 0, score: Some(0) })
    );
}

#[test]
fn insert_and_remove() {
    let mut p = pallet();
    p.insert(&APP_ID, &TARGET, record(Status::FREE));
    p.insert(&APP_ID, &TARGET, record(Status::REPLY));
    p.insert(&OTHER_APP, &TARGET, record(Status::EXAMINE));
    assert_eq!(p.get_metadata(&APP_ID, &TARGET), record(Status::REPLY));
    p.remove(&APP_ID, &TARGET);
    assert!(p.is_all_harvest(&APP_ID));
    assert!(!p.is_all_harvest(&OTHER_APP));
    p.remove(&APP_ID, &TARGET);
    assert_eq!(p.get_metadata(&OTHER_APP, &TARGET), record(Status::EXAMINE));
}
