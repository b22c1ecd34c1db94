//! The challenges of all applications, each under its application and target.

use crate::bytes::bytes_eq;
use crate::challenges::{
    advanced, arbitral, arbitral_error, arbitral_fee, arbitrated, blank, evidence_error, evidenced,
    harvest, harvest_error, new, new_error, new_evidence, next, opened, progress_error, question,
    question_error, questioned, replied, reply, reply_error, settled, Error, Event, Metadata,
    Payout,
};
use crate::primitives::{AccountId, AppId, Balance, BlockNumber};
use vstd::prelude::*;

verus! {

/// What is fixed for all challenges.
#[derive(Debug, Clone, Copy, PartialEq, Eq, Structural)]
pub struct Config {
    /// Blocks that must pass after the last update of a challenge before a new
    /// one is opened on its target, or a party settles it.
    pub challenge_perior: BlockNumber,
}

/// The name that a record is kept under: the application and the target.
pub type Key = (Seq<u8>, AccountId);

/// A record and what it is kept under.
struct Entry {
    app_id: AppId,
    target: AccountId,
    metadata: Metadata,
}

/// The name that an entry is kept under.
spec fn key_of(entry: Entry) -> Key {
    (entry.app_id@, entry.target)
}

/// Some entry is kept under `key`.
spec fn holds(entries: Seq<Entry>, key: Key) -> bool {
    exists|i: int| 0 <= i < entries.len() && key_of(#[trigger] entries[i]) == key
}

/// The place of an entry that is kept under `key`.
spec fn place(entries: Seq<Entry>, key: Key) -> int {
    choose|i: int| 0 <= i < entries.len() && key_of(#[trigger] entries[i]) == key
}

/// No two entries are kept under one name.
spec fn distinct(entries: Seq<Entry>) -> bool {
    forall|i: int, j: int|
        0 <= i < j < entries.len() ==> key_of(#[trigger] entries[i]) != key_of(#[trigger] entries[j])
}

/// The records that the entries hold, by their names.
spec fn as_map(entries: Seq<Entry>) -> Map<Key, Metadata> {
    Map::new(|key: Key| holds(entries, key), |key: Key| entries[place(entries, key)].metadata)
}

/// Among distinct entries the one at `i` is the one kept under its name.
proof fn lemma_place(entries: Seq<Entry>, i: int)
    requires
        distinct(entries),
        0 <= i < entries.len(),
    ensures
        holds(entries, key_of(entries[i])),
        place(entries, key_of(entries[i])) == i,
        as_map(entries).contains_key(key_of(entries[i])),
        as_map(entries)[key_of(entries[i])] == entries[i].metadata,
{
    let key = key_of(entries[i]);
    let p = place(entries, key);
    if p < i {
        assert(key_of(entries[p]) != key_of(entries[i]));
    } else if i < p {
        assert(key_of(entries[i]) != key_of(entries[p]));
    }
}

/// Writing a record over the one at `i` changes the record under that name
/// and no other.
proof fn lemma_set(entries: Seq<Entry>, i: int, metadata: Metadata)
    requires
        distinct(entries),
        0 <= i < entries.len(),
    ensures
        distinct(entries.update(i, Entry { metadata, ..entries[i] })),
        as_map(entries.update(i, Entry { metadata, ..entries[i] })) == as_map(entries).insert(
            key_of(entries[i]),
            metadata,
        ),
{
    let after = entries.update(i, Entry { metadata, ..entries[i] });
    assert forall|a: int, b: int| 0 <= a < b < after.len() implies key_of(#[trigger] after[a])
        != key_of(#[trigger] after[b]) by {
        assert(key_of(after[a]) == key_of(entries[a]));
        assert(key_of(after[b]) == key_of(entries[b]));
    }
    let want = as_map(entries).insert(key_of(entries[i]), metadata);
    assert forall|key: Key| as_map(after).contains_key(key) == want.contains_key(key) by {
        if holds(entries, key) {
            let p = place(entries, key);
            assert(key_of(after[p]) == key);
        }
        if holds(after, key) {
            let p = place(after, key);
            assert(key_of(entries[p]) == key);
        }
        lemma_place(entries, i);
        assert(key_of(after[i]) == key_of(entries[i]));
    }
    assert forall|key: Key| as_map(after).contains_key(key) implies as_map(after)[key]
        == want[key] by {
        let p = place(after, key);
        lemma_place(after, p);
        assert(key_of(entries[p]) == key);
        lemma_place(entries, p);
    }
    assert(as_map(after) =~= want);
}

/// A record under a new name is one more record.
proof fn lemma_push(entries: Seq<Entry>, entry: Entry)
    requires
        distinct(entries),
        !holds(entries, key_of(entry)),
    ensures
        distinct(entries.push(entry)),
        as_map(entries.push(entry)) == as_map(entries).insert(key_of(entry), entry.metadata),
{
    let after = entries.push(entry);
    let n = entries.len() as int;
    assert forall|a: int, b: int| 0 <= a < b < after.len() implies key_of(#[trigger] after[a])
        != key_of(#[trigger] after[b]) by {
        assert(after[a] == entries[a]);
        if b < n {
            assert(after[b] == entries[b]);
        }
    }
    let want = as_map(entries).insert(key_of(entry), entry.metadata);
    assert forall|key: Key| as_map(after).contains_key(key) == want.contains_key(key) by {
        if holds(entries, key) {
            let p = place(entries, key);
            assert(key_of(after[p]) == key);
        }
        if holds(after, key) {
            let p = place(after, key);
            if p < n {
                assert(key_of(entries[p]) == key);
            }
        }
        assert(key_of(after[n]) == key_of(entry));
    }
    assert forall|key: Key| as_map(after).contains_key(key) implies as_map(after)[key]
        == want[key] by {
        let p = place(after, key);
        lemma_place(after, p);
        if p < n {
            assert(key_of(entries[p]) == key);
            lemma_place(entries, p);
        }
    }
    assert(as_map(after) =~= want);
}

/// Taking the entry at `i` out takes the record under its name out and
/// no other.
proof fn lemma_remove(entries: Seq<Entry>, i: int)
    requires
        distinct(entries),
        0 <= i < entries.len(),
    ensures
        distinct(entries.remove(i)),
        as_map(entries.remove(i)) == as_map(entries).remove(key_of(entries[i])),
{
    let after = entries.remove(i);
    assert forall|a: int, b: int| 0 <= a < b < after.len() implies key_of(#[trigger] after[a])
        != key_of(#[trigger] after[b]) by {
        let a0 = if a < i { a } else { a + 1 };
        let b0 = if b < i { b } else { b + 1 };
        assert(after[a] == entries[a0] && after[b] == entries[b0]);
    }
    let gone = key_of(entries[i]);
    let want = as_map(entries).remove(gone);
    assert forall|key: Key| as_map(after).contains_key(key) == want.contains_key(key) by {
        if holds(entries, key) && key != gone {
            let p = place(entries, key);
            let q = if p < i { p } else { p - 1 };
            assert(after[q] == entries[p]);
            assert(key_of(after[q]) == key);
        }
        if holds(after, key) {
            let q = place(after, key);
            let p = if q < i { q } else { q + 1 };
            assert(after[q] == entries[p]);
            assert(key_of(entries[p]) == key);
            if p < i {
                assert(key_of(entries[p]) != key_of(entries[i]));
            } else {
                assert(key_of(entries[i]) != key_of(entries[p]));
            }
        }
    }
    assert forall|key: Key| as_map(after).contains_key(key) implies as_map(after)[key]
        == want[key] by {
        let q = place(after, key);
        lemma_place(after, q);
        let p = if q < i { q } else { q + 1 };
        assert(after[q] == entries[p]);
        lemma_place(entries, p);
    }
    assert(as_map(after) =~= want);
}

/// The challenges of all applications.
pub struct Pallet {
    metadatas: Vec<Entry>,
    config: Config,
}

impl Pallet {
    /// The records that are kept, by application and target.
    pub closed spec fn records(&self) -> Map<Key, Metadata> {
        as_map(self.metadatas@)
    }

    /// What is fixed for all challenges.
    pub closed spec fn config(&self) -> Config {
        self.config
    }

    /// No two records are kept under one name.
    pub closed spec fn wf(&self) -> bool {
        distinct(self.metadatas@)
    }

    /// The record under `app_id` and `target`, blank if there is none.
    pub open spec fn record(&self, app_id: AppId, target: AccountId) -> Metadata {
        if self.records().contains_key((app_id@, target)) {
            self.records()[(app_id@, target)]
        } else {
            blank()
        }
    }

    /// A pallet without challenges.
    pub fn with_config(config: Config) -> (pallet: Pallet)
        ensures
            pallet.wf(),
            pallet.records() == Map::<Key, Metadata>::empty(),
            pallet.config() == config,
    {
        let pallet = Pallet { metadatas: Vec::new(), config };
        proof {
            assert(as_map(pallet.metadatas@) =~= Map::<Key, Metadata>::empty());
        }
        pallet
    }

    /// The place of the entry under `app_id` and `target`, if there is one.
    fn find(&self, app_id: &AppId, target: &AccountId) -> (at: Option<usize>)
        requires
            self.wf(),
        ensures
            match at {
                Some(i) => i < self.metadatas@.len() && key_of(self.metadatas@[i as int]) == (
                    app_id@,
                    *target,
                ) && self.records().contains_key((app_id@, *target)) && self.records()[(
                    app_id@,
                    *target,
                )] == self.metadatas@[i as int].metadata,
                None => !self.records().contains_key((app_id@, *target)) && !holds(
                    self.metadatas@,
                    (app_id@, *target),
                ),
            },
    {
        let mut i: usize = 0;
        while i < self.metadatas.len()
            invariant
                self.wf(),
                i <= self.metadatas@.len(),
                forall|k: int| 0 <= k < i ==> key_of(#[trigger] self.metadatas@[k]) != (app_id@, *target),
            decreases self.metadatas.len() - i,
        {
            let entry = &self.metadatas[i];
            if entry.target == *target && bytes_eq(&entry.app_id, app_id) {
                proof {
                    lemma_place(self.metadatas@, i as int);
                }
                return Some(i);
            }
            i += 1;
        }
        None
    }

    /// The record under `app_id` and `target`, if there is one.
    pub fn try_get(&self, app_id: &AppId, target: &AccountId) -> (found: Option<Metadata>)
        requires
            self.wf(),
        ensures
            found == if self.records().contains_key((app_id@, *target)) {
                Some(self.records()[(app_id@, *target)])
            } else {
                None
            },
    {
        match self.find(app_id, target) {
            Some(i) => Some(self.metadatas[i].metadata),
            None => None,
        }
    }

    /// The record under `app_id` and `target`, blank if there is none.
    pub fn get_metadata(&self, app_id: &AppId, target: &AccountId) -> (metadata: Metadata)
        requires
            self.wf(),
        ensures
            metadata == self.record(*app_id, *target),
    {
        match self.find(app_id, target) {
            Some(i) => self.metadatas[i].metadata,
            None => Metadata::default(),
        }
    }

    /// Puts `metadata` under `app_id` and `target`, in place of what was there.
    pub fn insert(&mut self, app_id: &AppId, target: &AccountId, metadata: Metadata)
        requires
            old(self).wf(),
        ensures
            final(self).wf(),
            final(self).config() == old(self).config(),
            final(self).records() == old(self).records().insert((app_id@, *target), metadata),
    {
        match self.find(app_id, target) {
            Some(i) => {
                proof {
                    lemma_set(self.metadatas@, i as int, metadata);
                }
                let entry = Entry {
                    app_id: self.metadatas[i].app_id,
                    target: self.metadatas[i].target,
                    metadata,
                };
                self.metadatas.set(i, entry);
            },
            None => {
                let entry = Entry { app_id: *app_id, target: *target, metadata };
                proof {
                    lemma_push(self.metadatas@, entry);
                }
                self.metadatas.push(entry);
            },
        }
    }

    /// Drops the record under `app_id` and `target`.
    pub fn remove(&mut self, app_id: &AppId, target: &AccountId)
        requires
            old(self).wf(),
        ensures
            final(self).wf(),
            final(self).config() == old(self).config(),
            final(self).records() == old(self).records().remove((app_id@, *target)),
    {
        match self.find(app_id, target) {
            Some(i) => {
                proof {
                    lemma_remove(self.metadatas@, i as int);
                }
                self.metadatas.remove(i);
            },
            None => {
                proof {
                    assert(self.records().remove((app_id@, *target)) =~= self.records());
                }
            },
        }
    }
}

/// The record that `records` hold under `app_id` and `target`, blank if there
/// is none.
pub open spec fn record_of(records: Map<Key, Metadata>, app_id: AppId, target: AccountId) -> Metadata {
    if records.contains_key((app_id@, target)) {
        records[(app_id@, target)]
    } else {
        blank()
    }
}

/// Why a move on the record under `app_id` and `target` is refused, if it is:
/// `absent` where there is no such record, else what the record has against it.
pub open spec fn stored_error(
    records: Map<Key, Metadata>,
    app_id: AppId,
    target: AccountId,
    absent: Error,
    fault: Option<Error>,
) -> Option<Error> {
    if records.contains_key((app_id@, target)) {
        fault
    } else {
        Some(absent)
    }
}

/// The game as other parts of the system drive it: every move names the
/// application and the target whose challenge it is made on. A move that is
/// refused changes nothing, and no move touches another challenge.
pub trait ChallengeBase: Sized {
    /// The challenges that are kept, by application and target.
    spec fn challenges(&self) -> Map<Key, Metadata>;

    /// The challenge period.
    spec fn perior(&self) -> BlockNumber;

    /// The state is one that the moves keep up.
    spec fn valid(&self) -> bool;

    /// Whether no challenge is left under the application.
    fn is_all_harvest(&self, app_id: &AppId) -> (all: bool)
        requires
            self.valid(),
        ensures
            all == (forall|target: AccountId| !self.challenges().contains_key((app_id@, target))),
    ;

    /// Settles the challenge on `target` for `who` and drops its record. What
    /// is returned is to be paid out. Without a record a blank one is settled.
    fn harvest(&mut self, who: &AccountId, app_id: &AppId, target: &AccountId, now: BlockNumber) -> (payout:
        Result<Payout, Error>)
        requires
            old(self).valid(),
        ensures
            final(self).valid(),
            final(self).perior() == old(self).perior(),
            match payout {
                Ok(p) => harvest_error(
                    record_of(old(self).challenges(), *app_id, *target),
                    *who,
                    now,
                    old(self).perior(),
                ).is_none() && p == settled(
                    record_of(old(self).challenges(), *app_id, *target),
                    *who,
                ) && final(self).challenges() == old(self).challenges().remove((app_id@, *target)),
                Err(e) => harvest_error(
                    record_of(old(self).challenges(), *app_id, *target),
                    *who,
                    now,
                    old(self).perior(),
                ) == Some(e) && final(self).challenges() == old(self).challenges(),
            },
    ;

    /// Opens a challenge by `who` on the score that `path_finder` published
    /// for `target`, on the record that is there or on a blank one.
    fn new(
        &mut self,
        app_id: &AppId,
        who: &AccountId,
        path_finder: &AccountId,
        fee: Balance,
        staking: Balance,
        target: &AccountId,
        quantity: u32,
        score: u64,
        now: BlockNumber,
    ) -> (event: Result<Event, Error>)
        requires
            old(self).valid(),
        ensures
            final(self).valid(),
            final(self).perior() == old(self).perior(),
            match event {
                Ok(ev) => new_error(
                    record_of(old(self).challenges(), *app_id, *target),
                    fee,
                    staking,
                    now,
                    old(self).perior(),
                ).is_none() && final(self).challenges() == old(self).challenges().insert(
                    (app_id@, *target),
                    opened(
                        record_of(old(self).challenges(), *app_id, *target),
                        *who,
                        *path_finder,
                        fee,
                        staking,
                        quantity,
                        score,
                        now,
                    ),
                ) && ev == Event::Challenged(*who, *target, *path_finder, quantity),
                Err(e) => new_error(
                    record_of(old(self).challenges(), *app_id, *target),
                    fee,
                    staking,
                    now,
                    old(self).perior(),
                ) == Some(e) && final(self).challenges() == old(self).challenges(),
            },
    ;

    /// Goes on with the current upload by `count` items and leaves `remark`
    /// on the record. Returns whether the upload is complete.
    fn next(
        &mut self,
        app_id: &AppId,
        who: &AccountId,
        target: &AccountId,
        count: u32,
        remark: u32,
        now: BlockNumber,
    ) -> (done: Result<bool, Error>)
        requires
            old(self).valid(),
        ensures
            final(self).valid(),
            final(self).perior() == old(self).perior(),
            ({
                let before = record_of(old(self).challenges(), *app_id, *target);
                let fault = stored_error(
                    old(self).challenges(),
                    *app_id,
                    *target,
                    Error::NonExistent,
                    progress_error(before.progress, count, *who),
                );
                match done {
                    Ok(all_done) => fault.is_none() && final(self).challenges() == old(self).challenges().insert(
                        (app_id@, *target),
                        advanced(before, *who, count, remark, now),
                    ) && all_done == (before.progress.done + count == before.progress.total),
                    Err(e) => fault == Some(e) && final(self).challenges() == old(self).challenges(),
                }
            }),
    ;

    /// The challenger chooses the cell `index` of the level that the
    /// pathfinder has completed.
    fn question(
        &mut self,
        app_id: &AppId,
        who: AccountId,
        target: &AccountId,
        index: u32,
        now: BlockNumber,
    ) -> (done: Result<(), Error>)
        requires
            old(self).valid(),
        ensures
            final(self).valid(),
            final(self).perior() == old(self).perior(),
            ({
                let before = record_of(old(self).challenges(), *app_id, *target);
                let fault = stored_error(
                    old(self).challenges(),
                    *app_id,
                    *target,
                    Error::NonExistent,
                    question_error(before, who),
                );
                match done {
                    Ok(_) => fault.is_none() && final(self).challenges() == old(self).challenges().insert((app_id@, *target), questioned(before, who, index, now)),
                    Err(e) => fault == Some(e) && final(self).challenges() == old(self).challenges(),
                }
            }),
    ;

    /// The pathfinder commits `count` items of a level of `total`. Returns
    /// whether the level is complete, and the cell that the challenger chose last.
    fn reply(
        &mut self,
        app_id: &AppId,
        who: &AccountId,
        target: &AccountId,
        total: u32,
        count: u32,
        now: BlockNumber,
    ) -> (done: Result<(bool, u32), Error>)
        requires
            old(self).valid(),
        ensures
            final(self).valid(),
            final(self).perior() == old(self).perior(),
            ({
                let before = record_of(old(self).challenges(), *app_id, *target);
                let fault = stored_error(
                    old(self).challenges(),
                    *app_id,
                    *target,
                    Error::NonExistent,
                    reply_error(before, *who, total, count),
                );
                match done {
                    Ok((all_done, remark)) => fault.is_none() && final(self).challenges() == old(self).challenges().insert(
                        (app_id@, *target),
                        replied(before, *who, total, count, now),
                    ) && all_done == (before.progress.done + count == total) && remark
                        == before.remark,
                    Err(e) => fault == Some(e) && final(self).challenges() == old(self).challenges(),
                }
            }),
    ;

    /// The challenger brings evidence; `needs_arbitration` is what the caller
    /// has found on checking it. Returns the contested score where the
    /// evidence settles the matter.
    fn new_evidence(
        &mut self,
        app_id: &AppId,
        who: &AccountId,
        target: &AccountId,
        needs_arbitration: bool,
        now: BlockNumber,
    ) -> (score: Result<Option<u64>, Error>)
        requires
            old(self).valid(),
        ensures
            final(self).valid(),
            final(self).perior() == old(self).perior(),
            ({
                let before = record_of(old(self).challenges(), *app_id, *target);
                let fault = stored_error(
                    old(self).challenges(),
                    *app_id,
                    *target,
                    Error::NoPermission,
                    evidence_error(before, *who),
                );
                match score {
                    Ok(s) => fault.is_none() && final(self).challenges() == old(self).challenges().insert(
                        (app_id@, *target),
                        evidenced(before, needs_arbitration, now),
                    ) && s == if needs_arbitration {
                        None
                    } else {
                        Some(before.score)
                    },
                    Err(e) => fault == Some(e) && final(self).challenges() == old(self).challenges(),
                }
            }),
    ;

    /// Applies a ruling. Returns the amount that is to be released to `who`.
    fn arbitral(
        &mut self,
        app_id: &AppId,
        who: &AccountId,
        target: &AccountId,
        score: u64,
        joint_benefits: bool,
        restart: bool,
        now: BlockNumber,
    ) -> (fee: Result<Balance, Error>)
        requires
            old(self).valid(),
        ensures
            final(self).valid(),
            final(self).perior() == old(self).perior(),
            ({
                let before = record_of(old(self).challenges(), *app_id, *target);
                let fault = stored_error(
                    old(self).challenges(),
                    *app_id,
                    *target,
                    Error::NonExistent,
                    arbitral_error(before),
                );
                match fee {
                    Ok(paid) => fault.is_none() && final(self).challenges() == old(self).challenges().insert(
                        (app_id@, *target),
                        arbitrated(before, score, joint_benefits, restart, now),
                    ) && paid == arbitral_fee(before, joint_benefits, restart),
                    Err(e) => fault == Some(e) && final(self).challenges() == old(self).challenges(),
                }
            }),
    ;
}

impl ChallengeBase for Pallet {
    open spec fn challenges(&self) -> Map<Key, Metadata> {
        self.records()
    }

    open spec fn perior(&self) -> BlockNumber {
        self.config().challenge_perior
    }

    open spec fn valid(&self) -> bool {
        self.wf()
    }

    fn is_all_harvest(&self, app_id: &AppId) -> (all: bool) {
        let mut i: usize = 0;
        while i < self.metadatas.len()
            invariant
                self.wf(),
                i <= self.metadatas@.len(),
                forall|k: int| 0 <= k < i ==> (#[trigger] self.metadatas@[k]).app_id@ != app_id@,
            decreases self.metadatas.len() - i,
        {
            if bytes_eq(&self.metadatas[i].app_id, app_id) {
                proof {
                    lemma_place(self.metadatas@, i as int);
                    assert(self.challenges().contains_key((app_id@, self.metadatas@[i as int].target)));
                }
                return false;
            }
            i += 1;
        }
        proof {
            assert forall|target: AccountId| !self.challenges().contains_key((app_id@, target)) by {
                if holds(self.metadatas@, (app_id@, target)) {
                    let p = place(self.metadatas@, (app_id@, target));
                    assert(self.metadatas@[p].app_id@ == app_id@);
                }
            }
        }
        true
    }

    fn harvest(&mut self, who: &AccountId, app_id: &AppId, target: &AccountId, now: BlockNumber) -> (payout:
        Result<Payout, Error>) {
        let challenge = self.get_metadata(app_id, target);
        match harvest(&challenge, who, now, self.config.challenge_perior) {
            Ok(p) => {
                self.remove(app_id, target);
                Ok(p)
            },
            Err(e) => Err(e),
        }
    }

    fn new(
        &mut self,
        app_id: &AppId,
        who: &AccountId,
        path_finder: &AccountId,
        fee: Balance,
        staking: Balance,
        target: &AccountId,
        quantity: u32,
        score: u64,
        now: BlockNumber,
    ) -> (event: Result<Event, Error>) {
        let mut m = self.get_metadata(app_id, target);
        match new(
            &mut m,
            who,
            path_finder,
            fee,
            staking,
            target,
            quantity,
            score,
            now,
            self.config.challenge_perior,
        ) {
            Ok(ev) => {
                self.insert(app_id, target, m);
                Ok(ev)
            },
            Err(e) => Err(e),
        }
    }

    fn next(
        &mut self,
        app_id: &AppId,
        who: &AccountId,
        target: &AccountId,
        count: u32,
        remark: u32,
        now: BlockNumber,
    ) -> (done: Result<bool, Error>) {
        let mut challenge = match self.try_get(app_id, target) {
            Some(m) => m,
            None => { return Err(Error::NonExistent); },
        };
        match next(&mut challenge, who, count, remark, now) {
            Ok(all_done) => {
                self.insert(app_id, target, challenge);
                Ok(all_done)
            },
            Err(e) => Err(e),
        }
    }

    fn question(
        &mut self,
        app_id: &AppId,
        who: AccountId,
        target: &AccountId,
        index: u32,
        now: BlockNumber,
    ) -> (done: Result<(), Error>) {
        let mut challenge = match self.try_get(app_id, target) {
            Some(m) => m,
            None => { return Err(Error::NonExistent); },
        };
        match question(&mut challenge, who, index, now) {
            Ok(_) => {
                self.insert(app_id, target, challenge);
                Ok(())
            },
            Err(e) => Err(e),
        }
    }

    fn reply(
        &mut self,
        app_id: &AppId,
        who: &AccountId,
        target: &AccountId,
        total: u32,
        count: u32,
        now: BlockNumber,
    ) -> (done: Result<(bool, u32), Error>) {
        let mut challenge = match self.try_get(app_id, target) {
            Some(m) => m,
            None => { return Err(Error::NonExistent); },
        };
        match reply(&mut challenge, who, total, count, now) {
            Ok(out) => {
                self.insert(app_id, target, challenge);
                Ok(out)
            },
            Err(e) => Err(e),
        }
    }

    fn new_evidence(
        &mut self,
        app_id: &AppId,
        who: &AccountId,
        target: &AccountId,
        needs_arbitration: bool,
        now: BlockNumber,
    ) -> (score: Result<Option<u64>, Error>) {
        let mut challenge = match self.try_get(app_id, target) {
            Some(m) => m,
            None => { return Err(Error::NoPermission); },
        };
        match new_evidence(&mut challenge, who, needs_arbitration, now) {
            Ok(score) => {
                self.insert(app_id, target, challenge);
                Ok(score)
            },
            Err(e) => Err(e),
        }
    }

    fn arbitral(
        &mut self,
        app_id: &AppId,
        who: &AccountId,
        target: &AccountId,
        score: u64,
        joint_benefits: bool,
        restart: bool,
        now: BlockNumber,
    ) -> (fee: Result<Balance, Error>) {
        let mut challenge = match self.try_get(app_id, target) {
            Some(m) => m,
            None => { return Err(Error::NonExistent); },
        };
        match arbitral(&mut challenge, who, score, joint_benefits, restart, now) {
            Ok(paid) => {
                self.insert(app_id, target, challenge);
                Ok(paid)
            },
            Err(e) => Err(e),
        }
    }
}

} // verus!
