//! The conflict records of optimistic concurrency control: for each key
//! that a transaction read for update or wrote, the sequence number at
//! which the transaction first observed it.

use vstd::prelude::*;
use crate::bytes::{bytes_eq, to_vec};
use crate::error::Error;
use crate::storage::{version_at, Storage, StorageView, VersionView};

verus! {

/// A key and the sequence number at which it was first observed.
#[derive(Debug)]
pub struct ConflictRecord {
    pub cf: u32,
    pub key: Vec<u8>,
    pub seq: u64,
}

/// What a [`ConflictRecord`] stands for.
pub struct ConflictRecordView {
    pub cf: u32,
    pub key: Seq<u8>,
    pub seq: u64,
}

impl View for ConflictRecord {
    type V = ConflictRecordView;

    open spec fn view(&self) -> ConflictRecordView {
        ConflictRecordView { cf: self.cf, key: self.key@, seq: self.seq }
    }
}

/// The key has a record.
pub open spec fn is_tracked(records: Seq<ConflictRecordView>, cf: u32, key: Seq<u8>) -> bool {
    exists|i: int| 0 <= i < records.len() && (#[trigger] records[i]).cf == cf && records[i].key == key
}

/// The records after `(cf, key)` was observed at `seq`: the first
/// observation of a key stays.
pub open spec fn after_track(
    records: Seq<ConflictRecordView>,
    cf: u32,
    key: Seq<u8>,
    seq: u64,
) -> Seq<ConflictRecordView> {
    if is_tracked(records, cf, key) {
        records
    } else {
        records.push(ConflictRecordView { cf, key, seq })
    }
}

/// The key of the record was committed after the record's observation.
pub open spec fn overwritten(rec: ConflictRecordView, log: Seq<VersionView>) -> bool {
    version_at(log, rec.cf, rec.key, log.len() as int) > rec.seq
}

/// Some recorded key was committed after its observation.
pub open spec fn has_conflict(records: Seq<ConflictRecordView>, log: Seq<VersionView>) -> bool {
    exists|i: int| 0 <= i < records.len() && overwritten(#[trigger] records[i], log)
}

/// Some record is older than the change history that is still kept.
pub open spec fn history_lost(records: Seq<ConflictRecordView>, floor: u64) -> bool {
    exists|i: int| 0 <= i < records.len() && (#[trigger] records[i]).seq < floor
}

/// How validation at commit ends: a key that was committed since its
/// observation is a conflict; failing that, a record older than the kept
/// history cannot be checked.
pub open spec fn validation(records: Seq<ConflictRecordView>, s: StorageView) -> Result<
    (),
    Error,
> {
    if has_conflict(records, s.log) {
        Err(Error::Conflict)
    } else if history_lost(records, s.history_floor) {
        Err(Error::RetryableConflict)
    } else {
        Ok(())
    }
}

/// The conflict records of one transaction.
pub struct ConflictTracker {
    records: Vec<ConflictRecord>,
}

impl View for ConflictTracker {
    type V = Seq<ConflictRecordView>;

    closed spec fn view(&self) -> Seq<ConflictRecordView> {
        self.records@.map_values(|r: ConflictRecord| r@)
    }
}

impl ConflictTracker {
    /// No records.
    pub fn new() -> (t: ConflictTracker)
        ensures
            t@ == Seq::<ConflictRecordView>::empty(),
    {
        let t = ConflictTracker { records: Vec::new() };
        assert(t@ =~= Seq::<ConflictRecordView>::empty());
        t
    }

    /// The number of records.
    pub fn len(&self) -> (n: usize)
        ensures
            n == self@.len(),
    {
        self.records.len()
    }

    /// Whether the key has a record.
    pub fn is_tracked(&self, cf: u32, key: &[u8]) -> (r: bool)
        ensures
            r == is_tracked(self@, cf, key@),
    {
        let n = self.records.len();
        let mut i: usize = 0;
        while i < n
            invariant
                i <= n,
                n == self@.len(),
                forall|j: int|
                    0 <= j < i ==> !((#[trigger] self@[j]).cf == cf && self@[j].key == key@),
            decreases n - i,
        {
            let rec = &self.records[i];
            assert(rec@ == self@[i as int]);
            if rec.cf == cf && bytes_eq(rec.key.as_slice(), key) {
                return true;
            }
            i += 1;
        }
        false
    }

    /// Records that `(cf, key)` was observed at `seq`, unless the key has a
    /// record already.
    pub fn track(&mut self, cf: u32, key: &[u8], seq: u64)
        ensures
            final(self)@ == after_track(old(self)@, cf, key@, seq),
    {
        if !self.is_tracked(cf, key) {
            let rec = ConflictRecord { cf, key: to_vec(key), seq };
            self.records.push(rec);
            assert(self@ =~= old(self)@.push(rec@));
        }
    }

    /// Checks every record against the store.
    pub fn validate(&self, storage: &Storage) -> (r: Result<(), Error>)
        ensures
            r == validation(self@, storage@),
    {
        let n = self.records.len();
        let mut i: usize = 0;
        while i < n
            invariant
                i <= n,
                n == self@.len(),
                forall|j: int| 0 <= j < i ==> !overwritten(#[trigger] self@[j], storage@.log),
            decreases n - i,
        {
            let rec = &self.records[i];
            assert(rec@ == self@[i as int]);
            if storage.latest_version(rec.cf, rec.key.as_slice()) > rec.seq {
                return Err(Error::Conflict);
            }
            i += 1;
        }
        let floor = storage.history_floor();
        let mut k: usize = 0;
        while k < n
            invariant
                k <= n,
                n == self@.len(),
                floor == storage@.history_floor,
                !has_conflict(self@, storage@.log),
                forall|j: int| 0 <= j < k ==> !((#[trigger] self@[j]).seq < floor),
            decreases n - k,
        {
            let rec = &self.records[k];
            assert(rec@ == self@[k as int]);
            if rec.seq < floor {
                return Err(Error::RetryableConflict);
            }
            k += 1;
        }
        Ok(())
    }

    /// Drops every record.
    pub fn clear(&mut self)
        ensures
            final(self)@ == Seq::<ConflictRecordView>::empty(),
    {
        self.records.clear();
        assert(self@ =~= Seq::<ConflictRecordView>::empty());
    }
}

} // verus!
