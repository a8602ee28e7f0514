//! The database: the committed store, the lock table, a clock and the
//! source of transaction identifiers. It is what concurrent transactions
//! share, and every operation on it is one atomic step.

use vstd::prelude::*;
use crate::bytes::opt_bytes;
use crate::lock_table::{
    after_release, after_request, decide, LockOutcome, LockRequest, LockTable, LockTableView,
};
use crate::error::StorageError;
use crate::storage::{
    has_room, has_room_for_one, latest_value, merged, room_result, stored, written, Snapshot,
    Storage, StorageView, VersionView,
};
use crate::write_buffer::WriteBuffer;

verus! {

/// What the database holds.
pub struct DatabaseView {
    pub storage: StorageView,
    pub locks: LockTableView,
    /// The time, in ticks.
    pub clock: u64,
    /// The identifier that the next transaction gets.
    pub next_id: u64,
}

/// The database.
pub struct Database {
    storage: Storage,
    locks: LockTable,
    clock: u64,
    next_id: u64,
}

impl View for Database {
    type V = DatabaseView;

    closed spec fn view(&self) -> DatabaseView {
        DatabaseView {
            storage: self.storage@,
            locks: self.locks@,
            clock: self.clock,
            next_id: self.next_id,
        }
    }
}

/// `clock + ticks`, held at the largest time there is.
pub open spec fn later(clock: u64, ticks: u64) -> u64 {
    if clock + ticks > u64::MAX {
        u64::MAX
    } else {
        (clock + ticks) as u64
    }
}

impl Database {
    /// An empty database at time 0.
    pub fn new() -> (d: Database)
        ensures
            d@.storage.log.len() == 0,
            d@.storage.history_floor == 0,
            d@.storage.snapshots.len() == 0,
            d@.storage.capacity == usize::MAX,
            d@.locks.held.len() == 0,
            d@.locks.waiting.len() == 0,
            d@.clock == 0,
            d@.next_id == 1,
    {
        Database { storage: Storage::new(), locks: LockTable::new(), clock: 0, next_id: 1 }
    }

    /// An empty database at time 0 whose store keeps at most `capacity`
    /// writes.
    pub fn with_capacity(capacity: usize) -> (d: Database)
        ensures
            d@.storage.log.len() == 0,
            d@.storage.history_floor == 0,
            d@.storage.snapshots.len() == 0,
            d@.storage.capacity == capacity,
            d@.locks.held.len() == 0,
            d@.locks.waiting.len() == 0,
            d@.clock == 0,
            d@.next_id == 1,
    {
        Database {
            storage: Storage::with_capacity(capacity),
            locks: LockTable::new(),
            clock: 0,
            next_id: 1,
        }
    }

    /// The committed store.
    pub fn storage(&self) -> (s: &Storage)
        ensures
            s@ == self@.storage,
    {
        &self.storage
    }

    /// The lock table.
    pub fn locks(&self) -> (t: &LockTable)
        ensures
            t@ == self@.locks,
    {
        &self.locks
    }

    /// The time.
    pub fn now(&self) -> (t: u64)
        ensures
            t == self@.clock,
    {
        self.clock
    }

    /// Lets `ticks` of time pass.
    pub fn advance_clock(&mut self, ticks: u64)
        ensures
            final(self)@ == (DatabaseView {
                clock: later(old(self)@.clock, ticks),
                ..old(self)@
            }),
    {
        self.clock = if ticks > u64::MAX - self.clock {
            u64::MAX
        } else {
            self.clock + ticks
        };
    }

    /// The latest committed value of `(cf, key)`.
    pub fn get(&self, cf: u32, key: &[u8]) -> (value: Option<Vec<u8>>)
        ensures
            opt_bytes(value) == latest_value(self@.storage.log, cf, key@),
    {
        self.storage.get(cf, key)
    }

    /// Commits one write outside any transaction, where the store has
    /// room.
    pub fn put(&mut self, cf: u32, key: &[u8], value: &[u8]) -> (r: Result<(), StorageError>)
        ensures
            r == room_result(has_room_for_one(old(self)@.storage)),
            final(self)@ == (DatabaseView {
                storage: stored(
                    old(self)@.storage,
                    VersionView { cf, key: key@, value: Some(value@) },
                ),
                ..old(self)@
            }),
    {
        self.storage.put(cf, key, value)
    }

    /// Commits one deletion outside any transaction, where the store has
    /// room.
    pub fn delete(&mut self, cf: u32, key: &[u8]) -> (r: Result<(), StorageError>)
        ensures
            r == room_result(has_room_for_one(old(self)@.storage)),
            final(self)@ == (DatabaseView {
                storage: stored(old(self)@.storage, VersionView { cf, key: key@, value: None }),
                ..old(self)@
            }),
    {
        self.storage.delete(cf, key)
    }

    /// Commits one merge outside any transaction, where the store has
    /// room.
    pub fn merge(&mut self, cf: u32, key: &[u8], operand: &[u8]) -> (r: Result<(), StorageError>)
        ensures
            r == room_result(has_room_for_one(old(self)@.storage)),
            final(self)@ == (DatabaseView {
                storage: stored(
                    old(self)@.storage,
                    VersionView {
                        cf,
                        key: key@,
                        value: Some(
                            merged(latest_value(old(self)@.storage.log, cf, key@), operand@),
                        ),
                    },
                ),
                ..old(self)@
            }),
    {
        self.storage.merge(cf, key, operand)
    }

    /// Commits a batch in one step, where the store has room for all of
    /// it.
    pub fn write(&mut self, batch: &WriteBuffer) -> (r: Result<(), StorageError>)
        ensures
            r == room_result(has_room(old(self)@.storage, batch@)),
            final(self)@ == (DatabaseView {
                storage: written(old(self)@.storage, batch@),
                ..old(self)@
            }),
    {
        self.storage.write(batch)
    }

    /// Acquires a snapshot of the latest state.
    pub fn create_snapshot(&mut self) -> (s: Snapshot)
        ensures
            s@ == Some(old(self)@.storage.log.len() as u64),
            final(self)@ == (DatabaseView {
                storage: StorageView {
                    snapshots: old(self)@.storage.snapshots.push(
                        old(self)@.storage.log.len() as u64,
                    ),
                    ..old(self)@.storage
                },
                ..old(self)@
            }),
    {
        self.storage.create_snapshot()
    }

    /// Releases one acquisition of `s`.
    pub fn release_snapshot(&mut self, s: &Snapshot)
        ensures
            final(self)@ == (DatabaseView {
                storage: StorageView {
                    snapshots: match s@ {
                        Some(seq) => old(self)@.storage.snapshots.remove_value(seq),
                        None => old(self)@.storage.snapshots,
                    },
                    ..old(self)@.storage
                },
                ..old(self)@
            }),
    {
        self.storage.release_snapshot(s);
    }

    /// Gives up the change history before sequence number `before`.
    pub fn discard_history(&mut self, before: u64)
        ensures
            final(self)@.locks == old(self)@.locks,
            final(self)@.clock == old(self)@.clock,
            final(self)@.next_id == old(self)@.next_id,
            final(self)@.storage.log == old(self)@.storage.log,
            final(self)@.storage.snapshots == old(self)@.storage.snapshots,
            final(self)@.storage.capacity == old(self)@.storage.capacity,
            final(self)@.storage.history_floor == ({
                let target = if before > old(self)@.storage.log.len() {
                    old(self)@.storage.log.len() as u64
                } else {
                    before
                };
                if target > old(self)@.storage.history_floor {
                    target
                } else {
                    old(self)@.storage.history_floor
                }
            }),
    {
        self.storage.discard_history(before);
    }

    /// Asks for a lock at the present time.
    pub fn acquire_lock(
        &mut self,
        txn: u64,
        cf: u32,
        key: &[u8],
        exclusive: bool,
        timeout: u64,
        detect: bool,
    ) -> (outcome: LockOutcome)
        ensures
            outcome == decide(
                old(self)@.locks,
                LockRequest { txn, cf, key: key@, exclusive },
                timeout,
                detect,
                old(self)@.clock,
            ),
            final(self)@ == (DatabaseView {
                locks: after_request(
                    old(self)@.locks,
                    LockRequest { txn, cf, key: key@, exclusive },
                    timeout,
                    detect,
                    old(self)@.clock,
                ),
                ..old(self)@
            }),
    {
        self.locks.acquire(txn, cf, key, exclusive, timeout, detect, self.clock)
    }

    /// Gives up the locks that `txn` got after its first `keep`, and its
    /// wait.
    pub fn release_locks(&mut self, txn: u64, keep: usize)
        ensures
            final(self)@ == (DatabaseView {
                locks: after_release(old(self)@.locks, txn, keep as nat),
                ..old(self)@
            }),
    {
        self.locks.release(txn, keep);
    }

    /// Hands out the next transaction identifier; none once they have run
    /// out.
    pub fn allocate_id(&mut self) -> (id: Option<u64>)
        ensures
            match id {
                Some(i) => i == old(self)@.next_id && i < u64::MAX && final(self)@ == (DatabaseView {
                    next_id: (i + 1) as u64,
                    ..old(self)@
                }),
                None => old(self)@.next_id == u64::MAX && final(self)@ == old(self)@,
            },
    {
        if self.next_id == u64::MAX {
            None
        } else {
            let id = self.next_id;
            self.next_id = id + 1;
            Some(id)
        }
    }
}

} // verus!
