//! The transaction: a write buffer over the committed store, registered
//! with the conflict detector of its mode, with savepoints, and a state
//! that ends in `Committed` or `RolledBack`.

use vstd::prelude::*;
use crate::bytes::{join, opt_bytes, to_vec};
use crate::database::{Database, DatabaseView};
use crate::error::{Error, StorageError};
use crate::iterator::{
    started, RawIterator, RawIteratorView, ScanView, TransactionIterator,
};
use crate::lock_table::{
    after_release, after_request, count_owned, decide, LockOutcome, LockRequest, LockTableView,
};
use crate::optimistic::{after_track, validation, ConflictRecordView, ConflictTracker};
use crate::options::{
    ConcurrencyControl, Direction, IteratorMode, IteratorModeView, ReadOptions, TransactionOptions,
};
use crate::storage::{applied, effect, has_room, value_at, Snapshot, StorageView};
use crate::write_buffer::{pending, BufferedWriteView, WriteBuffer, WriteOp, WriteOpView};

verus! {

/// The column family of the operations that name none.
pub const DEFAULT_COLUMN_FAMILY: u32 = 0;

/// Where a transaction is in its life.
#[derive(Clone, Copy, Debug, PartialEq, Eq, Structural)]
pub enum State {
    Active,
    Committed,
    RolledBack,
}

/// A savepoint: how long the write buffer was and how many locks the
/// transaction held when it was set.
#[derive(Clone, Copy, Debug)]
pub struct Savepoint {
    pub writes: usize,
    pub locks: usize,
}

/// What a transaction holds.
pub struct TransactionView {
    pub id: u64,
    pub mode: ConcurrencyControl,
    pub state: State,
    /// The sequence number of the transaction's snapshot, if it has one.
    pub snapshot: Option<u64>,
    /// The write buffer.
    pub writes: Seq<BufferedWriteView>,
    /// The conflict records of optimistic mode.
    pub observed: Seq<ConflictRecordView>,
    /// The savepoints, the most recent last.
    pub savepoints: Seq<Savepoint>,
    /// The time at which the transaction began.
    pub started: u64,
    pub options: TransactionOptions,
}

/// A transaction, the database and a result after one step.
pub struct Outcome<R> {
    pub txn: TransactionView,
    pub db: DatabaseView,
    pub result: R,
}

/// The transaction has outlived its configured lifetime at time `now`.
pub open spec fn expired(t: TransactionView, now: u64) -> bool {
    t.options.expiration matches Some(limit) && now >= t.started && now - t.started >= limit
}

/// The transaction once it is over: nothing pending, nothing recorded, no
/// savepoint, no snapshot.
pub open spec fn ended(t: TransactionView, state: State) -> TransactionView {
    TransactionView {
        state,
        snapshot: None,
        writes: Seq::empty(),
        observed: Seq::empty(),
        savepoints: Seq::empty(),
        ..t
    }
}

/// The database once the transaction has let go of it: its locks and its
/// wait are gone, and its snapshot is released once.
pub open spec fn released(d: DatabaseView, t: TransactionView) -> DatabaseView {
    DatabaseView {
        locks: after_release(d.locks, t.id, 0),
        storage: StorageView {
            snapshots: match t.snapshot {
                Some(seq) => d.storage.snapshots.remove_value(seq),
                None => d.storage.snapshots,
            },
            ..d.storage
        },
        ..d
    }
}

/// The sequence number at which the transaction observes a key now: that
/// of its snapshot, or the latest.
pub open spec fn observation_point(t: TransactionView, d: DatabaseView) -> u64 {
    match t.snapshot {
        Some(seq) => seq,
        None => d.storage.log.len() as u64,
    }
}

/// The sequence number at which a read reads: that of the snapshot of its
/// options, else that of the transaction's snapshot, else the latest.
pub open spec fn read_point(t: TransactionView, d: DatabaseView, requested: Option<u64>) -> u64 {
    match requested {
        Some(seq) => seq,
        None => observation_point(t, d),
    }
}

/// What a request for a lock that ended in `outcome` returns.
pub open spec fn lock_result(outcome: LockOutcome) -> Result<(), Error> {
    match outcome {
        LockOutcome::Granted => Ok(()),
        LockOutcome::Waiting => Err(Error::LockWait),
        LockOutcome::TimedOut => Err(Error::LockTimeout),
        LockOutcome::Deadlock => Err(Error::Deadlock),
    }
}

/// Registering an intent on `(cf, key)` with the conflict detector. A
/// transaction that is over refuses; one that has expired ends, rolled
/// back. In optimistic mode the key is recorded with the sequence number
/// at which it is observed. In pessimistic mode the lock is asked for.
pub open spec fn register(
    t: TransactionView,
    d: DatabaseView,
    cf: u32,
    key: Seq<u8>,
    exclusive: bool,
) -> Outcome<Result<(), Error>> {
    if t.state != State::Active {
        Outcome { txn: t, db: d, result: Err(Error::InvalidState) }
    } else if expired(t, d.clock) {
        Outcome { txn: ended(t, State::RolledBack), db: released(d, t), result: Err(Error::Expired) }
    } else {
        match t.mode {
            ConcurrencyControl::Optimistic => Outcome {
                txn: TransactionView {
                    observed: after_track(t.observed, cf, key, observation_point(t, d)),
                    ..t
                },
                db: d,
                result: Ok(()),
            },
            ConcurrencyControl::Pessimistic => {
                let r = LockRequest { txn: t.id, cf, key, exclusive };
                Outcome {
                    txn: t,
                    db: DatabaseView {
                        locks: after_request(
                            d.locks,
                            r,
                            t.options.lock_timeout,
                            t.options.deadlock_detect,
                            d.clock,
                        ),
                        ..d
                    },
                    result: lock_result(
                        decide(
                            d.locks,
                            r,
                            t.options.lock_timeout,
                            t.options.deadlock_detect,
                            d.clock,
                        ),
                    ),
                }
            },
        }
    }
}

/// A write: the intent is registered, exclusive, and where that succeeds
/// the write goes to the end of the buffer.
pub open spec fn write_step(t: TransactionView, d: DatabaseView, w: BufferedWriteView) -> Outcome<
    Result<(), Error>,
> {
    let registered = register(t, d, w.cf, w.key, true);
    if registered.result is Ok {
        Outcome {
            txn: TransactionView { writes: registered.txn.writes.push(w), ..registered.txn },
            db: registered.db,
            result: Ok(()),
        }
    } else {
        registered
    }
}

/// A read at sequence number `seq`: the pending operation of the key
/// decides, and only a key without one is looked up in the store.
pub open spec fn read(t: TransactionView, d: DatabaseView, cf: u32, key: Seq<u8>, seq: u64) -> Result<
    Option<Seq<u8>>,
    Error,
> {
    if t.state != State::Active {
        Err(Error::InvalidState)
    } else {
        match pending(t.writes, cf, key) {
            Some(WriteOpView::Put(v)) => Ok(Some(v)),
            Some(WriteOpView::Delete) => Ok(None),
            Some(WriteOpView::Merge(_)) => Err(Error::MergeInProgress),
            None => Ok(value_at(d.storage.log, cf, key, seq as int)),
        }
    }
}

/// The value of `(cf, key)` in the merged view of the transaction at
/// sequence number `seq`: what the pending operation of the key makes of
/// the value that the store holds, and that value where nothing is
/// pending.
pub open spec fn visible(t: TransactionView, d: DatabaseView, cf: u32, key: Seq<u8>, seq: u64) -> Option<
    Seq<u8>,
> {
    let base = value_at(d.storage.log, cf, key, seq as int);
    match pending(t.writes, cf, key) {
        Some(op) => effect(op, base),
        None => base,
    }
}

/// A read for update: the intent is registered, and where that succeeds
/// the key is read.
pub open spec fn read_for_update(
    t: TransactionView,
    d: DatabaseView,
    cf: u32,
    key: Seq<u8>,
    exclusive: bool,
    requested: Option<u64>,
) -> Outcome<Result<Option<Seq<u8>>, Error>> {
    let registered = register(t, d, cf, key, exclusive);
    Outcome {
        txn: registered.txn,
        db: registered.db,
        result: match registered.result {
            Ok(_) => read(
                registered.txn,
                registered.db,
                cf,
                key,
                read_point(registered.txn, registered.db, requested),
            ),
            Err(e) => Err(e),
        },
    }
}

/// A commit. A transaction that is over refuses. One that has expired
/// ends, rolled back. One whose records do not validate stays as it is,
/// and so does the store. One for whose writes the store has no room
/// ends, rolled back, with the store's error. Otherwise the buffer is
/// committed in one step, the transaction lets go of the database and
/// ends, committed.
pub open spec fn commit_step(t: TransactionView, d: DatabaseView) -> Outcome<Result<(), Error>> {
    if t.state != State::Active {
        Outcome { txn: t, db: d, result: Err(Error::InvalidState) }
    } else if expired(t, d.clock) {
        Outcome { txn: ended(t, State::RolledBack), db: released(d, t), result: Err(Error::Expired) }
    } else if validation(t.observed, d.storage) is Err {
        Outcome { txn: t, db: d, result: validation(t.observed, d.storage) }
    } else if !has_room(d.storage, t.writes) {
        Outcome {
            txn: ended(t, State::RolledBack),
            db: released(d, t),
            result: Err(Error::Storage(StorageError::NoSpace)),
        }
    } else {
        Outcome {
            txn: ended(t, State::Committed),
            db: released(
                DatabaseView {
                    storage: StorageView {
                        log: applied(d.storage.log, t.writes, t.writes.len() as int),
                        ..d.storage
                    },
                    ..d
                },
                t,
            ),
            result: Ok(()),
        }
    }
}

/// A rollback: the transaction lets go of the database and ends, rolled
/// back; the store is as it was.
pub open spec fn rollback_step(t: TransactionView, d: DatabaseView) -> Outcome<Result<(), Error>> {
    if t.state != State::Active {
        Outcome { txn: t, db: d, result: Err(Error::InvalidState) }
    } else {
        Outcome { txn: ended(t, State::RolledBack), db: released(d, t), result: Ok(()) }
    }
}

/// Setting a savepoint: it records the length of the buffer and the number
/// of locks that the transaction holds.
pub open spec fn set_savepoint_step(t: TransactionView, d: DatabaseView) -> Outcome<
    Result<(), Error>,
> {
    if t.state != State::Active {
        Outcome { txn: t, db: d, result: Err(Error::InvalidState) }
    } else {
        Outcome {
            txn: TransactionView {
                savepoints: t.savepoints.push(
                    Savepoint {
                        writes: t.writes.len() as usize,
                        locks: count_owned(d.locks.held, t.id) as usize,
                    },
                ),
                ..t
            },
            db: d,
            result: Ok(()),
        }
    }
}

/// The buffer cut back to `len` entries.
pub open spec fn cut(writes: Seq<BufferedWriteView>, len: usize) -> Seq<BufferedWriteView> {
    if len <= writes.len() {
        writes.take(len as int)
    } else {
        writes
    }
}

/// Rolling back to the most recent savepoint: the savepoint is consumed,
/// the buffer is cut back to its length, and the locks that the
/// transaction got after it are given up.
pub open spec fn rollback_to_savepoint_step(t: TransactionView, d: DatabaseView) -> Outcome<
    Result<(), Error>,
> {
    if t.state != State::Active {
        Outcome { txn: t, db: d, result: Err(Error::InvalidState) }
    } else if t.savepoints.len() == 0 {
        Outcome { txn: t, db: d, result: Err(Error::NoSavepoint) }
    } else {
        let sp = t.savepoints.last();
        Outcome {
            txn: TransactionView {
                writes: cut(t.writes, sp.writes),
                savepoints: t.savepoints.drop_last(),
                ..t
            },
            db: DatabaseView { locks: after_release(d.locks, t.id, sp.locks as nat), ..d },
            result: Ok(()),
        }
    }
}

/// The beginning of a transaction: it gets the next identifier, the
/// present time as its start and, where asked for, a snapshot of the
/// latest state. Without an identifier left there is no transaction.
pub open spec fn begin_step(
    d: DatabaseView,
    mode: ConcurrencyControl,
    options: TransactionOptions,
) -> (Option<TransactionView>, DatabaseView) {
    if d.next_id == u64::MAX {
        (None, d)
    } else {
        let seq = d.storage.log.len() as u64;
        (
            Some(
                TransactionView {
                    id: d.next_id,
                    mode,
                    state: State::Active,
                    snapshot: if options.set_snapshot {
                        Some(seq)
                    } else {
                        None
                    },
                    writes: Seq::empty(),
                    observed: Seq::empty(),
                    savepoints: Seq::empty(),
                    started: d.clock,
                    options,
                },
            ),
            DatabaseView {
                next_id: (d.next_id + 1) as u64,
                storage: if options.set_snapshot {
                    StorageView { snapshots: d.storage.snapshots.push(seq), ..d.storage }
                } else {
                    d.storage
                },
                ..d
            },
        )
    }
}

/// The cursor that a transaction opens on column family `cf` with
/// `options`: it goes through the merged view at the sequence number at
/// which a read with these options reads, within their bounds; it seeks by
/// prefix where they ask for it and do not ask for total order; it stands
/// on nothing.
pub open spec fn opened(
    t: TransactionView,
    d: DatabaseView,
    cf: u32,
    options: ReadOptions,
) -> RawIteratorView {
    RawIteratorView {
        scan: ScanView {
            txn: t,
            db: d,
            cf,
            seq: read_point(t, d, options.snapshot@),
            lower: opt_bytes(options.iterate_lower_bound),
            upper: opt_bytes(options.iterate_upper_bound),
            prefix: None,
        },
        prefix_seek: options.prefix_same_as_start && !options.total_order_seek,
        current: None,
    }
}

/// The cursor that a transaction opens on column family `cf` without
/// options of the caller's: no bounds, the transaction's own read point.
pub open spec fn opened_plain(
    t: TransactionView,
    d: DatabaseView,
    cf: u32,
    prefix_seek: bool,
) -> RawIteratorView {
    RawIteratorView {
        scan: ScanView {
            txn: t,
            db: d,
            cf,
            seq: read_point(t, d, None),
            lower: None,
            upper: None,
            prefix: None,
        },
        prefix_seek,
        current: None,
    }
}

/// What the result of a read stands for.
pub open spec fn value_view(r: Result<Option<Vec<u8>>, Error>) -> Result<Option<Seq<u8>>, Error> {
    match r {
        Ok(v) => Ok(opt_bytes(v)),
        Err(e) => Err(e),
    }
}

/// What an optional transaction stands for.
pub open spec fn opt_view(t: Option<Transaction>) -> Option<TransactionView> {
    match t {
        Some(x) => Some(x@),
        None => None,
    }
}

/// A transaction.
pub struct Transaction {
    id: u64,
    mode: ConcurrencyControl,
    state: State,
    snapshot: Snapshot,
    buffer: WriteBuffer,
    tracker: ConflictTracker,
    savepoints: Vec<Savepoint>,
    started: u64,
    options: TransactionOptions,
}

impl View for Transaction {
    type V = TransactionView;

    closed spec fn view(&self) -> TransactionView {
        TransactionView {
            id: self.id,
            mode: self.mode,
            state: self.state,
            snapshot: self.snapshot@,
            writes: self.buffer@,
            observed: self.tracker@,
            savepoints: self.savepoints@,
            started: self.started,
            options: self.options,
        }
    }
}

impl Transaction {
    /// Begins a transaction on `db`.
    pub fn begin(db: &mut Database, mode: ConcurrencyControl, options: &TransactionOptions) -> (t:
        Option<Transaction>)
        ensures
            (opt_view(t), final(db)@) == begin_step(old(db)@, mode, *options),
    {
        let id = match db.allocate_id() {
            Some(id) => id,
            None => {
                return None;
            },
        };
        let snapshot = if options.set_snapshot {
            db.create_snapshot()
        } else {
            Snapshot::none()
        };
        let t = Transaction {
            id,
            mode,
            state: State::Active,
            snapshot,
            buffer: WriteBuffer::new(),
            tracker: ConflictTracker::new(),
            savepoints: Vec::new(),
            started: db.now(),
            options: *options,
        };
        assert(t@.savepoints =~= Seq::empty());
        Some(t)
    }

    /// The transaction's identifier.
    pub fn id(&self) -> (id: u64)
        ensures
            id == self@.id,
    {
        self.id
    }

    /// Where the transaction is in its life.
    pub fn state(&self) -> (s: State)
        ensures
            s == self@.state,
    {
        self.state
    }

    /// The transaction's mode of concurrency control.
    pub fn mode(&self) -> (m: ConcurrencyControl)
        ensures
            m == self@.mode,
    {
        self.mode
    }

    /// The number of pending writes.
    pub fn pending_writes(&self) -> (n: usize)
        ensures
            n == self@.writes.len(),
    {
        self.buffer.len()
    }

    /// The number of savepoints that are set.
    pub fn savepoint_count(&self) -> (n: usize)
        ensures
            n == self@.savepoints.len(),
    {
        self.savepoints.len()
    }

    /// The transaction's snapshot: the token that it took when it began,
    /// or the token that fixes nothing.
    pub fn snapshot(&self) -> (s: Snapshot)
        ensures
            s@ == self@.snapshot,
    {
        self.snapshot
    }

    /// Whether the transaction has outlived its lifetime at time `now`.
    pub fn is_expired(&self, now: u64) -> (r: bool)
        ensures
            r == expired(self@, now),
    {
        match self.options.expiration {
            Some(limit) => now >= self.started && now - self.started >= limit,
            None => false,
        }
    }

    fn end(&mut self, db: &mut Database, state: State)
        ensures
            final(self)@ == ended(old(self)@, state),
            final(db)@ == released(old(db)@, old(self)@),
    {
        db.release_locks(self.id, 0);
        db.release_snapshot(&self.snapshot);
        self.snapshot = Snapshot::none();
        self.buffer.clear();
        self.tracker.clear();
        self.savepoints.clear();
        self.state = state;
        assert(self@.savepoints =~= Seq::empty());
    }

    fn register(&mut self, db: &mut Database, cf: u32, key: &[u8], exclusive: bool) -> (r: Result<
        (),
        Error,
    >)
        ensures
            (Outcome { txn: final(self)@, db: final(db)@, result: r }) == register(
                old(self)@,
                old(db)@,
                cf,
                key@,
                exclusive,
            ),
    {
        match self.state {
            State::Active => {},
            _ => {
                return Err(Error::InvalidState);
            },
        }
        if self.is_expired(db.now()) {
            self.end(db, State::RolledBack);
            return Err(Error::Expired);
        }
        match self.mode {
            ConcurrencyControl::Optimistic => {
                let seq = match self.snapshot.sequence() {
                    Some(seq) => seq,
                    None => db.storage().last_seq(),
                };
                self.tracker.track(cf, key, seq);
                Ok(())
            },
            ConcurrencyControl::Pessimistic => {
                let outcome = db.acquire_lock(
                    self.id,
                    cf,
                    key,
                    exclusive,
                    self.options.lock_timeout,
                    self.options.deadlock_detect,
                );
                match outcome {
                    LockOutcome::Granted => Ok(()),
                    LockOutcome::Waiting => Err(Error::LockWait),
                    LockOutcome::TimedOut => Err(Error::LockTimeout),
                    LockOutcome::Deadlock => Err(Error::Deadlock),
                }
            },
        }
    }

    fn read_at(&self, db: &Database, cf: u32, key: &[u8], seq: u64) -> (r: Result<
        Option<Vec<u8>>,
        Error,
    >)
        ensures
            value_view(r) == read(self@, db@, cf, key@, seq),
    {
        match self.state {
            State::Active => {},
            _ => {
                return Err(Error::InvalidState);
            },
        }
        match self.buffer.get(cf, key) {
            Some(WriteOp::Put(v)) => Ok(Some(to_vec(v.as_slice()))),
            Some(WriteOp::Delete) => Ok(None),
            Some(WriteOp::Merge(_)) => Err(Error::MergeInProgress),
            None => Ok(db.storage().get_at(cf, key, seq)),
        }
    }

    /// The write buffer.
    pub fn write_buffer(&self) -> (b: &WriteBuffer)
        ensures
            b@ == self@.writes,
    {
        &self.buffer
    }

    /// The value of `(cf, key)` in the merged view of the transaction at
    /// sequence number `seq`.
    pub fn visible_value(&self, db: &Database, cf: u32, key: &[u8], seq: u64) -> (value: Option<
        Vec<u8>,
    >)
        ensures
            opt_bytes(value) == visible(self@, db@, cf, key@, seq),
    {
        match self.buffer.get(cf, key) {
            Some(WriteOp::Put(v)) => Some(to_vec(v.as_slice())),
            Some(WriteOp::Delete) => None,
            Some(WriteOp::Merge(operand)) => match db.storage().get_at(cf, key, seq) {
                Some(base) => Some(join(base.as_slice(), operand.as_slice())),
                None => Some(to_vec(operand.as_slice())),
            },
            None => db.storage().get_at(cf, key, seq),
        }
    }

    /// The sequence number at which a read with `options` reads.
    pub fn read_point(&self, db: &Database, options: &ReadOptions) -> (seq: u64)
        ensures
            seq == read_point(self@, db@, options.snapshot@),
    {
        match options.snapshot.sequence() {
            Some(seq) => seq,
            None => match self.snapshot.sequence() {
                Some(seq) => seq,
                None => db.storage().last_seq(),
            },
        }
    }

    /// Reads `key` in the default column family, as the transaction sees
    /// it.
    pub fn get(&self, db: &Database, key: &[u8]) -> (r: Result<Option<Vec<u8>>, Error>)
        ensures
            value_view(r) == read(
                self@,
                db@,
                DEFAULT_COLUMN_FAMILY,
                key@,
                read_point(self@, db@, None),
            ),
    {
        self.get_cf_opt(db, DEFAULT_COLUMN_FAMILY, key, &ReadOptions::default())
    }

    /// Reads `key` in column family `cf`, as the transaction sees it.
    pub fn get_cf(&self, db: &Database, cf: u32, key: &[u8]) -> (r: Result<Option<Vec<u8>>, Error>)
        ensures
            value_view(r) == read(self@, db@, cf, key@, read_point(self@, db@, None)),
    {
        self.get_cf_opt(db, cf, key, &ReadOptions::default())
    }

    /// Reads `key` in the default column family with read options.
    pub fn get_opt(&self, db: &Database, key: &[u8], options: &ReadOptions) -> (r: Result<
        Option<Vec<u8>>,
        Error,
    >)
        ensures
            value_view(r) == read(
                self@,
                db@,
                DEFAULT_COLUMN_FAMILY,
                key@,
                read_point(self@, db@, options.snapshot@),
            ),
    {
        self.get_cf_opt(db, DEFAULT_COLUMN_FAMILY, key, options)
    }

    /// Reads `key` in column family `cf` with read options. The pending
    /// operation of the key decides: a pending value is read, a pending
    /// deletion reads as absent, a pending merge is `MergeInProgress`.
    /// Only a key without one is read from the store, at the snapshot of
    /// the options, else of the transaction, else at the latest state.
    pub fn get_cf_opt(&self, db: &Database, cf: u32, key: &[u8], options: &ReadOptions) -> (r:
        Result<Option<Vec<u8>>, Error>)
        ensures
            value_view(r) == read(self@, db@, cf, key@, read_point(self@, db@, options.snapshot@)),
    {
        let seq = self.read_point(db, options);
        self.read_at(db, cf, key, seq)
    }

    /// Reads `key` in the default column family and registers the read
    /// with the conflict detector.
    pub fn get_for_update(&mut self, db: &mut Database, key: &[u8], exclusive: bool) -> (r: Result<
        Option<Vec<u8>>,
        Error,
    >)
        ensures
            (Outcome { txn: final(self)@, db: final(db)@, result: value_view(r) })
                == read_for_update(
                old(self)@,
                old(db)@,
                DEFAULT_COLUMN_FAMILY,
                key@,
                exclusive,
                None,
            ),
    {
        self.get_for_update_cf_opt(db, DEFAULT_COLUMN_FAMILY, key, exclusive, &ReadOptions::default())
    }

    /// Reads `key` in column family `cf` and registers the read with the
    /// conflict detector.
    pub fn get_for_update_cf(
        &mut self,
        db: &mut Database,
        cf: u32,
        key: &[u8],
        exclusive: bool,
    ) -> (r: Result<Option<Vec<u8>>, Error>)
        ensures
            (Outcome { txn: final(self)@, db: final(db)@, result: value_view(r) })
                == read_for_update(old(self)@, old(db)@, cf, key@, exclusive, None),
    {
        self.get_for_update_cf_opt(db, cf, key, exclusive, &ReadOptions::default())
    }

    /// Reads `key` in the default column family with read options and
    /// registers the read with the conflict detector.
    pub fn get_for_update_opt(
        &mut self,
        db: &mut Database,
        key: &[u8],
        exclusive: bool,
        options: &ReadOptions,
    ) -> (r: Result<Option<Vec<u8>>, Error>)
        ensures
            (Outcome { txn: final(self)@, db: final(db)@, result: value_view(r) })
                == read_for_update(
                old(self)@,
                old(db)@,
                DEFAULT_COLUMN_FAMILY,
                key@,
                exclusive,
                options.snapshot@,
            ),
    {
        self.get_for_update_cf_opt(db, DEFAULT_COLUMN_FAMILY, key, exclusive, options)
    }

    /// Reads `key` in column family `cf` with read options and registers
    /// the read with the conflict detector: in optimistic mode the key is
    /// recorded for validation at commit; in pessimistic mode the lock is
    /// asked for, shared or exclusive, and the read is made only once it
    /// is held.
    pub fn get_for_update_cf_opt(
        &mut self,
        db: &mut Database,
        cf: u32,
        key: &[u8],
        exclusive: bool,
        options: &ReadOptions,
    ) -> (r: Result<Option<Vec<u8>>, Error>)
        ensures
            (Outcome { txn: final(self)@, db: final(db)@, result: value_view(r) })
                == read_for_update(old(self)@, old(db)@, cf, key@, exclusive, options.snapshot@),
    {
        match self.register(db, cf, key, exclusive) {
            Ok(_) => {
                let seq = self.read_point(db, options);
                self.read_at(db, cf, key, seq)
            },
            Err(e) => Err(e),
        }
    }

    /// Puts `value` at `key` in the default column family.
    pub fn put(&mut self, db: &mut Database, key: &[u8], value: &[u8]) -> (r: Result<(), Error>)
        ensures
            (Outcome { txn: final(self)@, db: final(db)@, result: r }) == write_step(
                old(self)@,
                old(db)@,
                BufferedWriteView {
                    cf: DEFAULT_COLUMN_FAMILY,
                    key: key@,
                    op: WriteOpView::Put(value@),
                },
            ),
    {
        self.put_cf(db, DEFAULT_COLUMN_FAMILY, key, value)
    }

    /// Puts `value` at `key` in column family `cf`: the write is
    /// registered with the conflict detector and, where that succeeds,
    /// becomes the pending operation of the key.
    pub fn put_cf(&mut self, db: &mut Database, cf: u32, key: &[u8], value: &[u8]) -> (r: Result<
        (),
        Error,
    >)
        ensures
            (Outcome { txn: final(self)@, db: final(db)@, result: r }) == write_step(
                old(self)@,
                old(db)@,
                BufferedWriteView { cf, key: key@, op: WriteOpView::Put(value@) },
            ),
    {
        match self.register(db, cf, key, true) {
            Ok(_) => {
                self.buffer.put(cf, key, value);
                Ok(())
            },
            Err(e) => Err(e),
        }
    }

    /// Merges `operand` into `key` in the default column family.
    pub fn merge(&mut self, db: &mut Database, key: &[u8], operand: &[u8]) -> (r: Result<(), Error>)
        ensures
            (Outcome { txn: final(self)@, db: final(db)@, result: r }) == write_step(
                old(self)@,
                old(db)@,
                BufferedWriteView {
                    cf: DEFAULT_COLUMN_FAMILY,
                    key: key@,
                    op: WriteOpView::Merge(operand@),
                },
            ),
    {
        self.merge_cf(db, DEFAULT_COLUMN_FAMILY, key, operand)
    }

    /// Merges `operand` into `key` in column family `cf`: the write is
    /// registered with the conflict detector and, where that succeeds,
    /// becomes the pending operation of the key.
    pub fn merge_cf(&mut self, db: &mut Database, cf: u32, key: &[u8], operand: &[u8]) -> (r:
        Result<(), Error>)
        ensures
            (Outcome { txn: final(self)@, db: final(db)@, result: r }) == write_step(
                old(self)@,
                old(db)@,
                BufferedWriteView { cf, key: key@, op: WriteOpView::Merge(operand@) },
            ),
    {
        match self.register(db, cf, key, true) {
            Ok(_) => {
                self.buffer.merge(cf, key, operand);
                Ok(())
            },
            Err(e) => Err(e),
        }
    }

    /// Deletes `key` in the default column family.
    pub fn delete(&mut self, db: &mut Database, key: &[u8]) -> (r: Result<(), Error>)
        ensures
            (Outcome { txn: final(self)@, db: final(db)@, result: r }) == write_step(
                old(self)@,
                old(db)@,
                BufferedWriteView { cf: DEFAULT_COLUMN_FAMILY, key: key@, op: WriteOpView::Delete },
            ),
    {
        self.delete_cf(db, DEFAULT_COLUMN_FAMILY, key)
    }

    /// Deletes `key` in column family `cf`: the write is registered with
    /// the conflict detector and, where that succeeds, becomes the pending
    /// operation of the key.
    pub fn delete_cf(&mut self, db: &mut Database, cf: u32, key: &[u8]) -> (r: Result<(), Error>)
        ensures
            (Outcome { txn: final(self)@, db: final(db)@, result: r }) == write_step(
                old(self)@,
                old(db)@,
                BufferedWriteView { cf, key: key@, op: WriteOpView::Delete },
            ),
    {
        match self.register(db, cf, key, true) {
            Ok(_) => {
                self.buffer.delete(cf, key);
                Ok(())
            },
            Err(e) => Err(e),
        }
    }

    /// Commits the transaction: its pending writes reach the store in one
    /// step, or none does. A commit that fails for a conflict leaves the
    /// transaction active; expiry and a failure of the store end it.
    pub fn commit(&mut self, db: &mut Database) -> (r: Result<(), Error>)
        ensures
            (Outcome { txn: final(self)@, db: final(db)@, result: r }) == commit_step(
                old(self)@,
                old(db)@,
            ),
    {
        match self.state {
            State::Active => {},
            _ => {
                return Err(Error::InvalidState);
            },
        }
        if self.is_expired(db.now()) {
            self.end(db, State::RolledBack);
            return Err(Error::Expired);
        }
        match self.tracker.validate(db.storage()) {
            Ok(_) => {},
            Err(e) => {
                return Err(e);
            },
        }
        match db.write(&self.buffer) {
            Ok(_) => {
                self.end(db, State::Committed);
                Ok(())
            },
            Err(e) => {
                self.end(db, State::RolledBack);
                Err(Error::Storage(e))
            },
        }
    }

    /// Rolls the transaction back: its pending writes are dropped.
    pub fn rollback(&mut self, db: &mut Database) -> (r: Result<(), Error>)
        ensures
            (Outcome { txn: final(self)@, db: final(db)@, result: r }) == rollback_step(
                old(self)@,
                old(db)@,
            ),
    {
        match self.state {
            State::Active => {},
            _ => {
                return Err(Error::InvalidState);
            },
        }
        self.end(db, State::RolledBack);
        Ok(())
    }

    /// Sets a savepoint.
    pub fn set_savepoint(&mut self, db: &Database) -> (r: Result<(), Error>)
        ensures
            (Outcome { txn: final(self)@, db: db@, result: r }) == set_savepoint_step(
                old(self)@,
                db@,
            ),
    {
        match self.state {
            State::Active => {},
            _ => {
                return Err(Error::InvalidState);
            },
        }
        let sp = Savepoint { writes: self.buffer.len(), locks: db.locks().count(self.id) };
        self.savepoints.push(sp);
        Ok(())
    }

    /// Rolls back to the most recent savepoint and removes it.
    pub fn rollback_to_savepoint(&mut self, db: &mut Database) -> (r: Result<(), Error>)
        ensures
            (Outcome { txn: final(self)@, db: final(db)@, result: r })
                == rollback_to_savepoint_step(old(self)@, old(db)@),
    {
        match self.state {
            State::Active => {},
            _ => {
                return Err(Error::InvalidState);
            },
        }
        match self.savepoints.pop() {
            None => Err(Error::NoSavepoint),
            Some(sp) => {
                self.buffer.truncate(sp.writes);
                db.release_locks(self.id, sp.locks);
                Ok(())
            },
        }
    }

    /// An iterator over the default column family, started in `mode`.
    pub fn iterator<'a>(&'a self, db: &'a Database, mode: IteratorMode<'_>) -> (it:
        TransactionIterator<'a>)
        ensures
            started(opened_plain(self@, db@, DEFAULT_COLUMN_FAMILY, false), mode@, it@),
    {
        let readopts = ReadOptions::default();
        self.iterator_opt(db, mode, readopts)
    }

    /// An iterator over the default column family with read options,
    /// started in `mode`.
    pub fn iterator_opt<'a>(
        &'a self,
        db: &'a Database,
        mode: IteratorMode<'_>,
        readopts: ReadOptions,
    ) -> (it: TransactionIterator<'a>)
        ensures
            started(opened(self@, db@, DEFAULT_COLUMN_FAMILY, readopts), mode@, it@),
    {
        self.iterator_cf_opt(db, DEFAULT_COLUMN_FAMILY, readopts, mode)
    }

    /// An iterator over column family `cf` with read options, started in
    /// `mode`.
    pub fn iterator_cf_opt<'a>(
        &'a self,
        db: &'a Database,
        cf: u32,
        readopts: ReadOptions,
        mode: IteratorMode<'_>,
    ) -> (it: TransactionIterator<'a>)
        ensures
            started(opened(self@, db@, cf, readopts), mode@, it@),
    {
        TransactionIterator::new(self.raw_iterator_cf_opt(db, cf, readopts), mode)
    }

    /// An iterator over the default column family that goes through every
    /// key in order, started in `mode`.
    pub fn full_iterator<'a>(&'a self, db: &'a Database, mode: IteratorMode<'_>) -> (it:
        TransactionIterator<'a>)
        ensures
            started(opened_plain(self@, db@, DEFAULT_COLUMN_FAMILY, false), mode@, it@),
    {
        let mut opts = ReadOptions::default();
        opts.set_total_order_seek(true);
        self.iterator_cf_opt(db, DEFAULT_COLUMN_FAMILY, opts, mode)
    }

    /// An iterator over the keys of the default column family that begin
    /// with `prefix`, from the first of them forward.
    pub fn prefix_iterator<'a>(&'a self, db: &'a Database, prefix: &[u8]) -> (it:
        TransactionIterator<'a>)
        ensures
            started(
                opened_plain(self@, db@, DEFAULT_COLUMN_FAMILY, true),
                IteratorModeView::From(prefix@, Direction::Forward),
                it@,
            ),
    {
        let mut opts = ReadOptions::default();
        opts.set_prefix_same_as_start(true);
        self.iterator_cf_opt(
            db,
            DEFAULT_COLUMN_FAMILY,
            opts,
            IteratorMode::From(prefix, Direction::Forward),
        )
    }

    /// An iterator over column family `cf`, started in `mode`.
    pub fn iterator_cf<'a>(&'a self, db: &'a Database, cf: u32, mode: IteratorMode<'_>) -> (it:
        TransactionIterator<'a>)
        ensures
            started(opened_plain(self@, db@, cf, false), mode@, it@),
    {
        let opts = ReadOptions::default();
        self.iterator_cf_opt(db, cf, opts, mode)
    }

    /// An iterator over column family `cf` that goes through every key in
    /// order, started in `mode`.
    pub fn full_iterator_cf<'a>(
        &'a self,
        db: &'a Database,
        cf: u32,
        mode: IteratorMode<'_>,
    ) -> (it: TransactionIterator<'a>)
        ensures
            started(opened_plain(self@, db@, cf, false), mode@, it@),
    {
        let mut opts = ReadOptions::default();
        opts.set_total_order_seek(true);
        self.iterator_cf_opt(db, cf, opts, mode)
    }

    /// An iterator over the keys of column family `cf` that begin with
    /// `prefix`, from the first of them forward.
    pub fn prefix_iterator_cf<'a>(&'a self, db: &'a Database, cf: u32, prefix: &[u8]) -> (it:
        TransactionIterator<'a>)
        ensures
            started(
                opened_plain(self@, db@, cf, true),
                IteratorModeView::From(prefix@, Direction::Forward),
                it@,
            ),
    {
        let mut opts = ReadOptions::default();
        opts.set_prefix_same_as_start(true);
        self.iterator_cf_opt(db, cf, opts, IteratorMode::From(prefix, Direction::Forward))
    }

    /// A cursor over the default column family.
    pub fn raw_iterator<'a>(&'a self, db: &'a Database) -> (it: RawIterator<'a>)
        ensures
            it@ == opened_plain(self@, db@, DEFAULT_COLUMN_FAMILY, false),
    {
        let opts = ReadOptions::default();
        self.raw_iterator_cf_opt(db, DEFAULT_COLUMN_FAMILY, opts)
    }

    /// A cursor over column family `cf`.
    pub fn raw_iterator_cf<'a>(&'a self, db: &'a Database, cf: u32) -> (it: RawIterator<'a>)
        ensures
            it@ == opened_plain(self@, db@, cf, false),
    {
        let opts = ReadOptions::default();
        self.raw_iterator_cf_opt(db, cf, opts)
    }

    /// A cursor over the default column family with read options.
    pub fn raw_iterator_opt<'a>(&'a self, db: &'a Database, readopts: ReadOptions) -> (it:
        RawIterator<'a>)
        ensures
            it@ == opened(self@, db@, DEFAULT_COLUMN_FAMILY, readopts),
    {
        self.raw_iterator_cf_opt(db, DEFAULT_COLUMN_FAMILY, readopts)
    }

    /// A cursor over column family `cf` with read options.
    pub fn raw_iterator_cf_opt<'a>(&'a self, db: &'a Database, cf: u32, readopts: ReadOptions) -> (it:
        RawIterator<'a>)
        ensures
            it@ == opened(self@, db@, cf, readopts),
    {
        let seq = self.read_point(db, &readopts);
        let prefix_seek = readopts.prefix_same_as_start && !readopts.total_order_seek;
        let ReadOptions { iterate_lower_bound, iterate_upper_bound, .. } = readopts;
        RawIterator::new(self, db, cf, seq, iterate_lower_bound, iterate_upper_bound, prefix_seek)
    }
}

} // verus!
