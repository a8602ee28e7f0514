//! The committed store: an append-only history of versions, read at the
//! latest sequence number or at the sequence number of a snapshot.

use vstd::prelude::*;
use crate::bytes::{bytes_eq, join, opt_bytes, to_vec};
use crate::error::StorageError;
use crate::write_buffer::{
    lemma_pending_entry, pending, superseded, BufferedWriteView, WriteBuffer, WriteOp, WriteOpView,
};

verus! {

/// One committed write. The write at position `i` of the history carries
/// sequence number `i + 1`. A `value` of `None` is a deletion.
#[derive(Debug)]
pub struct Version {
    pub cf: u32,
    pub key: Vec<u8>,
    pub value: Option<Vec<u8>>,
}

/// What a [`Version`] stands for.
pub struct VersionView {
    pub cf: u32,
    pub key: Seq<u8>,
    pub value: Option<Seq<u8>>,
}

impl View for Version {
    type V = VersionView;

    open spec fn view(&self) -> VersionView {
        VersionView { cf: self.cf, key: self.key@, value: opt_bytes(self.value) }
    }
}

/// A read-version token: the sequence number whose state reads see, or
/// nothing, in which case reads see the latest state.
#[derive(Clone, Copy, Debug)]
pub struct Snapshot {
    seq: Option<u64>,
}

impl View for Snapshot {
    type V = Option<u64>;

    closed spec fn view(&self) -> Option<u64> {
        self.seq
    }
}

impl Snapshot {
    /// The token that fixes nothing.
    pub fn none() -> (s: Snapshot)
        ensures
            s@ is None,
    {
        Snapshot { seq: None }
    }

    /// The token that fixes reads at `seq`.
    pub fn at(seq: u64) -> (s: Snapshot)
        ensures
            s@ == Some(seq),
    {
        Snapshot { seq: Some(seq) }
    }

    /// The sequence number that the token fixes, if any.
    pub fn sequence(&self) -> (seq: Option<u64>)
        ensures
            seq == self@,
    {
        self.seq
    }
}

/// `seq` brought into the range of sequence numbers of a history of `len`
/// writes.
pub open spec fn clip(len: nat, seq: int) -> int {
    if seq < 0 {
        0
    } else if seq > len {
        len as int
    } else {
        seq
    }
}

/// The sequence number of the last write to `(cf, key)` among the first
/// `upto` writes of `log`; 0 where there is none.
pub open spec fn last_write(log: Seq<VersionView>, cf: u32, key: Seq<u8>, upto: int) -> int
    decreases upto,
{
    if upto <= 0 || upto > log.len() {
        0
    } else if log[upto - 1].cf == cf && log[upto - 1].key == key {
        upto
    } else {
        last_write(log, cf, key, upto - 1)
    }
}

/// The version of `(cf, key)` that a read at sequence number `seq` sees.
pub open spec fn version_at(log: Seq<VersionView>, cf: u32, key: Seq<u8>, seq: int) -> int {
    last_write(log, cf, key, clip(log.len(), seq))
}

/// The value of `(cf, key)` that a read at sequence number `seq` sees.
pub open spec fn value_at(log: Seq<VersionView>, cf: u32, key: Seq<u8>, seq: int) -> Option<
    Seq<u8>,
> {
    let n = version_at(log, cf, key, seq);
    if n == 0 {
        None
    } else {
        log[n - 1].value
    }
}

/// The latest committed value of `(cf, key)`.
pub open spec fn latest_value(log: Seq<VersionView>, cf: u32, key: Seq<u8>) -> Option<Seq<u8>> {
    value_at(log, cf, key, log.len() as int)
}

/// What the store's merge rule makes of an operand: the operand is appended
/// to the value that is there, and stands alone where there is none.
pub open spec fn merged(existing: Option<Seq<u8>>, operand: Seq<u8>) -> Seq<u8> {
    match existing {
        Some(v) => v + operand,
        None => operand,
    }
}

/// What a key holds once `op` has been applied to a key that held `base`.
pub open spec fn effect(op: WriteOpView, base: Option<Seq<u8>>) -> Option<Seq<u8>> {
    match op {
        WriteOpView::Put(v) => Some(v),
        WriteOpView::Delete => None,
        WriteOpView::Merge(operand) => Some(merged(base, operand)),
    }
}

/// The committed write that the pending write `w` becomes on top of `log`.
pub open spec fn resolved(log: Seq<VersionView>, w: BufferedWriteView) -> VersionView {
    VersionView { cf: w.cf, key: w.key, value: effect(w.op, latest_value(log, w.cf, w.key)) }
}

/// The history once the first `n` entries of a batch have been gone
/// through: the last entry for each key is committed, in the order of the
/// batch, and an entry that a later one supersedes is passed over.
pub open spec fn applied(log: Seq<VersionView>, writes: Seq<BufferedWriteView>, n: int) -> Seq<
    VersionView,
>
    decreases n,
{
    if n <= 0 {
        log
    } else {
        let before = applied(log, writes, n - 1);
        if superseded(writes, n - 1) {
            before
        } else {
            before.push(resolved(before, writes[n - 1]))
        }
    }
}

/// `last_write` names a matching write, and no later one matches.
pub proof fn lemma_last_write(log: Seq<VersionView>, cf: u32, key: Seq<u8>, upto: int)
    requires
        0 <= upto <= log.len(),
    ensures
        0 <= last_write(log, cf, key, upto) <= upto,
        last_write(log, cf, key, upto) > 0 ==> {
            let n = last_write(log, cf, key, upto);
            log[n - 1].cf == cf && log[n - 1].key == key
        },
        forall|j: int|
            last_write(log, cf, key, upto) <= j < upto ==> !(#[trigger] log[j].cf == cf && log[j].key
                == key),
    decreases upto,
{
    if upto > 0 && !(log[upto - 1].cf == cf && log[upto - 1].key == key) {
        lemma_last_write(log, cf, key, upto - 1);
    }
}

/// A history that only grew answers reads of its old part as before.
pub proof fn lemma_last_write_prefix(
    old_log: Seq<VersionView>,
    new_log: Seq<VersionView>,
    cf: u32,
    key: Seq<u8>,
    upto: int,
)
    requires
        old_log.is_prefix_of(new_log),
        0 <= upto <= old_log.len(),
    ensures
        last_write(new_log, cf, key, upto) == last_write(old_log, cf, key, upto),
    decreases upto,
{
    if upto > 0 {
        assert(new_log[upto - 1] == old_log[upto - 1]);
        lemma_last_write_prefix(old_log, new_log, cf, key, upto - 1);
    }
}

/// A snapshot read is not touched by later writes.
pub proof fn lemma_snapshot_read_stable(
    old_log: Seq<VersionView>,
    new_log: Seq<VersionView>,
    cf: u32,
    key: Seq<u8>,
    seq: int,
)
    requires
        old_log.is_prefix_of(new_log),
        seq <= old_log.len(),
    ensures
        value_at(new_log, cf, key, seq) == value_at(old_log, cf, key, seq),
        version_at(new_log, cf, key, seq) == version_at(old_log, cf, key, seq),
{
    let n = clip(old_log.len(), seq);
    lemma_last_write_prefix(old_log, new_log, cf, key, n);
    lemma_last_write(old_log, cf, key, n);
}

/// What one write does to a read of the latest state: the written key reads
/// as written, every other key as before.
pub proof fn lemma_write_effect(log: Seq<VersionView>, v: VersionView, cf: u32, key: Seq<u8>)
    ensures
        latest_value(log.push(v), cf, key) == if v.cf == cf && v.key == key {
            v.value
        } else {
            latest_value(log, cf, key)
        },
        version_at(log.push(v), cf, key, log.len() as int + 1) == if v.cf == cf && v.key == key {
            log.len() as int + 1
        } else {
            version_at(log, cf, key, log.len() as int)
        },
{
    let new_log = log.push(v);
    assert(log.is_prefix_of(new_log));
    if !(v.cf == cf && v.key == key) {
        lemma_last_write_prefix(log, new_log, cf, key, log.len() as int);
        lemma_last_write(log, cf, key, log.len() as int);
    }
}

/// Going through a batch only adds to the history.
pub proof fn lemma_applied_extends(log: Seq<VersionView>, writes: Seq<BufferedWriteView>, n: int)
    ensures
        log.is_prefix_of(applied(log, writes, n)),
    decreases n,
{
    if n > 0 {
        lemma_applied_extends(log, writes, n - 1);
    }
}

proof fn lemma_applied_key(
    log: Seq<VersionView>,
    writes: Seq<BufferedWriteView>,
    n: int,
    cf: u32,
    key: Seq<u8>,
)
    requires
        0 <= n <= writes.len(),
    ensures
        forall|i: int|
            0 <= i < n && (#[trigger] writes[i]).cf == cf && writes[i].key == key && !superseded(
                writes,
                i,
            ) ==> latest_value(applied(log, writes, n), cf, key) == effect(
                writes[i].op,
                latest_value(log, cf, key),
            ),
        (forall|i: int|
            0 <= i < n && (#[trigger] writes[i]).cf == cf && writes[i].key == key ==> superseded(
                writes,
                i,
            )) ==> latest_value(applied(log, writes, n), cf, key) == latest_value(log, cf, key),
    decreases n,
{
    if n > 0 {
        lemma_applied_key(log, writes, n - 1, cf, key);
        let before = applied(log, writes, n - 1);
        let w = writes[n - 1];
        if !superseded(writes, n - 1) {
            lemma_write_effect(before, resolved(before, w), cf, key);
            if w.cf == cf && w.key == key {
                assert forall|i: int|
                    0 <= i < n - 1 && (#[trigger] writes[i]).cf == cf && writes[i].key
                        == key implies superseded(writes, i) by {
                    assert(writes[n - 1].cf == writes[i].cf);
                }
            }
        }
    }
}

/// What committing a batch does to the latest state: a key with a pending
/// operation holds what that operation makes of the value it held, and
/// every other key holds what it held.
pub proof fn lemma_applied_effect(
    log: Seq<VersionView>,
    writes: Seq<BufferedWriteView>,
    cf: u32,
    key: Seq<u8>,
)
    ensures
        latest_value(applied(log, writes, writes.len() as int), cf, key) == match pending(
            writes,
            cf,
            key,
        ) {
            Some(op) => effect(op, latest_value(log, cf, key)),
            None => latest_value(log, cf, key),
        },
{
    lemma_pending_entry(writes, cf, key);
    lemma_applied_key(log, writes, writes.len() as int, cf, key);
}

proof fn lemma_applied_version_key(
    log: Seq<VersionView>,
    writes: Seq<BufferedWriteView>,
    n: int,
    cf: u32,
    key: Seq<u8>,
)
    requires
        0 <= n <= writes.len(),
    ensures
        log.len() <= applied(log, writes, n).len(),
        (exists|i: int|
            0 <= i < n && (#[trigger] writes[i]).cf == cf && writes[i].key == key && !superseded(
                writes,
                i,
            )) ==> version_at(
            applied(log, writes, n),
            cf,
            key,
            applied(log, writes, n).len() as int,
        ) > log.len(),
        (forall|i: int|
            0 <= i < n && (#[trigger] writes[i]).cf == cf && writes[i].key == key ==> superseded(
                writes,
                i,
            )) ==> version_at(
            applied(log, writes, n),
            cf,
            key,
            applied(log, writes, n).len() as int,
        ) == version_at(log, cf, key, log.len() as int),
    decreases n,
{
    if n > 0 {
        lemma_applied_version_key(log, writes, n - 1, cf, key);
        let before = applied(log, writes, n - 1);
        let w = writes[n - 1];
        if !superseded(writes, n - 1) {
            lemma_write_effect(before, resolved(before, w), cf, key);
            if !(w.cf == cf && w.key == key) {
                if exists|i: int|
                    0 <= i < n && (#[trigger] writes[i]).cf == cf && writes[i].key == key
                        && !superseded(writes, i) {
                    let i = choose|i: int|
                        0 <= i < n && (#[trigger] writes[i]).cf == cf && writes[i].key == key
                            && !superseded(writes, i);
                    assert(i < n - 1);
                }
            }
        } else {
            if exists|i: int|
                0 <= i < n && (#[trigger] writes[i]).cf == cf && writes[i].key == key
                    && !superseded(writes, i) {
                let i = choose|i: int|
                    0 <= i < n && (#[trigger] writes[i]).cf == cf && writes[i].key == key
                        && !superseded(writes, i);
                assert(i < n - 1);
            }
        }
    }
}

/// What committing a batch does to the versions: a key with a pending
/// operation gets a version later than all that were there, and every
/// other key keeps its version.
pub proof fn lemma_applied_version(
    log: Seq<VersionView>,
    writes: Seq<BufferedWriteView>,
    cf: u32,
    key: Seq<u8>,
)
    ensures
        ({
            let after = applied(log, writes, writes.len() as int);
            if pending(writes, cf, key) is Some {
                version_at(after, cf, key, after.len() as int) > log.len()
            } else {
                version_at(after, cf, key, after.len() as int) == version_at(
                    log,
                    cf,
                    key,
                    log.len() as int,
                )
            }
        }),
{
    lemma_pending_entry(writes, cf, key);
    lemma_applied_version_key(log, writes, writes.len() as int, cf, key);
}

/// What the store holds.
pub struct StorageView {
    /// The committed writes, oldest first.
    pub log: Seq<VersionView>,
    /// The first sequence number from which the change history is still
    /// kept for comparison.
    pub history_floor: u64,
    /// The sequence numbers of the snapshots that are out, one entry for
    /// each acquisition that was not released.
    pub snapshots: Seq<u64>,
    /// The largest number of committed writes that the store keeps.
    pub capacity: usize,
}

/// The store has room for one more write.
pub open spec fn has_room_for_one(s: StorageView) -> bool {
    s.log.len() < s.capacity
}

/// The store has room for the batch.
pub open spec fn has_room(s: StorageView, writes: Seq<BufferedWriteView>) -> bool {
    applied(s.log, writes, writes.len() as int).len() <= s.capacity
}

/// The store after an attempt to commit `v`: with `v` as its latest write
/// where it has room, and as it was where it has none.
pub open spec fn stored(s: StorageView, v: VersionView) -> StorageView {
    if has_room_for_one(s) {
        StorageView { log: s.log.push(v), ..s }
    } else {
        s
    }
}

/// The store after an attempt to commit a batch: with the whole batch
/// where it has room for it, and as it was where it has not.
pub open spec fn written(s: StorageView, writes: Seq<BufferedWriteView>) -> StorageView {
    if has_room(s, writes) {
        StorageView { log: applied(s.log, writes, writes.len() as int), ..s }
    } else {
        s
    }
}

/// What an attempt to write returns.
pub open spec fn room_result(room: bool) -> Result<(), StorageError> {
    if room {
        Ok(())
    } else {
        Err(StorageError::NoSpace)
    }
}

/// The committed store.
pub struct Storage {
    log: Vec<Version>,
    floor: u64,
    snapshots: Vec<u64>,
    capacity: usize,
}

impl View for Storage {
    type V = StorageView;

    closed spec fn view(&self) -> StorageView {
        StorageView {
            log: self.log@.map_values(|v: Version| v@),
            history_floor: self.floor,
            snapshots: self.snapshots@,
            capacity: self.capacity,
        }
    }
}

impl Storage {
    /// An empty store that keeps as many writes as the machine can count.
    pub fn new() -> (s: Storage)
        ensures
            s@.log.len() == 0,
            s@.history_floor == 0,
            s@.snapshots.len() == 0,
            s@.capacity == usize::MAX,
    {
        Storage { log: Vec::new(), floor: 0, snapshots: Vec::new(), capacity: usize::MAX }
    }

    /// An empty store that keeps at most `capacity` writes.
    pub fn with_capacity(capacity: usize) -> (s: Storage)
        ensures
            s@.log.len() == 0,
            s@.history_floor == 0,
            s@.snapshots.len() == 0,
            s@.capacity == capacity,
    {
        Storage { log: Vec::new(), floor: 0, snapshots: Vec::new(), capacity }
    }

    /// The largest number of committed writes that the store keeps.
    pub fn capacity(&self) -> (n: usize)
        ensures
            n == self@.capacity,
    {
        self.capacity
    }

    /// The number of committed writes.
    pub fn len(&self) -> (n: usize)
        ensures
            n == self@.log.len(),
    {
        self.log.len()
    }

    /// The sequence number of the latest committed write; 0 for an empty
    /// store.
    pub fn last_seq(&self) -> (seq: u64)
        ensures
            seq == self@.log.len(),
    {
        self.log.len() as u64
    }

    /// The committed write at position `i`.
    pub fn version(&self, i: usize) -> (v: &Version)
        requires
            i < self@.log.len(),
        ensures
            v@ == self@.log[i as int],
    {
        &self.log[i]
    }

    /// How many of the writes a read at `seq` sees.
    pub fn visible_len(&self, seq: u64) -> (n: usize)
        ensures
            n == clip(self@.log.len(), seq as int),
    {
        if seq >= self.log.len() as u64 {
            self.log.len()
        } else {
            seq as usize
        }
    }

    fn find_last(&self, cf: u32, key: &[u8], seq: u64) -> (n: usize)
        ensures
            n == version_at(self@.log, cf, key@, seq as int),
            n <= self@.log.len(),
            n > 0 ==> self@.log[n - 1].cf == cf && self@.log[n - 1].key == key@,
    {
        let mut i: usize = self.visible_len(seq);
        proof {
            lemma_last_write(self@.log, cf, key@, i as int);
        }
        while i > 0
            invariant
                i <= self.log@.len(),
                last_write(self@.log, cf, key@, i as int) == version_at(
                    self@.log,
                    cf,
                    key@,
                    seq as int,
                ),
            decreases i,
        {
            let v = &self.log[i - 1];
            assert(v@ == self@.log[i - 1]);
            if v.cf == cf && bytes_eq(v.key.as_slice(), key) {
                return i;
            }
            i -= 1;
        }
        0
    }

    /// The sequence number of the last write to `(cf, key)` that a read at
    /// `seq` sees; 0 where it sees none.
    pub fn version_at(&self, cf: u32, key: &[u8], seq: u64) -> (n: u64)
        ensures
            n == version_at(self@.log, cf, key@, seq as int),
    {
        self.find_last(cf, key, seq) as u64
    }

    /// The sequence number of the last committed write to `(cf, key)`.
    pub fn latest_version(&self, cf: u32, key: &[u8]) -> (n: u64)
        ensures
            n == version_at(self@.log, cf, key@, self@.log.len() as int),
    {
        let seq = self.last_seq();
        self.version_at(cf, key, seq)
    }

    /// The value of `(cf, key)` as a read at `seq` sees it.
    pub fn get_at(&self, cf: u32, key: &[u8], seq: u64) -> (value: Option<Vec<u8>>)
        ensures
            opt_bytes(value) == value_at(self@.log, cf, key@, seq as int),
    {
        let n = self.find_last(cf, key, seq);
        if n == 0 {
            None
        } else {
            let v = &self.log[n - 1];
            assert(v@ == self@.log[n - 1]);
            match &v.value {
                Some(bytes) => Some(to_vec(bytes.as_slice())),
                None => None,
            }
        }
    }

    /// The latest committed value of `(cf, key)`.
    pub fn get(&self, cf: u32, key: &[u8]) -> (value: Option<Vec<u8>>)
        ensures
            opt_bytes(value) == latest_value(self@.log, cf, key@),
    {
        let seq = self.last_seq();
        self.get_at(cf, key, seq)
    }

    /// Commits one write of `value` to `(cf, key)`, where the store has
    /// room.
    pub fn put(&mut self, cf: u32, key: &[u8], value: &[u8]) -> (r: Result<(), StorageError>)
        ensures
            r == room_result(has_room_for_one(old(self)@)),
            final(self)@ == stored(
                old(self)@,
                VersionView { cf, key: key@, value: Some(value@) },
            ),
    {
        if self.log.len() >= self.capacity {
            return Err(StorageError::NoSpace);
        }
        let v = Version { cf, key: to_vec(key), value: Some(to_vec(value)) };
        self.append(v);
        Ok(())
    }

    /// Commits one deletion of `(cf, key)`, where the store has room.
    pub fn delete(&mut self, cf: u32, key: &[u8]) -> (r: Result<(), StorageError>)
        ensures
            r == room_result(has_room_for_one(old(self)@)),
            final(self)@ == stored(old(self)@, VersionView { cf, key: key@, value: None }),
    {
        if self.log.len() >= self.capacity {
            return Err(StorageError::NoSpace);
        }
        let v = Version { cf, key: to_vec(key), value: None };
        self.append(v);
        Ok(())
    }

    /// Commits one merge of `operand` into `(cf, key)`, where the store
    /// has room: the key then holds what the merge rule makes of its
    /// latest value and the operand.
    pub fn merge(&mut self, cf: u32, key: &[u8], operand: &[u8]) -> (r: Result<(), StorageError>)
        ensures
            r == room_result(has_room_for_one(old(self)@)),
            final(self)@ == stored(
                old(self)@,
                VersionView {
                    cf,
                    key: key@,
                    value: Some(merged(latest_value(old(self)@.log, cf, key@), operand@)),
                },
            ),
    {
        if self.log.len() >= self.capacity {
            return Err(StorageError::NoSpace);
        }
        self.append_merge(cf, key, operand);
        Ok(())
    }

    fn append_merge(&mut self, cf: u32, key: &[u8], operand: &[u8])
        ensures
            final(self)@ == (StorageView {
                log: old(self)@.log.push(
                    VersionView {
                        cf,
                        key: key@,
                        value: Some(merged(latest_value(old(self)@.log, cf, key@), operand@)),
                    },
                ),
                ..old(self)@
            }),
    {
        let value = match self.get(cf, key) {
            Some(existing) => join(existing.as_slice(), operand),
            None => to_vec(operand),
        };
        let v = Version { cf, key: to_vec(key), value: Some(value) };
        self.append(v);
    }

    /// Commits a batch in one step, where the store has room for all of
    /// it: for each key the last entry of the batch is committed, in the
    /// order of the batch. Where the store has not, nothing is committed.
    pub fn write(&mut self, batch: &WriteBuffer) -> (r: Result<(), StorageError>)
        ensures
            r == room_result(has_room(old(self)@, batch@)),
            final(self)@ == written(old(self)@, batch@),
    {
        let n = batch.len();
        let mut count: usize = 0;
        let mut k: usize = 0;
        while k < n
            invariant
                k <= n,
                n == batch@.len(),
                count <= k,
                count == applied(self@.log, batch@, k as int).len() - self@.log.len(),
            decreases n - k,
        {
            if !batch.is_superseded(k) {
                count += 1;
            }
            k += 1;
        }
        if self.log.len() > self.capacity || count > self.capacity - self.log.len() {
            return Err(StorageError::NoSpace);
        }
        let mut i: usize = 0;
        while i < n
            invariant
                i <= n,
                n == batch@.len(),
                self@ == (StorageView {
                    log: applied(old(self)@.log, batch@, i as int),
                    ..old(self)@
                }),
            decreases n - i,
        {
            if !batch.is_superseded(i) {
                let w = batch.entry(i);
                match &w.op {
                    WriteOp::Put(value) => {
                        let v = Version {
                            cf: w.cf,
                            key: to_vec(w.key.as_slice()),
                            value: Some(to_vec(value.as_slice())),
                        };
                        self.append(v);
                    },
                    WriteOp::Delete => {
                        let v = Version { cf: w.cf, key: to_vec(w.key.as_slice()), value: None };
                        self.append(v);
                    },
                    WriteOp::Merge(operand) => self.append_merge(
                        w.cf,
                        w.key.as_slice(),
                        operand.as_slice(),
                    ),
                }
            }
            i += 1;
        }
        Ok(())
    }

    fn append(&mut self, v: Version)
        ensures
            final(self)@ == (StorageView { log: old(self)@.log.push(v@), ..old(self)@ }),
    {
        self.log.push(v);
        assert(self@.log =~= old(self)@.log.push(v@));
    }

    /// Acquires a snapshot of the latest state and records it as out.
    pub fn create_snapshot(&mut self) -> (s: Snapshot)
        ensures
            s@ == Some(old(self)@.log.len() as u64),
            final(self)@ == (StorageView {
                snapshots: old(self)@.snapshots.push(old(self)@.log.len() as u64),
                ..old(self)@
            }),
    {
        let seq = self.last_seq();
        self.snapshots.push(seq);
        Snapshot { seq: Some(seq) }
    }

    /// Releases one acquisition of `s`. A token that fixes nothing, or one
    /// that is not out, releases nothing.
    pub fn release_snapshot(&mut self, s: &Snapshot)
        ensures
            final(self)@ == (StorageView {
                snapshots: match s@ {
                    Some(seq) => old(self)@.snapshots.remove_value(seq),
                    None => old(self)@.snapshots,
                },
                ..old(self)@
            }),
    {
        if let Some(seq) = s.seq {
            let mut i: usize = 0;
            while i < self.snapshots.len()
                invariant
                    i <= self.snapshots@.len(),
                    *self == *old(self),
                    s@ == Some(seq),
                    forall|j: int| 0 <= j < i ==> self.snapshots@[j] != seq,
                decreases self.snapshots@.len() - i,
            {
                if self.snapshots[i] == seq {
                    proof {
                        self.snapshots@.index_of_first_ensures(seq);
                        assert(self.snapshots@[i as int] == seq);
                        assert(self.snapshots@.contains(seq));
                        assert(self.snapshots@.index_of_first(seq) == Some(i as int));
                    }
                    self.snapshots.remove(i);
                    return ;
                }
                i += 1;
            }
            proof {
                self.snapshots@.index_of_first_ensures(seq);
            }
        }
    }

    /// How many snapshots are out.
    pub fn live_snapshots(&self) -> (n: usize)
        ensures
            n == self@.snapshots.len(),
    {
        self.snapshots.len()
    }

    /// The first sequence number from which the change history is kept.
    pub fn history_floor(&self) -> (floor: u64)
        ensures
            floor == self@.history_floor,
    {
        self.floor
    }

    /// Gives up the change history before sequence number `before`. The
    /// floor never moves back, nor past the latest write.
    pub fn discard_history(&mut self, before: u64)
        ensures
            final(self)@ == (StorageView {
                history_floor: {
                    let target = if before > old(self)@.log.len() {
                        old(self)@.log.len() as u64
                    } else {
                        before
                    };
                    if target > old(self)@.history_floor {
                        target
                    } else {
                        old(self)@.history_floor
                    }
                },
                ..old(self)@
            }),
    {
        let last = self.last_seq();
        let target = if before > last {
            last
        } else {
            before
        };
        if target > self.floor {
            self.floor = target;
        }
    }
}

} // verus!
