//! What holds of every run of a transaction: the operations as steps on
//! the model, runs of steps, and the laws that the steps obey.

use vstd::prelude::*;
use crate::database::DatabaseView;
use crate::error::{Error, StorageError};
use crate::lock_table::{
    blocked, conflicts, count_owned, covers, exclusion_holds, holds, keep_first,
    lemma_owned_len, lemma_owned_members, lemma_owned_push, lemma_release_keeps_exclusion,
    lemma_release_keeps_first, lemma_release_spares_others, lemma_release_subset,
    lemma_release_undoes_grants, lemma_request_keeps_exclusion, lemma_without_waiter, owned_by,
    wait_start, without_waiter, LockRequest, LockTableView, LockView, WaiterView,
};
use crate::optimistic::{overwritten, validation};
use crate::storage::{
    applied, effect, has_room, latest_value, lemma_applied_effect, lemma_applied_extends,
    lemma_applied_version, lemma_snapshot_read_stable, value_at,
};
use crate::options::{ConcurrencyControl, TransactionOptions};
use crate::transaction::{
    begin_step, commit_step, expired, read, read_for_update, read_point, register, rollback_step,
    rollback_to_savepoint_step, set_savepoint_step, write_step, Outcome, State, TransactionView,
};
use crate::write_buffer::{lemma_pending_push, pending, BufferedWriteView, WriteOpView};

verus! {

/// An operation of a transaction that changes the transaction or the
/// database.
pub enum Op {
    Put { cf: u32, key: Seq<u8>, value: Seq<u8> },
    Delete { cf: u32, key: Seq<u8> },
    Merge { cf: u32, key: Seq<u8>, operand: Seq<u8> },
    GetForUpdate { cf: u32, key: Seq<u8>, exclusive: bool },
    SetSavepoint,
    RollbackToSavepoint,
    Commit,
    Rollback,
}

/// The pending write that a writing operation makes.
pub open spec fn write_of(op: Op) -> Option<BufferedWriteView> {
    match op {
        Op::Put { cf, key, value } => Some(
            BufferedWriteView { cf, key, op: WriteOpView::Put(value) },
        ),
        Op::Delete { cf, key } => Some(BufferedWriteView { cf, key, op: WriteOpView::Delete }),
        Op::Merge { cf, key, operand } => Some(
            BufferedWriteView { cf, key, op: WriteOpView::Merge(operand) },
        ),
        _ => None,
    }
}

/// One operation as a step.
pub open spec fn step(t: TransactionView, d: DatabaseView, op: Op) -> Outcome<Result<(), Error>> {
    match op {
        Op::GetForUpdate { cf, key, exclusive } => register(t, d, cf, key, exclusive),
        Op::SetSavepoint => set_savepoint_step(t, d),
        Op::RollbackToSavepoint => rollback_to_savepoint_step(t, d),
        Op::Commit => commit_step(t, d),
        Op::Rollback => rollback_step(t, d),
        _ => write_step(t, d, write_of(op)->0),
    }
}

/// A run of operations, one step after the other. The result is that of
/// the last step.
pub open spec fn run(t: TransactionView, d: DatabaseView, ops: Seq<Op>) -> Outcome<
    Result<(), Error>,
>
    decreases ops.len(),
{
    if ops.len() == 0 {
        Outcome { txn: t, db: d, result: Ok(()) }
    } else {
        let before = run(t, d, ops.drop_last());
        step(before.txn, before.db, ops.last())
    }
}

/// What a read returns for a key whose pending operation is `op`.
pub open spec fn net_effect(op: WriteOpView) -> Result<Option<Seq<u8>>, Error> {
    match op {
        WriteOpView::Put(v) => Ok(Some(v)),
        WriteOpView::Delete => Ok(None),
        WriteOpView::Merge(_) => Err(Error::MergeInProgress),
    }
}

/// A transaction that is over stays as it is, whatever is asked of it.
pub proof fn lemma_over_is_over(t: TransactionView, d: DatabaseView, op: Op)
    requires
        t.state != State::Active,
    ensures
        step(t, d, op).txn == t,
        step(t, d, op).db == d,
        step(t, d, op).result == Err::<(), Error>(Error::InvalidState),
{
}

/// A second commit signals `InvalidState`: a commit that succeeded leaves
/// the transaction committed, and every later commit is refused and
/// changes nothing.
pub proof fn lemma_commit_once(t: TransactionView, d: DatabaseView, later: DatabaseView)
    requires
        commit_step(t, d).result is Ok,
    ensures
        commit_step(t, d).txn.state == State::Committed,
        commit_step(commit_step(t, d).txn, later).result == Err::<(), Error>(Error::InvalidState),
        commit_step(commit_step(t, d).txn, later).db == later,
        commit_step(commit_step(t, d).txn, later).txn == commit_step(t, d).txn,
{
}

/// Only a commit writes to the store: every other step leaves the
/// committed history and its floor as they were.
pub proof fn lemma_step_leaves_store(t: TransactionView, d: DatabaseView, op: Op)
    requires
        !(op is Commit),
    ensures
        step(t, d, op).db.storage.log == d.storage.log,
        step(t, d, op).db.storage.history_floor == d.storage.history_floor,
{
}

/// A run without a commit leaves the committed history as it was.
pub proof fn lemma_run_leaves_store(t: TransactionView, d: DatabaseView, ops: Seq<Op>)
    requires
        forall|i: int| 0 <= i < ops.len() ==> !(#[trigger] ops[i] is Commit),
    ensures
        run(t, d, ops).db.storage.log == d.storage.log,
        run(t, d, ops).db.storage.history_floor == d.storage.history_floor,
    decreases ops.len(),
{
    if ops.len() > 0 {
        let head = ops.drop_last();
        assert forall|i: int| 0 <= i < head.len() implies !(#[trigger] head[i] is Commit) by {
            assert(head[i] == ops[i]);
        }
        lemma_run_leaves_store(t, d, head);
        assert(ops.last() == ops[ops.len() - 1]);
        lemma_step_leaves_store(run(t, d, head).txn, run(t, d, head).db, ops.last());
    }
}

/// A transaction that is rolled back leaves the committed state as it was
/// before the transaction began, whatever it did in between short of a
/// commit.
pub proof fn lemma_rollback_restores_store(
    d: DatabaseView,
    mode: ConcurrencyControl,
    options: TransactionOptions,
    ops: Seq<Op>,
)
    requires
        begin_step(d, mode, options).0 is Some,
        forall|i: int| 0 <= i < ops.len() ==> !(#[trigger] ops[i] is Commit),
    ensures
        ({
            let (t, d0) = begin_step(d, mode, options);
            let end = run(t->0, d0, ops.push(Op::Rollback));
            &&& end.db.storage.log == d.storage.log
            &&& end.db.storage.history_floor == d.storage.history_floor
            &&& end.txn.state != State::Active
            &&& end.txn.state != State::Committed
        }),
{
    let (t, d0) = begin_step(d, mode, options);
    let all = ops.push(Op::Rollback);
    assert forall|i: int| 0 <= i < all.len() implies !(#[trigger] all[i] is Commit) by {
        if i < ops.len() {
            assert(all[i] == ops[i]);
        }
    }
    lemma_run_leaves_store(t->0, d0, all);
    assert(all.drop_last() =~= ops);
    lemma_run_never_commits(t->0, d0, ops);
}

/// A run without a commit does not leave the transaction committed.
pub proof fn lemma_run_never_commits(t: TransactionView, d: DatabaseView, ops: Seq<Op>)
    requires
        t.state != State::Committed,
        forall|i: int| 0 <= i < ops.len() ==> !(#[trigger] ops[i] is Commit),
    ensures
        run(t, d, ops).txn.state != State::Committed,
    decreases ops.len(),
{
    if ops.len() > 0 {
        let head = ops.drop_last();
        assert forall|i: int| 0 <= i < head.len() implies !(#[trigger] head[i] is Commit) by {
            assert(head[i] == ops[i]);
        }
        lemma_run_never_commits(t, d, head);
        assert(ops.last() == ops[ops.len() - 1]);
    }
}

/// A transaction reads its own writes: after a write that succeeded, a
/// read of the key returns what the write makes of it, whatever the store
/// holds.
pub proof fn lemma_read_own_write(
    t: TransactionView,
    d: DatabaseView,
    w: BufferedWriteView,
    any: DatabaseView,
    seq: u64,
)
    requires
        write_step(t, d, w).result is Ok,
    ensures
        read(write_step(t, d, w).txn, any, w.cf, w.key, seq) == net_effect(w.op),
{
    lemma_pending_push(register(t, d, w.cf, w.key, true).txn.writes, w, w.cf, w.key);
}

/// What a write step leaves behind: where it succeeds the transaction is
/// active and has the write at the end of its buffer; where it fails the
/// buffer is as it was, unless the transaction is over.
pub proof fn lemma_write_step(t: TransactionView, d: DatabaseView, w: BufferedWriteView)
    ensures
        ({
            let o = write_step(t, d, w);
            &&& o.result is Ok ==> o.txn.state == State::Active && o.txn.writes == t.writes.push(w)
            &&& o.result is Err && o.txn.state == State::Active ==> o.txn.writes == t.writes
            &&& o.txn.state == State::Active ==> t.state == State::Active
        }),
{
}

/// The operation of the most recent write to `(cf, key)` that succeeded
/// in a run; what was pending before the run where there is none.
pub open spec fn latest_write(
    t: TransactionView,
    d: DatabaseView,
    ops: Seq<Op>,
    cf: u32,
    key: Seq<u8>,
) -> Option<WriteOpView>
    decreases ops.len(),
{
    if ops.len() == 0 {
        pending(t.writes, cf, key)
    } else {
        let before = run(t, d, ops.drop_last());
        match write_of(ops.last()) {
            Some(w) => if w.cf == cf && w.key == key && step(
                before.txn,
                before.db,
                ops.last(),
            ).result is Ok {
                Some(w.op)
            } else {
                latest_write(t, d, ops.drop_last(), cf, key)
            },
            None => latest_write(t, d, ops.drop_last(), cf, key),
        }
    }
}

/// After every run of puts, deletes and merges the pending operation of a
/// key is that of the most recent write to it that succeeded.
pub proof fn lemma_pending_is_latest_write(
    t: TransactionView,
    d: DatabaseView,
    ops: Seq<Op>,
    cf: u32,
    key: Seq<u8>,
)
    requires
        forall|j: int| 0 <= j < ops.len() ==> (#[trigger] write_of(ops[j])) is Some,
        run(t, d, ops).txn.state == State::Active,
    ensures
        pending(run(t, d, ops).txn.writes, cf, key) == latest_write(t, d, ops, cf, key),
    decreases ops.len(),
{
    if ops.len() > 0 {
        let head = ops.drop_last();
        let before = run(t, d, head);
        assert(ops.last() == ops[ops.len() - 1]);
        let w = write_of(ops.last())->0;
        assert(step(before.txn, before.db, ops.last()) == write_step(before.txn, before.db, w));
        lemma_write_step(before.txn, before.db, w);
        assert forall|j: int| 0 <= j < head.len() implies (#[trigger] write_of(head[j])) is Some by {
            assert(head[j] == ops[j]);
        }
        lemma_pending_is_latest_write(t, d, head, cf, key);
        lemma_pending_push(before.txn.writes, w, cf, key);
    }
}

/// Read-your-writes: after every run of puts, deletes and merges, a read
/// of a key that the run wrote returns the net effect of the most recent
/// write to it that succeeded, whatever the store holds.
pub proof fn lemma_read_your_writes(
    t: TransactionView,
    d: DatabaseView,
    ops: Seq<Op>,
    cf: u32,
    key: Seq<u8>,
    any: DatabaseView,
    seq: u64,
)
    requires
        forall|j: int| 0 <= j < ops.len() ==> (#[trigger] write_of(ops[j])) is Some,
        run(t, d, ops).txn.state == State::Active,
        latest_write(t, d, ops, cf, key) is Some,
    ensures
        read(run(t, d, ops).txn, any, cf, key, seq) == net_effect(
            latest_write(t, d, ops, cf, key)->0,
        ),
{
    lemma_pending_is_latest_write(t, d, ops, cf, key);
}

/// The operation reads for update or writes.
pub open spec fn is_access(op: Op) -> bool {
    op is Put || op is Delete || op is Merge || op is GetForUpdate
}

/// What the transaction `t` and the database `d` have become in `o`
/// through reads for update and writes of the transaction alone: the
/// buffer only grew, the savepoints are the same, the store is the same,
/// the locks are those of before and then locks of the transaction, and
/// the waits of the others are the same.
pub open spec fn grew_from(t: TransactionView, d: DatabaseView, o: Outcome<Result<(), Error>>) -> bool {
    &&& o.txn == (TransactionView { writes: o.txn.writes, observed: o.txn.observed, ..t })
    &&& t.writes.is_prefix_of(o.txn.writes)
    &&& o.db == (DatabaseView { locks: o.db.locks, ..d })
    &&& d.locks.held.is_prefix_of(o.db.locks.held)
    &&& forall|i: int|
        d.locks.held.len() <= i < o.db.locks.held.len() ==> (#[trigger] o.db.locks.held[i]).txn
            == t.id
    &&& without_waiter(o.db.locks.waiting, t.id) == without_waiter(d.locks.waiting, t.id)
}

/// A read for update or a write that leaves the transaction active only
/// adds to what was there.
pub proof fn lemma_access_grows(t: TransactionView, d: DatabaseView, op: Op)
    requires
        is_access(op),
        step(t, d, op).txn.state == State::Active,
    ensures
        t.state == State::Active,
        grew_from(t, d, step(t, d, op)),
{
    match op {
        Op::GetForUpdate { cf, key, exclusive } => {
            lemma_register_grows(t, d, cf, key, exclusive);
        },
        _ => {
            let pw = write_of(op)->0;
            lemma_register_grows(t, d, pw.cf, pw.key, true);
        },
    }
}

proof fn lemma_register_grows(
    t: TransactionView,
    d: DatabaseView,
    cf: u32,
    key: Seq<u8>,
    exclusive: bool,
)
    requires
        register(t, d, cf, key, exclusive).txn.state == State::Active,
    ensures
        t.state == State::Active,
        grew_from(t, d, register(t, d, cf, key, exclusive)),
{
    let own = WaiterView {
        txn: t.id,
        cf,
        key,
        exclusive,
        since: wait_start(d.locks.waiting, LockRequest { txn: t.id, cf, key, exclusive }, d.clock),
    };
    lemma_without_waiter(d.locks.waiting, own, t.id);
}

/// A run of reads for update and writes that leaves the transaction
/// active only adds to what was there.
pub proof fn lemma_access_run_grows(t: TransactionView, d: DatabaseView, ops: Seq<Op>)
    requires
        forall|i: int| 0 <= i < ops.len() ==> is_access(#[trigger] ops[i]),
        run(t, d, ops).txn.state == State::Active,
    ensures
        t.state == State::Active,
        grew_from(t, d, run(t, d, ops)),
    decreases ops.len(),
{
    if ops.len() > 0 {
        let head = ops.drop_last();
        let before = run(t, d, head);
        assert(ops.last() == ops[ops.len() - 1]);
        lemma_access_grows(before.txn, before.db, ops.last());
        assert forall|i: int| 0 <= i < head.len() implies is_access(#[trigger] head[i]) by {
            assert(head[i] == ops[i]);
        }
        lemma_access_run_grows(t, d, head);
        let after = run(t, d, ops);
        assert(grew_from(t, d, after)) by {
            assert forall|i: int|
                d.locks.held.len() <= i < after.db.locks.held.len() implies (
            #[trigger] after.db.locks.held[i]).txn == t.id by {
                if i < before.db.locks.held.len() {
                    assert(after.db.locks.held[i] == before.db.locks.held[i]);
                }
            }
        }
    }
}

/// A rollback to a savepoint undoes what the transaction did since the
/// savepoint was set, and nothing else: after a savepoint and any run of
/// reads for update and writes, the rollback leaves the buffer, the
/// savepoints, the store and the locks as they were when the savepoint
/// was set; of the waits only that of the transaction is gone. Where no
/// savepoint was set before, a second rollback finds none.
pub proof fn lemma_savepoint_round_trip(t: TransactionView, d: DatabaseView, ops: Seq<Op>)
    requires
        t.state == State::Active,
        t.writes.len() <= usize::MAX,
        d.locks.held.len() <= usize::MAX,
        forall|i: int| 0 <= i < ops.len() ==> is_access(#[trigger] ops[i]),
        run(set_savepoint_step(t, d).txn, d, ops).txn.state == State::Active,
    ensures
        ({
            let during = run(set_savepoint_step(t, d).txn, d, ops);
            let back = rollback_to_savepoint_step(during.txn, during.db);
            &&& back.result is Ok
            &&& back.txn == (TransactionView { observed: during.txn.observed, ..t })
            &&& back.db == (DatabaseView {
                locks: LockTableView {
                    held: d.locks.held,
                    waiting: without_waiter(d.locks.waiting, t.id),
                },
                ..d
            })
            &&& t.savepoints.len() == 0 ==> rollback_to_savepoint_step(back.txn, back.db).result
                == Err::<(), Error>(Error::NoSavepoint)
        }),
{
    let set = set_savepoint_step(t, d);
    let during = run(set.txn, d, ops);
    lemma_access_run_grows(set.txn, d, ops);
    lemma_count_bounded(d.locks.held, t.id);
    lemma_release_undoes_grants(d.locks.held, during.db.locks.held, t.id);
    assert(set.txn.savepoints.drop_last() =~= t.savepoints);
    assert(during.txn.writes.take(t.writes.len() as int) =~= t.writes);
}

proof fn lemma_count_bounded(held: Seq<LockView>, txn: u64)
    ensures
        count_owned(held, txn) <= held.len(),
    decreases held.len(),
{
    if held.len() > 0 {
        lemma_count_bounded(held.drop_last(), txn);
    }
}

/// In optimistic mode the first committer wins: once a transaction has
/// committed a write to a key, the commit of a live transaction that
/// observed the key before fails with `Conflict` and changes nothing.
pub proof fn lemma_first_committer_wins(
    a: TransactionView,
    b: TransactionView,
    d: DatabaseView,
    i: int,
)
    requires
        commit_step(a, d).result is Ok,
        b.state == State::Active,
        !expired(b, d.clock),
        0 <= i < b.observed.len(),
        b.observed[i].seq <= d.storage.log.len(),
        pending(a.writes, b.observed[i].cf, b.observed[i].key) is Some,
    ensures
        commit_step(b, commit_step(a, d).db).result == Err::<(), Error>(Error::Conflict),
        commit_step(b, commit_step(a, d).db).txn == b,
        commit_step(b, commit_step(a, d).db).db == commit_step(a, d).db,
{
    let after = commit_step(a, d).db;
    lemma_applied_version(d.storage.log, a.writes, b.observed[i].cf, b.observed[i].key);
    assert(overwritten(b.observed[i], after.storage.log));
}

/// In optimistic mode transactions that touch disjoint keys do not
/// disturb each other: where two live transactions both validate, the
/// first writes no key that the second observed, and the store has room
/// for the writes of both, both commits succeed, one after the other.
pub proof fn lemma_disjoint_commits_succeed(a: TransactionView, b: TransactionView, d: DatabaseView)
    requires
        a.state == State::Active,
        b.state == State::Active,
        !expired(a, d.clock),
        !expired(b, d.clock),
        validation(a.observed, d.storage) is Ok,
        validation(b.observed, d.storage) is Ok,
        has_room(d.storage, a.writes),
        has_room(commit_step(a, d).db.storage, b.writes),
        forall|i: int|
            0 <= i < b.observed.len() ==> pending(
                a.writes,
                (#[trigger] b.observed[i]).cf,
                b.observed[i].key,
            ) is None,
    ensures
        commit_step(a, d).result is Ok,
        commit_step(b, commit_step(a, d).db).result is Ok,
{
    let after = commit_step(a, d).db;
    assert forall|i: int| 0 <= i < b.observed.len() implies !overwritten(
        #[trigger] b.observed[i],
        after.storage.log,
    ) by {
        lemma_applied_version(d.storage.log, a.writes, b.observed[i].cf, b.observed[i].key);
        assert(!overwritten(b.observed[i], d.storage.log));
    }
}

/// A commit is all or nothing. Where it succeeds, every key with a
/// pending operation holds what the operation makes of the value it held,
/// every other key holds what it held, and every read at an earlier
/// sequence number is as before. Where it fails, nothing is committed;
/// where it fails for a conflict, nothing has changed at all, and where
/// it fails for expiry or for want of room, the transaction is over.
pub proof fn lemma_commit_all_or_nothing(
    t: TransactionView,
    d: DatabaseView,
    cf: u32,
    key: Seq<u8>,
    seq: int,
)
    requires
        seq <= d.storage.log.len(),
    ensures
        ({
            let o = commit_step(t, d);
            let base = latest_value(d.storage.log, cf, key);
            &&& o.result is Ok ==> latest_value(o.db.storage.log, cf, key) == match pending(
                t.writes,
                cf,
                key,
            ) {
                Some(op) => effect(op, base),
                None => base,
            }
            &&& value_at(o.db.storage.log, cf, key, seq) == value_at(d.storage.log, cf, key, seq)
            &&& o.result is Err ==> o.db.storage.log == d.storage.log
            &&& o.result == Err::<(), Error>(Error::Conflict) || o.result == Err::<(), Error>(
                Error::RetryableConflict,
            ) ==> o.txn == t && o.db == d
            &&& o.result == Err::<(), Error>(Error::Expired) || o.result == Err::<(), Error>(
                Error::Storage(StorageError::NoSpace),
            ) ==> o.txn.state == State::RolledBack
        }),
{
    lemma_applied_effect(d.storage.log, t.writes, cf, key);
    lemma_applied_extends(d.storage.log, t.writes, t.writes.len() as int);
    lemma_snapshot_read_stable(
        d.storage.log,
        applied(d.storage.log, t.writes, t.writes.len() as int),
        cf,
        key,
        seq,
    );
}

/// Reads at a sequence number that has been reached are stable: no step
/// of any transaction changes what they return.
pub proof fn lemma_snapshot_reads_are_stable(
    t: TransactionView,
    d: DatabaseView,
    op: Op,
    cf: u32,
    key: Seq<u8>,
    seq: int,
)
    requires
        seq <= d.storage.log.len(),
    ensures
        value_at(step(t, d, op).db.storage.log, cf, key, seq) == value_at(
            d.storage.log,
            cf,
            key,
            seq,
        ),
{
    if op is Commit {
        lemma_commit_all_or_nothing(t, d, cf, key, seq);
    }
}

/// Snapshot isolation: what a transaction with a snapshot reads is not
/// changed by any step of another transaction, a commit included.
pub proof fn lemma_snapshot_isolates(
    t: TransactionView,
    other: TransactionView,
    d: DatabaseView,
    op: Op,
    cf: u32,
    key: Seq<u8>,
)
    requires
        t.snapshot is Some,
        t.snapshot->0 <= d.storage.log.len(),
    ensures
        read(t, step(other, d, op).db, cf, key, read_point(t, step(other, d, op).db, None)) == read(
            t,
            d,
            cf,
            key,
            read_point(t, d, None),
        ),
{
    lemma_snapshot_reads_are_stable(other, d, op, cf, key, t.snapshot->0 as int);
}

/// Mutual exclusion is kept by every step of every transaction: no key is
/// ever held by two transactions unless both hold it shared.
pub proof fn lemma_step_keeps_exclusion(t: TransactionView, d: DatabaseView, op: Op)
    requires
        exclusion_holds(d.locks.held),
    ensures
        exclusion_holds(step(t, d, op).db.locks.held),
{
    lemma_release_keeps_exclusion(d.locks.held, t.id, 0);
    match op {
        Op::GetForUpdate { cf, key, exclusive } => {
            lemma_register_keeps_exclusion(t, d, cf, key, exclusive);
        },
        Op::RollbackToSavepoint => {
            if t.savepoints.len() > 0 {
                lemma_release_keeps_exclusion(d.locks.held, t.id, t.savepoints.last().locks as nat);
            }
        },
        Op::SetSavepoint | Op::Commit | Op::Rollback => {},
        _ => {
            lemma_register_keeps_exclusion(t, d, write_of(op)->0.cf, write_of(op)->0.key, true);
        },
    }
}

proof fn lemma_register_keeps_exclusion(
    t: TransactionView,
    d: DatabaseView,
    cf: u32,
    key: Seq<u8>,
    exclusive: bool,
)
    requires
        exclusion_holds(d.locks.held),
    ensures
        exclusion_holds(register(t, d, cf, key, exclusive).db.locks.held),
{
    lemma_release_keeps_exclusion(d.locks.held, t.id, 0);
    lemma_request_keeps_exclusion(
        d.locks,
        LockRequest { txn: t.id, cf, key, exclusive },
        t.options.lock_timeout,
        t.options.deadlock_detect,
        d.clock,
    );
}

/// No step of one transaction touches the locks of another.
pub proof fn lemma_step_spares_other_locks(
    t: TransactionView,
    d: DatabaseView,
    op: Op,
    other: u64,
)
    requires
        other != t.id,
    ensures
        owned_by(step(t, d, op).db.locks.held, other) == owned_by(d.locks.held, other),
{
    lemma_release_spares_others(d.locks.held, t.id, 0, other);
    match op {
        Op::GetForUpdate { cf, key, exclusive } => {
            lemma_owned_push(d.locks.held, LockView { txn: t.id, cf, key, exclusive }, other);
        },
        Op::RollbackToSavepoint => {
            if t.savepoints.len() > 0 {
                lemma_release_spares_others(
                    d.locks.held,
                    t.id,
                    t.savepoints.last().locks as nat,
                    other,
                );
            }
        },
        Op::SetSavepoint | Op::Commit | Op::Rollback => {},
        _ => {
            let w = write_of(op)->0;
            lemma_owned_push(
                d.locks.held,
                LockView { txn: t.id, cf: w.cf, key: w.key, exclusive: true },
                other,
            );
        },
    }
}

/// In pessimistic mode a lock that excludes a request keeps the requester
/// out: while another transaction holds the key exclusive, or holds it
/// shared and the request is exclusive, the request of a live transaction
/// is not granted. It waits, times out or is a deadlock; the locks stay as
/// they are, and a write that asked for the lock is not buffered.
pub proof fn lemma_conflicting_lock_blocks(
    t: TransactionView,
    d: DatabaseView,
    cf: u32,
    key: Seq<u8>,
    exclusive: bool,
    li: int,
    op: WriteOpView,
)
    requires
        exclusion_holds(d.locks.held),
        0 <= li < d.locks.held.len(),
        conflicts(d.locks.held[li], LockRequest { txn: t.id, cf, key, exclusive }),
        t.state == State::Active,
        t.mode == ConcurrencyControl::Pessimistic,
        !expired(t, d.clock),
    ensures
        ({
            let o = register(t, d, cf, key, exclusive);
            &&& o.result == Err::<(), Error>(Error::LockWait) || o.result == Err::<(), Error>(
                Error::LockTimeout,
            ) || o.result == Err::<(), Error>(Error::Deadlock)
            &&& o.db.locks.held == d.locks.held
            &&& o.txn == t
            &&& read_for_update(t, d, cf, key, exclusive, None).result is Err
            &&& exclusive ==> write_step(t, d, BufferedWriteView { cf, key, op }) == o
        }),
{
    let r = LockRequest { txn: t.id, cf, key, exclusive };
    if holds(d.locks.held, r) {
        let k = choose|k: int| 0 <= k < d.locks.held.len() && covers(#[trigger] d.locks.held[k], r);
        assert(d.locks.held[k].txn != d.locks.held[li].txn);
    }
}

/// Shared locks share: a shared request of a live transaction for a key
/// that no other transaction holds exclusive is granted at once.
pub proof fn lemma_shared_locks_share(t: TransactionView, d: DatabaseView, cf: u32, key: Seq<u8>)
    requires
        t.state == State::Active,
        t.mode == ConcurrencyControl::Pessimistic,
        !expired(t, d.clock),
        forall|i: int|
            0 <= i < d.locks.held.len() && (#[trigger] d.locks.held[i]).cf == cf
                && d.locks.held[i].key == key && d.locks.held[i].txn != t.id
                ==> !d.locks.held[i].exclusive,
    ensures
        register(t, d, cf, key, false).result is Ok,
        holds(
            register(t, d, cf, key, false).db.locks.held,
            LockRequest { txn: t.id, cf, key, exclusive: false },
        ),
{
    let r = LockRequest { txn: t.id, cf, key, exclusive: false };
    let o = register(t, d, cf, key, false);
    if !holds(d.locks.held, r) {
        assert(covers(o.db.locks.held[d.locks.held.len() as int], r));
    }
}

/// A transaction that ended holds nothing: after its rollback, or its
/// commit, no lock of the transaction is left, and a request of another
/// live transaction for a key that only the two of them held is granted.
pub proof fn lemma_lock_free_after_end(
    first: TransactionView,
    second: TransactionView,
    d: DatabaseView,
    after: DatabaseView,
    cf: u32,
    key: Seq<u8>,
    exclusive: bool,
)
    requires
        first.state == State::Active,
        after == rollback_step(first, d).db || (commit_step(first, d).result is Ok && after
            == commit_step(first, d).db),
        first.id != second.id,
        second.state == State::Active,
        second.mode == ConcurrencyControl::Pessimistic,
        !expired(second, d.clock),
        forall|i: int|
            0 <= i < d.locks.held.len() && (#[trigger] d.locks.held[i]).cf == cf
                && d.locks.held[i].key == key ==> d.locks.held[i].txn == first.id
                || d.locks.held[i].txn == second.id,
    ensures
        ({
            let o = register(second, after, cf, key, exclusive);
            &&& count_owned(after.locks.held, first.id) == 0
            &&& o.result is Ok
            &&& holds(o.db.locks.held, LockRequest { txn: second.id, cf, key, exclusive })
            &&& count_owned(o.db.locks.held, first.id) == 0
        }),
{
    let r = LockRequest { txn: second.id, cf, key, exclusive };
    let kept = after.locks.held;
    assert(kept == keep_first(d.locks.held, first.id, 0));
    lemma_release_keeps_first(d.locks.held, first.id, 0);
    lemma_owned_len(kept, first.id);
    lemma_owned_members(kept, first.id);
    lemma_release_subset(d.locks.held, first.id, 0);
    assert(count_owned(kept, first.id) == 0);
    assert(!blocked(kept, r)) by {
        if blocked(kept, r) {
            let k = choose|k: int| 0 <= k < kept.len() && conflicts(#[trigger] kept[k], r);
            assert(d.locks.held.contains(kept[k]));
            let j = choose|j: int| 0 <= j < d.locks.held.len() && d.locks.held[j] == kept[k];
            assert(d.locks.held[j].cf == cf);
            assert(kept[k].txn == first.id);
            assert(owned_by(kept, first.id).contains(kept[k]));
        }
    }
    let o = register(second, after, cf, key, exclusive);
    if !holds(kept, r) {
        let l = LockView { txn: second.id, cf, key, exclusive };
        assert(o.db.locks.held == kept.push(l));
        assert(covers(o.db.locks.held[kept.len() as int], r));
        assert(o.db.locks.held.drop_last() =~= kept);
    }
}

} // verus!
