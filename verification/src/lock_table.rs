//! The lock table of pessimistic concurrency control: which transaction
//! holds which key, shared or exclusive, and which transaction waits for
//! which key.

use vstd::prelude::*;
use crate::bytes::{bytes_eq, to_vec};
use crate::deadlock::find_cycle;

verus! {

/// A lock that a transaction holds on a key.
#[derive(Debug)]
pub struct LockRecord {
    pub txn: u64,
    pub cf: u32,
    pub key: Vec<u8>,
    pub exclusive: bool,
}

/// What a [`LockRecord`] stands for.
pub struct LockView {
    pub txn: u64,
    pub cf: u32,
    pub key: Seq<u8>,
    pub exclusive: bool,
}

impl View for LockRecord {
    type V = LockView;

    open spec fn view(&self) -> LockView {
        LockView { txn: self.txn, cf: self.cf, key: self.key@, exclusive: self.exclusive }
    }
}

/// A transaction that waits for a lock, and the time at which its wait
/// began.
#[derive(Debug)]
pub struct Waiter {
    pub txn: u64,
    pub cf: u32,
    pub key: Vec<u8>,
    pub exclusive: bool,
    pub since: u64,
}

/// What a [`Waiter`] stands for.
pub struct WaiterView {
    pub txn: u64,
    pub cf: u32,
    pub key: Seq<u8>,
    pub exclusive: bool,
    pub since: u64,
}

impl View for Waiter {
    type V = WaiterView;

    open spec fn view(&self) -> WaiterView {
        WaiterView {
            txn: self.txn,
            cf: self.cf,
            key: self.key@,
            exclusive: self.exclusive,
            since: self.since,
        }
    }
}

/// What the lock table holds: the locks in the order in which they were
/// granted, and the waiting requests.
pub struct LockTableView {
    pub held: Seq<LockView>,
    pub waiting: Seq<WaiterView>,
}

/// How a request for a lock ended.
#[derive(Clone, Copy, Debug, PartialEq, Eq, Structural)]
pub enum LockOutcome {
    /// The transaction holds the lock.
    Granted,
    /// Another transaction holds the key in a mode that excludes the
    /// request, and the wait has not run out: the request is queued.
    Waiting,
    /// The wait has run out.
    TimedOut,
    /// To wait would close a cycle of transactions that wait for each
    /// other.
    Deadlock,
}

/// A request for a lock.
pub struct LockRequest {
    pub txn: u64,
    pub cf: u32,
    pub key: Seq<u8>,
    pub exclusive: bool,
}

/// The lock `l` stands in the way of the request: another transaction
/// holds the key, and one of the two is exclusive.
pub open spec fn conflicts(l: LockView, r: LockRequest) -> bool {
    l.txn != r.txn && l.cf == r.cf && l.key == r.key && (r.exclusive || l.exclusive)
}

/// The lock `l` already gives the transaction what it asks for.
pub open spec fn covers(l: LockView, r: LockRequest) -> bool {
    l.txn == r.txn && l.cf == r.cf && l.key == r.key && (l.exclusive || !r.exclusive)
}

/// The transaction already holds what it asks for.
pub open spec fn holds(held: Seq<LockView>, r: LockRequest) -> bool {
    exists|i: int| 0 <= i < held.len() && covers(#[trigger] held[i], r)
}

/// Some lock stands in the way of the request.
pub open spec fn blocked(held: Seq<LockView>, r: LockRequest) -> bool {
    exists|i: int| 0 <= i < held.len() && conflicts(#[trigger] held[i], r)
}

/// The request that a waiter stands for.
pub open spec fn request_of(w: WaiterView) -> LockRequest {
    LockRequest { txn: w.txn, cf: w.cf, key: w.key, exclusive: w.exclusive }
}

/// Transaction `a` waits for a lock that transaction `b` holds.
pub open spec fn waits_for(t: LockTableView, a: u64, b: u64) -> bool {
    exists|wi: int, li: int|
        0 <= wi < t.waiting.len() && 0 <= li < t.held.len() && (#[trigger] t.waiting[wi]).txn == a
            && (#[trigger] t.held[li]).txn == b && conflicts(t.held[li], request_of(t.waiting[wi]))
}

/// Each transaction of `path` but the last waits for the one after it.
pub open spec fn is_chain(t: LockTableView, path: Seq<u64>) -> bool {
    &&& path.len() > 0
    &&& forall|i: int| 0 <= i < path.len() - 1 ==> waits_for(t, #[trigger] path[i], path[i + 1])
}

/// From a transaction that stands in the way of the request a chain of
/// waits leads to `x`.
pub open spec fn blocker_reaches(t: LockTableView, r: LockRequest, x: u64) -> bool {
    exists|li: int, path: Seq<u64>|
        0 <= li < t.held.len() && conflicts(#[trigger] t.held[li], r) && #[trigger] is_chain(
            t,
            path,
        ) && path[0] == t.held[li].txn && path.last() == x
}

/// A cycle of waits leads from `x` back to `x`.
pub open spec fn on_cycle(t: LockTableView, x: u64) -> bool {
    exists|path: Seq<u64>|
        #[trigger] is_chain(t, path) && path.len() > 1 && path[0] == x && path.last() == x
}

/// To wait for the request would close a cycle: a transaction that stands
/// in its way waits, through some chain, for the requester.
pub open spec fn would_deadlock(t: LockTableView, r: LockRequest) -> bool {
    blocker_reaches(t, r, r.txn)
}

/// The number of locks that `txn` holds.
pub open spec fn count_owned(held: Seq<LockView>, txn: u64) -> nat
    decreases held.len(),
{
    if held.len() == 0 {
        0
    } else {
        count_owned(held.drop_last(), txn) + if held.last().txn == txn {
            1nat
        } else {
            0nat
        }
    }
}

/// The locks without those that `txn` got after its first `n`: the locks
/// of other transactions stay, each where it was.
pub open spec fn keep_first(held: Seq<LockView>, txn: u64, n: nat) -> Seq<LockView>
    decreases held.len(),
{
    if held.len() == 0 {
        held
    } else {
        let head = keep_first(held.drop_last(), txn, n);
        if held.last().txn == txn && count_owned(held.drop_last(), txn) >= n {
            head
        } else {
            head.push(held.last())
        }
    }
}

/// The locks that `txn` holds, in the order in which it got them.
pub open spec fn owned_by(held: Seq<LockView>, txn: u64) -> Seq<LockView>
    decreases held.len(),
{
    if held.len() == 0 {
        Seq::empty()
    } else {
        let head = owned_by(held.drop_last(), txn);
        if held.last().txn == txn {
            head.push(held.last())
        } else {
            head
        }
    }
}

/// No key is held by two transactions unless both hold it shared.
pub open spec fn exclusion_holds(held: Seq<LockView>) -> bool {
    forall|i: int, j: int|
        0 <= i < held.len() && 0 <= j < held.len() && (#[trigger] held[i]).txn != (
        #[trigger] held[j]).txn && held[i].cf == held[j].cf && held[i].key == held[j].key ==> !held[i].exclusive
            && !held[j].exclusive
}

/// The waiting requests without those of `txn`.
pub open spec fn without_waiter(waiting: Seq<WaiterView>, txn: u64) -> Seq<WaiterView>
    decreases waiting.len(),
{
    if waiting.len() == 0 {
        waiting
    } else {
        let head = without_waiter(waiting.drop_last(), txn);
        if waiting.last().txn == txn {
            head
        } else {
            head.push(waiting.last())
        }
    }
}

/// Since when the transaction has been waiting for exactly this request;
/// nothing where it is not.
pub open spec fn waiting_since(waiting: Seq<WaiterView>, r: LockRequest) -> Option<u64>
    decreases waiting.len(),
{
    if waiting.len() == 0 {
        None
    } else if request_of(waiting.last()) == r {
        Some(waiting.last().since)
    } else {
        waiting_since(waiting.drop_last(), r)
    }
}

/// The time at which the wait for the request began: now, unless the
/// transaction is already queued for it.
pub open spec fn wait_start(waiting: Seq<WaiterView>, r: LockRequest, now: u64) -> u64 {
    match waiting_since(waiting, r) {
        Some(since) => since,
        None => now,
    }
}

/// How long the request has waited at time `now`.
pub open spec fn waited(waiting: Seq<WaiterView>, r: LockRequest, now: u64) -> int {
    let start = wait_start(waiting, r, now);
    if now >= start {
        now - start
    } else {
        0
    }
}

/// The table in which the request waits: any other wait of the requester
/// is over, and the request is queued since `since`.
pub open spec fn with_waiter(t: LockTableView, r: LockRequest, since: u64) -> LockTableView {
    LockTableView {
        held: t.held,
        waiting: without_waiter(t.waiting, r.txn).push(
            WaiterView { txn: r.txn, cf: r.cf, key: r.key, exclusive: r.exclusive, since },
        ),
    }
}

/// How a request ends at time `now`, for a transaction that waits at most
/// `timeout` and asks for cycles to be detected or not.
pub open spec fn decide(
    t: LockTableView,
    r: LockRequest,
    timeout: u64,
    detect: bool,
    now: u64,
) -> LockOutcome {
    if holds(t.held, r) || !blocked(t.held, r) {
        LockOutcome::Granted
    } else if detect && would_deadlock(t, r) {
        LockOutcome::Deadlock
    } else if waited(t.waiting, r, now) >= timeout {
        LockOutcome::TimedOut
    } else {
        LockOutcome::Waiting
    }
}

/// The table after a request. A grant of a lock that the transaction did
/// not hold adds it behind all others; a request that must wait is
/// queued, with the time at which its wait began; however it ends, any
/// other wait of the transaction is over.
pub open spec fn after_request(
    t: LockTableView,
    r: LockRequest,
    timeout: u64,
    detect: bool,
    now: u64,
) -> LockTableView {
    let others = without_waiter(t.waiting, r.txn);
    match decide(t, r, timeout, detect, now) {
        LockOutcome::Granted => LockTableView {
            held: if holds(t.held, r) {
                t.held
            } else {
                t.held.push(
                    LockView { txn: r.txn, cf: r.cf, key: r.key, exclusive: r.exclusive },
                )
            },
            waiting: others,
        },
        LockOutcome::Waiting => with_waiter(t, r, wait_start(t.waiting, r, now)),
        _ => LockTableView { held: t.held, waiting: others },
    }
}

/// The table after `txn` gave up the locks it got after its first `keep`,
/// and its wait.
pub open spec fn after_release(t: LockTableView, txn: u64, keep: nat) -> LockTableView {
    LockTableView { held: keep_first(t.held, txn, keep), waiting: without_waiter(t.waiting, txn) }
}

/// `count_owned` counts the locks of `owned_by`.
pub proof fn lemma_owned_len(held: Seq<LockView>, txn: u64)
    ensures
        owned_by(held, txn).len() == count_owned(held, txn),
    decreases held.len(),
{
    if held.len() > 0 {
        lemma_owned_len(held.drop_last(), txn);
    }
}

/// Every lock of `owned_by` is a lock of the table that `txn` holds, and
/// every lock of the table that `txn` holds is one of `owned_by`.
pub proof fn lemma_owned_members(held: Seq<LockView>, txn: u64)
    ensures
        forall|i: int|
            0 <= i < owned_by(held, txn).len() ==> (#[trigger] owned_by(held, txn)[i]).txn == txn
                && held.contains(owned_by(held, txn)[i]),
        forall|i: int|
            0 <= i < held.len() && (#[trigger] held[i]).txn == txn ==> owned_by(held, txn).contains(
                held[i],
            ),
    decreases held.len(),
{
    if held.len() > 0 {
        let head = held.drop_last();
        lemma_owned_members(head, txn);
        let mine = owned_by(held, txn);
        assert forall|i: int| 0 <= i < mine.len() implies (#[trigger] mine[i]).txn == txn
            && held.contains(mine[i]) by {
            if i < owned_by(head, txn).len() {
                let l = owned_by(head, txn)[i];
                assert(head.contains(l));
                let k = choose|k: int| 0 <= k < head.len() && head[k] == l;
                assert(held[k] == l);
            } else {
                assert(held[held.len() - 1] == mine[i]);
            }
        }
        assert forall|i: int| 0 <= i < held.len() && (#[trigger] held[i]).txn
            == txn implies mine.contains(held[i]) by {
            if i < head.len() {
                assert(head[i] == held[i]);
                let k = choose|k: int|
                    0 <= k < owned_by(head, txn).len() && owned_by(head, txn)[k] == head[i];
                assert(mine[k] == held[i]);
            } else {
                assert(mine[mine.len() - 1] == held[i]);
            }
        }
    }
}

/// What one more lock does to the locks of a transaction.
pub proof fn lemma_owned_push(held: Seq<LockView>, l: LockView, txn: u64)
    ensures
        owned_by(held.push(l), txn) == if l.txn == txn {
            owned_by(held, txn).push(l)
        } else {
            owned_by(held, txn)
        },
{
    assert(held.push(l).drop_last() =~= held);
}

/// A release leaves the transaction its first `n` locks, in their order,
/// and all of them where it has no more than `n`.
pub proof fn lemma_release_keeps_first(held: Seq<LockView>, txn: u64, n: nat)
    ensures
        owned_by(keep_first(held, txn, n), txn) == if n <= count_owned(held, txn) {
            owned_by(held, txn).take(n as int)
        } else {
            owned_by(held, txn)
        },
    decreases held.len(),
{
    if held.len() == 0 {
        assert(owned_by(held, txn).take(0) =~= owned_by(held, txn));
    } else {
        let head = held.drop_last();
        let last = held.last();
        lemma_release_keeps_first(head, txn, n);
        lemma_owned_len(head, txn);
        lemma_owned_len(held, txn);
        if last.txn == txn && count_owned(head, txn) >= n {
            assert(owned_by(held, txn).take(n as int) =~= owned_by(head, txn).take(n as int));
        } else {
            lemma_owned_push(keep_first(head, txn, n), last, txn);
            if last.txn == txn {
                assert(owned_by(held, txn).take(owned_by(held, txn).len() as int) =~= owned_by(
                    held,
                    txn,
                ));
            }
        }
    }
}

/// A release by one transaction leaves every other transaction its locks.
pub proof fn lemma_release_spares_others(held: Seq<LockView>, txn: u64, n: nat, other: u64)
    requires
        other != txn,
    ensures
        owned_by(keep_first(held, txn, n), other) == owned_by(held, other),
    decreases held.len(),
{
    if held.len() > 0 {
        let head = held.drop_last();
        lemma_release_spares_others(head, txn, n, other);
        if !(held.last().txn == txn && count_owned(head, txn) >= n) {
            lemma_owned_push(keep_first(head, txn, n), held.last(), other);
        }
    }
}

/// What is left after a release was there before.
pub proof fn lemma_release_subset(held: Seq<LockView>, txn: u64, n: nat)
    ensures
        forall|i: int|
            0 <= i < keep_first(held, txn, n).len() ==> held.contains(
                #[trigger] keep_first(held, txn, n)[i],
            ),
    decreases held.len(),
{
    if held.len() > 0 {
        let head = held.drop_last();
        lemma_release_subset(head, txn, n);
        let kept = keep_first(held, txn, n);
        assert forall|i: int| 0 <= i < kept.len() implies held.contains(#[trigger] kept[i]) by {
            if i < keep_first(head, txn, n).len() {
                let l = keep_first(head, txn, n)[i];
                assert(head.contains(l));
                let k = choose|k: int| 0 <= k < head.len() && head[k] == l;
                assert(held[k] == l);
            } else {
                assert(held[held.len() - 1] == kept[i]);
            }
        }
    }
}

/// A release that keeps as many locks as the transaction holds, or more,
/// gives up nothing.
pub proof fn lemma_release_of_nothing(held: Seq<LockView>, txn: u64, n: nat)
    requires
        n >= count_owned(held, txn),
    ensures
        keep_first(held, txn, n) == held,
    decreases held.len(),
{
    if held.len() > 0 {
        lemma_release_of_nothing(held.drop_last(), txn, n);
        assert(held.drop_last().push(held.last()) =~= held);
    }
}

/// A release that keeps as many locks as the transaction held at some
/// earlier time undoes the grants made to it since: the table is as it
/// was then.
pub proof fn lemma_release_undoes_grants(held: Seq<LockView>, longer: Seq<LockView>, txn: u64)
    requires
        held.is_prefix_of(longer),
        forall|i: int| held.len() <= i < longer.len() ==> (#[trigger] longer[i]).txn == txn,
    ensures
        count_owned(longer, txn) >= count_owned(held, txn),
        keep_first(longer, txn, count_owned(held, txn)) == held,
    decreases longer.len(),
{
    if longer.len() > held.len() {
        let shorter = longer.drop_last();
        assert(held.is_prefix_of(shorter));
        assert forall|i: int| held.len() <= i < shorter.len() implies (#[trigger] shorter[i]).txn
            == txn by {
            assert(shorter[i] == longer[i]);
        }
        lemma_release_undoes_grants(held, shorter, txn);
        assert(longer.last() == longer[longer.len() - 1]);
    } else {
        assert(longer =~= held);
        lemma_release_of_nothing(held, txn, count_owned(held, txn));
    }
}

/// What is left once the requests of `txn` are taken out are the requests
/// of the others, all of them.
pub proof fn lemma_without_waiter_members(waiting: Seq<WaiterView>, txn: u64)
    ensures
        forall|i: int|
            0 <= i < without_waiter(waiting, txn).len() ==> (#[trigger] without_waiter(
                waiting,
                txn,
            )[i]).txn != txn && waiting.contains(without_waiter(waiting, txn)[i]),
        forall|i: int|
            0 <= i < waiting.len() && (#[trigger] waiting[i]).txn != txn ==> without_waiter(
                waiting,
                txn,
            ).contains(waiting[i]),
    decreases waiting.len(),
{
    if waiting.len() > 0 {
        let head = waiting.drop_last();
        lemma_without_waiter_members(head, txn);
        let rest = without_waiter(waiting, txn);
        let inner = without_waiter(head, txn);
        assert forall|i: int| 0 <= i < rest.len() implies (#[trigger] rest[i]).txn != txn
            && waiting.contains(rest[i]) by {
            if i < inner.len() {
                assert(rest[i] == inner[i]);
                assert(head.contains(inner[i]));
                let k = choose|k: int| 0 <= k < head.len() && head[k] == inner[i];
                assert(waiting[k] == rest[i]);
            } else {
                assert(waiting[waiting.len() - 1] == rest[i]);
            }
        }
        assert forall|i: int| 0 <= i < waiting.len() && (#[trigger] waiting[i]).txn
            != txn implies rest.contains(waiting[i]) by {
            if i < head.len() {
                assert(head[i] == waiting[i]);
                let k = choose|k: int| 0 <= k < inner.len() && inner[k] == head[i];
                assert(rest[k] == waiting[i]);
            } else {
                assert(rest[rest.len() - 1] == waiting[i]);
            }
        }
    }
}

/// To take the requests of a transaction out twice is to take them out
/// once, and a request of its own that is added goes out with them.
pub proof fn lemma_without_waiter(waiting: Seq<WaiterView>, w: WaiterView, txn: u64)
    ensures
        without_waiter(without_waiter(waiting, txn), txn) == without_waiter(waiting, txn),
        w.txn == txn ==> without_waiter(without_waiter(waiting, txn).push(w), txn)
            == without_waiter(waiting, txn),
    decreases waiting.len(),
{
    if waiting.len() > 0 {
        lemma_without_waiter(waiting.drop_last(), w, txn);
        let head = without_waiter(waiting.drop_last(), txn);
        if waiting.last().txn != txn {
            assert(head.push(waiting.last()).drop_last() =~= head);
        }
    }
    assert(without_waiter(waiting, txn).push(w).drop_last() =~= without_waiter(waiting, txn));
}

/// Mutual exclusion is kept by every request: a lock is granted only
/// where no lock of another transaction excludes it.
pub proof fn lemma_request_keeps_exclusion(
    t: LockTableView,
    r: LockRequest,
    timeout: u64,
    detect: bool,
    now: u64,
)
    requires
        exclusion_holds(t.held),
    ensures
        exclusion_holds(after_request(t, r, timeout, detect, now).held),
{
    let after = after_request(t, r, timeout, detect, now).held;
    if after != t.held {
        let l = LockView { txn: r.txn, cf: r.cf, key: r.key, exclusive: r.exclusive };
        assert(after == t.held.push(l));
        assert(!blocked(t.held, r));
        assert forall|i: int, j: int|
            0 <= i < after.len() && 0 <= j < after.len() && (#[trigger] after[i]).txn != (
            #[trigger] after[j]).txn && after[i].cf == after[j].cf && after[i].key
                == after[j].key implies !after[i].exclusive && !after[j].exclusive by {
            if i < t.held.len() && j < t.held.len() {
                assert(t.held[i] == after[i] && t.held[j] == after[j]);
            } else if i < t.held.len() {
                assert(!conflicts(t.held[i], r));
            } else if j < t.held.len() {
                assert(!conflicts(t.held[j], r));
            }
        }
    }
}

/// Mutual exclusion is kept by every release.
pub proof fn lemma_release_keeps_exclusion(held: Seq<LockView>, txn: u64, n: nat)
    requires
        exclusion_holds(held),
    ensures
        exclusion_holds(keep_first(held, txn, n)),
{
    lemma_release_subset(held, txn, n);
    let kept = keep_first(held, txn, n);
    assert forall|i: int, j: int|
        0 <= i < kept.len() && 0 <= j < kept.len() && (#[trigger] kept[i]).txn != (
        #[trigger] kept[j]).txn && kept[i].cf == kept[j].cf && kept[i].key
            == kept[j].key implies !kept[i].exclusive && !kept[j].exclusive by {
        assert(held.contains(kept[i]) && held.contains(kept[j]));
        let a = choose|a: int| 0 <= a < held.len() && held[a] == kept[i];
        let b = choose|b: int| 0 <= b < held.len() && held[b] == kept[j];
        assert(held[a].txn != held[b].txn);
    }
}

/// The lock table.
pub struct LockTable {
    held: Vec<LockRecord>,
    waiting: Vec<Waiter>,
}

impl View for LockTable {
    type V = LockTableView;

    closed spec fn view(&self) -> LockTableView {
        LockTableView {
            held: self.held@.map_values(|l: LockRecord| l@),
            waiting: self.waiting@.map_values(|w: Waiter| w@),
        }
    }
}

/// Whether the lock stands in the way of the request.
pub fn lock_conflicts(l: &LockRecord, txn: u64, cf: u32, key: &[u8], exclusive: bool) -> (r: bool)
    ensures
        r == conflicts(l@, LockRequest { txn, cf, key: key@, exclusive }),
{
    l.txn != txn && l.cf == cf && (exclusive || l.exclusive) && bytes_eq(l.key.as_slice(), key)
}

fn lock_covers(l: &LockRecord, txn: u64, cf: u32, key: &[u8], exclusive: bool) -> (r: bool)
    ensures
        r == covers(l@, LockRequest { txn, cf, key: key@, exclusive }),
{
    l.txn == txn && l.cf == cf && (l.exclusive || !exclusive) && bytes_eq(l.key.as_slice(), key)
}

impl LockTable {
    /// A table without locks or waiters.
    pub fn new() -> (t: LockTable)
        ensures
            t@.held.len() == 0,
            t@.waiting.len() == 0,
    {
        LockTable { held: Vec::new(), waiting: Vec::new() }
    }

    /// The number of locks that are held.
    pub fn held_len(&self) -> (n: usize)
        ensures
            n == self@.held.len(),
    {
        self.held.len()
    }

    /// The number of requests that wait.
    pub fn waiting_len(&self) -> (n: usize)
        ensures
            n == self@.waiting.len(),
    {
        self.waiting.len()
    }

    /// The lock at position `i`.
    pub fn lock(&self, i: usize) -> (l: &LockRecord)
        requires
            i < self@.held.len(),
        ensures
            l@ == self@.held[i as int],
    {
        &self.held[i]
    }

    /// The waiting request at position `i`.
    pub fn waiter(&self, i: usize) -> (w: &Waiter)
        requires
            i < self@.waiting.len(),
        ensures
            w@ == self@.waiting[i as int],
    {
        &self.waiting[i]
    }

    /// Whether `txn` already holds what it asks for.
    pub fn holds(&self, txn: u64, cf: u32, key: &[u8], exclusive: bool) -> (r: bool)
        ensures
            r == holds(self@.held, LockRequest { txn, cf, key: key@, exclusive }),
    {
        let n = self.held.len();
        let mut i: usize = 0;
        while i < n
            invariant
                i <= n,
                n == self@.held.len(),
                forall|j: int|
                    0 <= j < i ==> !covers(
                        #[trigger] self@.held[j],
                        LockRequest { txn, cf, key: key@, exclusive },
                    ),
            decreases n - i,
        {
            let l = &self.held[i];
            assert(l@ == self@.held[i as int]);
            if lock_covers(l, txn, cf, key, exclusive) {
                return true;
            }
            i += 1;
        }
        false
    }

    /// Whether a lock of another transaction stands in the way of the
    /// request.
    pub fn blocked(&self, txn: u64, cf: u32, key: &[u8], exclusive: bool) -> (r: bool)
        ensures
            r == blocked(self@.held, LockRequest { txn, cf, key: key@, exclusive }),
    {
        let n = self.held.len();
        let mut i: usize = 0;
        while i < n
            invariant
                i <= n,
                n == self@.held.len(),
                forall|j: int|
                    0 <= j < i ==> !conflicts(
                        #[trigger] self@.held[j],
                        LockRequest { txn, cf, key: key@, exclusive },
                    ),
            decreases n - i,
        {
            let l = &self.held[i];
            assert(l@ == self@.held[i as int]);
            if lock_conflicts(l, txn, cf, key, exclusive) {
                return true;
            }
            i += 1;
        }
        false
    }

    /// The number of locks that `txn` holds.
    pub fn count(&self, txn: u64) -> (n: usize)
        ensures
            n == count_owned(self@.held, txn),
    {
        let len = self.held.len();
        let mut n: usize = 0;
        let mut i: usize = 0;
        assert(self@.held.take(0) =~= Seq::<LockView>::empty());
        while i < len
            invariant
                i <= len,
                len == self@.held.len(),
                n <= i,
                n == count_owned(self@.held.take(i as int), txn),
            decreases len - i,
        {
            assert(self@.held.take(i + 1).drop_last() =~= self@.held.take(i as int));
            assert(self.held[i as int]@ == self@.held.take(i + 1).last());
            if self.held[i].txn == txn {
                n += 1;
            }
            i += 1;
        }
        assert(self@.held.take(len as int) =~= self@.held);
        n
    }

    /// Since when `txn` has been waiting for exactly this request.
    pub fn waiting_since(&self, txn: u64, cf: u32, key: &[u8], exclusive: bool) -> (since: Option<
        u64,
    >)
        ensures
            since == waiting_since(self@.waiting, LockRequest { txn, cf, key: key@, exclusive }),
    {
        let ghost r = LockRequest { txn, cf, key: key@, exclusive };
        let mut i: usize = self.waiting.len();
        assert(self@.waiting.take(i as int) =~= self@.waiting);
        while i > 0
            invariant
                i <= self@.waiting.len(),
                r == (LockRequest { txn, cf, key: key@, exclusive }),
                waiting_since(self@.waiting, r) == waiting_since(self@.waiting.take(i as int), r),
            decreases i,
        {
            let w = &self.waiting[i - 1];
            assert(w@ == self@.waiting.take(i as int).last());
            assert(self@.waiting.take(i as int).drop_last() =~= self@.waiting.take(i - 1));
            if w.txn == txn && w.cf == cf && w.exclusive == exclusive && bytes_eq(
                w.key.as_slice(),
                key,
            ) {
                return Some(w.since);
            }
            i -= 1;
        }
        None
    }

    fn remove_waiter(&mut self, txn: u64)
        ensures
            final(self)@ == (LockTableView {
                waiting: without_waiter(old(self)@.waiting, txn),
                ..old(self)@
            }),
    {
        let ghost before = self@.waiting;
        let mut i: usize = self.waiting.len();
        assert(before.skip(i as int) =~= Seq::<WaiterView>::empty());
        assert(before.take(i as int) =~= before);
        assert(without_waiter(before, txn) =~= without_waiter(before.take(i as int), txn)
            + self@.waiting.skip(i as int));
        while i > 0
            invariant
                i <= self@.waiting.len(),
                i <= before.len(),
                self.held == old(self).held,
                before == old(self)@.waiting,
                self@.waiting.take(i as int) == before.take(i as int),
                without_waiter(before, txn) == without_waiter(before.take(i as int), txn)
                    + self@.waiting.skip(i as int),
            decreases i,
        {
            i -= 1;
            let ghost cur = self@.waiting;
            assert(before.take(i + 1).drop_last() =~= before.take(i as int));
            assert(before.take(i + 1).last() == before[i as int]);
            assert(cur[i as int] == cur.take(i + 1)[i as int]);
            assert(self.waiting[i as int]@ == cur[i as int]);
            if self.waiting[i].txn == txn {
                self.waiting.remove(i);
                assert(self@.waiting =~= cur.remove(i as int));
                assert(self@.waiting.skip(i as int) =~= cur.skip(i + 1));
                assert(self@.waiting.take(i as int) =~= cur.take(i + 1).take(i as int));
                assert(before.take(i + 1).take(i as int) =~= before.take(i as int));
            } else {
                assert(cur.skip(i as int) =~= seq![cur[i as int]] + cur.skip(i + 1));
                assert(without_waiter(before.take(i + 1), txn) + cur.skip(i + 1)
                    =~= without_waiter(before.take(i as int), txn) + cur.skip(i as int));
                assert(cur.take(i as int) =~= cur.take(i + 1).take(i as int));
                assert(before.take(i + 1).take(i as int) =~= before.take(i as int));
            }
        }
        assert(before.take(0) =~= Seq::<WaiterView>::empty());
        assert(self@.waiting.skip(0) =~= self@.waiting);
        assert(without_waiter(before, txn) =~= self@.waiting);
    }

    fn remove_locks(&mut self, txn: u64, keep: usize)
        ensures
            final(self)@ == (LockTableView {
                held: keep_first(old(self)@.held, txn, keep as nat),
                ..old(self)@
            }),
    {
        let ghost before = self@.held;
        let mut owned: usize = self.count(txn);
        let mut i: usize = self.held.len();
        assert(before.skip(i as int) =~= Seq::<LockView>::empty());
        assert(before.take(i as int) =~= before);
        assert(keep_first(before, txn, keep as nat) =~= keep_first(
            before.take(i as int),
            txn,
            keep as nat,
        ) + self@.held.skip(i as int));
        while i > 0
            invariant
                i <= self@.held.len(),
                i <= before.len(),
                self.waiting == old(self).waiting,
                before == old(self)@.held,
                owned == count_owned(before.take(i as int), txn),
                self@.held.take(i as int) == before.take(i as int),
                keep_first(before, txn, keep as nat) == keep_first(
                    before.take(i as int),
                    txn,
                    keep as nat,
                ) + self@.held.skip(i as int),
            decreases i,
        {
            i -= 1;
            let ghost cur = self@.held;
            assert(before.take(i + 1).drop_last() =~= before.take(i as int));
            assert(before.take(i + 1).last() == before[i as int]);
            assert(cur[i as int] == cur.take(i + 1)[i as int]);
            assert(self.held[i as int]@ == cur[i as int]);
            assert(cur.take(i as int) =~= cur.take(i + 1).take(i as int));
            assert(before.take(i + 1).take(i as int) =~= before.take(i as int));
            let mine = self.held[i].txn == txn;
            if mine {
                owned -= 1;
            }
            if mine && owned >= keep {
                self.held.remove(i);
                assert(self@.held =~= cur.remove(i as int));
                assert(self@.held.skip(i as int) =~= cur.skip(i + 1));
                assert(self@.held.take(i as int) =~= cur.take(i as int));
            } else {
                assert(cur.skip(i as int) =~= seq![cur[i as int]] + cur.skip(i + 1));
                assert(keep_first(before.take(i + 1), txn, keep as nat) + cur.skip(i + 1)
                    =~= keep_first(before.take(i as int), txn, keep as nat) + cur.skip(i as int));
            }
        }
        assert(before.take(0) =~= Seq::<LockView>::empty());
        assert(self@.held.skip(0) =~= self@.held);
        assert(keep_first(before, txn, keep as nat) =~= self@.held);
    }

    /// Whether to wait for the request would close a cycle of waits.
    pub fn would_deadlock(&self, txn: u64, cf: u32, key: &[u8], exclusive: bool) -> (r: bool)
        ensures
            r == would_deadlock(self@, LockRequest { txn, cf, key: key@, exclusive }),
    {
        find_cycle(self, txn, cf, key, exclusive)
    }

    /// Asks for a lock on `(cf, key)` for `txn` at time `now`. The lock is
    /// granted where the transaction holds it already or nothing stands in
    /// its way. Otherwise the request ends in `Deadlock` where `detect` is
    /// set and to wait would close a cycle, in `TimedOut` where it has
    /// waited `timeout` or longer, and else it is queued.
    pub fn acquire(
        &mut self,
        txn: u64,
        cf: u32,
        key: &[u8],
        exclusive: bool,
        timeout: u64,
        detect: bool,
        now: u64,
    ) -> (outcome: LockOutcome)
        ensures
            outcome == decide(
                old(self)@,
                LockRequest { txn, cf, key: key@, exclusive },
                timeout,
                detect,
                now,
            ),
            final(self)@ == after_request(
                old(self)@,
                LockRequest { txn, cf, key: key@, exclusive },
                timeout,
                detect,
                now,
            ),
    {
        let already = self.holds(txn, cf, key, exclusive);
        if already || !self.blocked(txn, cf, key, exclusive) {
            self.remove_waiter(txn);
            if !already {
                let l = LockRecord { txn, cf, key: to_vec(key), exclusive };
                self.held.push(l);
                assert(self@.held =~= old(self)@.held.push(l@));
            }
            LockOutcome::Granted
        } else if detect && self.would_deadlock(txn, cf, key, exclusive) {
            self.remove_waiter(txn);
            LockOutcome::Deadlock
        } else {
            let start = match self.waiting_since(txn, cf, key, exclusive) {
                Some(since) => since,
                None => now,
            };
            let waited = if now >= start {
                now - start
            } else {
                0
            };
            self.remove_waiter(txn);
            if waited >= timeout {
                LockOutcome::TimedOut
            } else {
                let w = Waiter { txn, cf, key: to_vec(key), exclusive, since: start };
                let ghost before = self@.waiting;
                self.waiting.push(w);
                assert(self@.waiting =~= before.push(w@));
                LockOutcome::Waiting
            }
        }
    }

    /// Gives up the locks that `txn` got after its first `keep`, and its
    /// wait. With `keep` 0 the transaction holds nothing afterwards.
    pub fn release(&mut self, txn: u64, keep: usize)
        ensures
            final(self)@ == after_release(old(self)@, txn, keep as nat),
    {
        self.remove_locks(txn, keep);
        self.remove_waiter(txn);
    }
}

} // verus!
