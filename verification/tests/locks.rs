use kv_txn::lock_table::{lock_conflicts, LockOutcome, LockRecord, LockTable};

fn record(txn: u64, key: &[u8], exclusive: bool) -> LockRecord {
    LockRecord { txn, cf: 0, key: key.to_vec(), exclusive }
}

#[test]
fn shared_locks_are_compatible() {
    let mut t = LockTable::new();
    assert_eq!(t.acquire(1, 0, b"k", false, 0, false, 0), LockOutcome::Granted);
    assert_eq!(t.acquire(2, 0, b"k", false, 0, false, 0), LockOutcome::Granted);
    assert_eq!(t.held_len(), 2);
    assert!(t.holds(1, 0, b"k", false));
    assert!(t.holds(2, 0, b"k", false));
    assert!(!t.holds(1, 0, b"k", true));
    assert!(!t.blocked(3, 0, b"k", false));
    assert!(t.blocked(3, 0, b"k", true));
}

#[test]
fn exclusive_lock_excludes_every_other_request() {
    let mut t = LockTable::new();
    assert_eq!(t.acquire(1, 0, b"k", true, 0, false, 0), LockOutcome::Granted);
    assert_eq!(t.acquire(2, 0, b"k", true, 0, false, 0), LockOutcome::TimedOut);
    assert_eq!(t.acquire(2, 0, b"k", false, 0, false, 0), LockOutcome::TimedOut);
    assert_eq!(t.acquire(2, 1, b"k", true, 0, false, 0), LockOutcome::Granted);
    assert_eq!(t.acquire(2, 0, b"j", true, 0, false, 0), LockOutcome::Granted);
    assert_eq!(t.held_len(), 3);
    assert_eq!(t.waiting_len(), 0);
}

#[test]
fn a_lock_that_is_held_is_not_recorded_again() {
    let mut t = LockTable::new();
    assert_eq!(t.acquire(1, 0, b"k", true, 0, false, 0), LockOutcome::Granted);
    assert_eq!(t.acquire(1, 0, b"k", true, 0, false, 0), LockOutcome::Granted);
    assert_eq!(t.acquire(1, 0, b"k", false, 0, false, 0), LockOutcome::Granted);
    assert_eq!(t.held_len(), 1);
    assert_eq!(t.count(1), 1);
}

#[test]
fn a_shared_lock_is_upgraded_only_without_other_holders() {
    let mut t = LockTable::new();
    assert_eq!(t.acquire(1, 0, b"k", false, 0, false, 0), LockOutcome::Granted);
    assert_eq!(t.acquire(2, 0, b"k", false, 0, false, 0), LockOutcome::Granted);
    assert_eq!(t.acquire(1, 0, b"k", true, 0, false, 0), LockOutcome::TimedOut);
    t.release(2, 0);
    assert_eq!(t.acquire(1, 0, b"k", true, 0, false, 0), LockOutcome::Granted);
    assert_eq!(t.count(1), 2);
    assert!(t.lock(1).exclusive);
    assert!(!t.lock(0).exclusive);
}

#[test]
fn a_request_waits_until_its_timeout() {
    let mut t = LockTable::new();
    assert_eq!(t.acquire(1, 0, b"k", true, 10, false, 100), LockOutcome::Granted);
    assert_eq!(t.acquire(2, 0, b"k", true, 10, false, 100), LockOutcome::Waiting);
    assert_eq!(t.waiting_len(), 1);
    assert_eq!(t.waiter(0).txn, 2);
    assert_eq!(t.waiter(0).since, 100);
    assert_eq!(t.waiting_since(2, 0, b"k", true), Some(100));
    assert_eq!(t.waiting_since(2, 0, b"k", false), None);
    assert_eq!(t.acquire(2, 0, b"k", true, 10, false, 109), LockOutcome::Waiting);
    assert_eq!(t.waiter(0).since, 100);
    assert_eq!(t.acquire(2, 0, b"k", true, 10, false, 110), LockOutcome::TimedOut);
    assert_eq!(t.waiting_len(), 0);
    assert_eq!(t.held_len(), 1);
}

#[test]
fn a_waiting_request_is_granted_once_the_holder_lets_go() {
    let mut t = LockTable::new();
    assert_eq!(t.acquire(1, 0, b"k", true, 10, false, 0), LockOutcome::Granted);
    assert_eq!(t.acquire(2, 0, b"k", true, 10, false, 0), LockOutcome::Waiting);
    t.release(1, 0);
    assert_eq!(t.held_len(), 0);
    assert_eq!(t.acquire(2, 0, b"k", true, 10, false, 5), LockOutcome::Granted);
    assert_eq!(t.waiting_len(), 0);
    assert_eq!(t.lock(0).txn, 2);
    assert_eq!(t.count(1), 0);
}

#[test]
fn a_new_request_ends_the_earlier_wait() {
    let mut t = LockTable::new();
    assert_eq!(t.acquire(1, 0, b"a", true, 10, false, 0), LockOutcome::Granted);
    assert_eq!(t.acquire(1, 0, b"b", true, 10, false, 0), LockOutcome::Granted);
    assert_eq!(t.acquire(2, 0, b"a", true, 10, false, 0), LockOutcome::Waiting);
    assert_eq!(t.acquire(2, 0, b"b", true, 10, false, 7), LockOutcome::Waiting);
    assert_eq!(t.waiting_len(), 1);
    assert_eq!(t.waiter(0).key, b"b".to_vec());
    assert_eq!(t.waiter(0).since, 7);
    assert_eq!(t.acquire(2, 0, b"c", true, 10, false, 8), LockOutcome::Granted);
    assert_eq!(t.waiting_len(), 0);
}

#[test]
fn a_cycle_of_two_is_a_deadlock() {
    let mut t = LockTable::new();
    assert_eq!(t.acquire(1, 0, b"a", true, 10, true, 0), LockOutcome::Granted);
    assert_eq!(t.acquire(2, 0, b"b", true, 10, true, 0), LockOutcome::Granted);
    assert_eq!(t.acquire(1, 0, b"b", true, 10, true, 0), LockOutcome::Waiting);
    assert!(t.would_deadlock(2, 0, b"a", true));
    assert_eq!(t.acquire(2, 0, b"a", true, 10, true, 0), LockOutcome::Deadlock);
    assert_eq!(t.waiting_len(), 1);
    assert_eq!(t.held_len(), 2);
}

#[test]
fn a_cycle_of_three_is_a_deadlock() {
    let mut t = LockTable::new();
    assert_eq!(t.acquire(1, 0, b"a", true, 10, true, 0), LockOutcome::Granted);
    assert_eq!(t.acquire(2, 0, b"b", true, 10, true, 0), LockOutcome::Granted);
    assert_eq!(t.acquire(3, 0, b"c", true, 10, true, 0), LockOutcome::Granted);
    assert_eq!(t.acquire(1, 0, b"b", true, 10, true, 0), LockOutcome::Waiting);
    assert_eq!(t.acquire(2, 0, b"c", true, 10, true, 0), LockOutcome::Waiting);
    assert!(!t.would_deadlock(4, 0, b"a", true));
    assert!(t.would_deadlock(3, 0, b"a", true));
    assert_eq!(t.acquire(3, 0, b"a", true, 10, true, 0), LockOutcome::Deadlock);
}

#[test]
fn a_chain_without_a_cycle_is_no_deadlock() {
    let mut t = LockTable::new();
    assert_eq!(t.acquire(1, 0, b"a", true, 10, true, 0), LockOutcome::Granted);
    assert_eq!(t.acquire(2, 0, b"b", true, 10, true, 0), LockOutcome::Granted);
    assert_eq!(t.acquire(2, 0, b"a", true, 10, true, 0), LockOutcome::Waiting);
    assert!(!t.would_deadlock(3, 0, b"b", true));
    assert_eq!(t.acquire(3, 0, b"b", true, 10, true, 0), LockOutcome::Waiting);
    assert_eq!(t.waiting_len(), 2);
}

#[test]
fn a_cycle_through_shared_holders_is_found() {
    let mut t = LockTable::new();
    assert_eq!(t.acquire(1, 0, b"k", false, 10, true, 0), LockOutcome::Granted);
    assert_eq!(t.acquire(2, 0, b"k", false, 10, true, 0), LockOutcome::Granted);
    assert_eq!(t.acquire(1, 0, b"k", true, 10, true, 0), LockOutcome::Waiting);
    assert_eq!(t.acquire(2, 0, b"k", true, 10, true, 0), LockOutcome::Deadlock);
}

#[test]
fn without_detection_a_cycle_only_times_out() {
    let mut t = LockTable::new();
    assert_eq!(t.acquire(1, 0, b"a", true, 10, false, 0), LockOutcome::Granted);
    assert_eq!(t.acquire(2, 0, b"b", true, 10, false, 0), LockOutcome::Granted);
    assert_eq!(t.acquire(1, 0, b"b", true, 10, false, 0), LockOutcome::Waiting);
    assert_eq!(t.acquire(2, 0, b"a", true, 10, false, 0), LockOutcome::Waiting);
    assert_eq!(t.acquire(2, 0, b"a", true, 10, false, 10), LockOutcome::TimedOut);
}

#[test]
fn release_keeps_the_first_locks_of_the_transaction() {
    let mut t = LockTable::new();
    assert_eq!(t.acquire(1, 0, b"a", true, 0, false, 0), LockOutcome::Granted);
    assert_eq!(t.acquire(2, 0, b"x", true, 0, false, 0), LockOutcome::Granted);
    assert_eq!(t.acquire(1, 0, b"b", true, 0, false, 0), LockOutcome::Granted);
    assert_eq!(t.acquire(1, 0, b"c", true, 0, false, 0), LockOutcome::Granted);
    assert_eq!(t.count(1), 3);
    t.release(1, 1);
    assert_eq!(t.count(1), 1);
    assert_eq!(t.count(2), 1);
    assert_eq!(t.held_len(), 2);
    assert_eq!(t.lock(0).key, b"a".to_vec());
    assert_eq!(t.lock(1).key, b"x".to_vec());
    assert!(t.holds(1, 0, b"a", true));
    assert!(!t.holds(1, 0, b"b", true));
    t.release(1, 5);
    assert_eq!(t.count(1), 1);
    t.release(1, 0);
    assert_eq!(t.count(1), 0);
    assert_eq!(t.held_len(), 1);
}

#[test]
fn lock_conflicts_needs_another_owner_and_an_exclusive_side() {
    assert!(lock_conflicts(&record(1, b"k", true), 2, 0, b"k", false));
    assert!(lock_conflicts(&record(1, b"k", false), 2, 0, b"k", true));
    assert!(!lock_conflicts(&record(1, b"k", false), 2, 0, b"k", false));
    assert!(!lock_conflicts(&record(1, b"k", true), 1, 0, b"k", true));
    assert!(!lock_conflicts(&record(1, b"k", true), 2, 0, b"j", true));
    assert!(!lock_conflicts(&record(1, b"k", true), 2, 1, b"k", true));
}
