use kv_txn::database::Database;
use kv_txn::error::{Error, StorageError};
use kv_txn::options::{ConcurrencyControl, ReadOptions, TransactionOptions};
use kv_txn::storage::Snapshot;
use kv_txn::transaction::{State, Transaction, DEFAULT_COLUMN_FAMILY};

fn options(lock_timeout: u64, deadlock_detect: bool) -> TransactionOptions {
    TransactionOptions { set_snapshot: false, expiration: None, lock_timeout, deadlock_detect }
}

fn optimistic(db: &mut Database) -> Transaction {
    Transaction::begin(db, ConcurrencyControl::Optimistic, &TransactionOptions::default()).unwrap()
}

fn pessimistic(db: &mut Database, lock_timeout: u64) -> Transaction {
    Transaction::begin(db, ConcurrencyControl::Pessimistic, &options(lock_timeout, false)).unwrap()
}

fn value(bytes: &[u8]) -> Result<Option<Vec<u8>>, Error> {
    Ok(Some(bytes.to_vec()))
}

#[test]
fn begin_hands_out_identifiers_in_order() {
    let mut db = Database::new();
    let a = optimistic(&mut db);
    let b = pessimistic(&mut db, 0);
    assert_eq!(a.id(), 1);
    assert_eq!(b.id(), 2);
    assert_eq!(a.state(), State::Active);
    assert_eq!(a.mode(), ConcurrencyControl::Optimistic);
    assert_eq!(b.mode(), ConcurrencyControl::Pessimistic);
    assert_eq!(a.pending_writes(), 0);
    assert_eq!(a.savepoint_count(), 0);
    assert_eq!(a.snapshot().sequence(), None);
}

#[test]
fn default_options_wait_a_second_and_detect_nothing() {
    let o = TransactionOptions::default();
    assert!(!o.set_snapshot);
    assert_eq!(o.expiration, None);
    assert_eq!(o.lock_timeout, 1000);
    assert!(!o.deadlock_detect);
    let r = ReadOptions::default();
    assert_eq!(r.snapshot.sequence(), None);
    assert!(!r.total_order_seek);
    assert!(!r.prefix_same_as_start);
    assert_eq!(r.iterate_lower_bound, None);
    assert_eq!(r.iterate_upper_bound, None);
}

#[test]
fn a_read_returns_the_most_recent_write_of_the_transaction() {
    let mut db = Database::new();
    db.put(0, b"k", b"stored").unwrap();
    let mut t = optimistic(&mut db);
    assert_eq!(t.get(&db, b"k"), value(b"stored"));
    assert_eq!(t.put(&mut db, b"k", b"v1"), Ok(()));
    assert_eq!(t.get(&db, b"k"), value(b"v1"));
    assert_eq!(t.put(&mut db, b"k", b"v2"), Ok(()));
    assert_eq!(t.get(&db, b"k"), value(b"v2"));
    assert_eq!(t.delete(&mut db, b"k"), Ok(()));
    assert_eq!(t.get(&db, b"k"), Ok(None));
    assert_eq!(t.merge(&mut db, b"k", b"m"), Ok(()));
    assert_eq!(t.get(&db, b"k"), Err(Error::MergeInProgress));
    assert_eq!(t.put(&mut db, b"k", b"v3"), Ok(()));
    assert_eq!(t.get(&db, b"k"), value(b"v3"));
    assert_eq!(t.pending_writes(), 5);
    assert_eq!(db.get(0, b"k"), Some(b"stored".to_vec()));
}

#[test]
fn a_write_to_one_key_leaves_the_reads_of_another() {
    let mut db = Database::new();
    db.put(0, b"a", b"1").unwrap();
    let mut t = optimistic(&mut db);
    assert_eq!(t.put(&mut db, b"b", b"2"), Ok(()));
    assert_eq!(t.get(&db, b"a"), value(b"1"));
    assert_eq!(t.get(&db, b"c"), Ok(None));
    assert_eq!(t.get_cf(&db, 7, b"b"), Ok(None));
}

#[test]
fn column_families_are_kept_apart() {
    let mut db = Database::new();
    let mut t = optimistic(&mut db);
    assert_eq!(DEFAULT_COLUMN_FAMILY, 0);
    assert_eq!(t.put_cf(&mut db, 1, b"k", b"one"), Ok(()));
    assert_eq!(t.put_cf(&mut db, 2, b"k", b"two"), Ok(()));
    assert_eq!(t.merge_cf(&mut db, 3, b"k", b"m"), Ok(()));
    assert_eq!(t.delete_cf(&mut db, 2, b"k"), Ok(()));
    assert_eq!(t.get_cf(&db, 1, b"k"), value(b"one"));
    assert_eq!(t.get_cf(&db, 2, b"k"), Ok(None));
    assert_eq!(t.get_cf(&db, 3, b"k"), Err(Error::MergeInProgress));
    assert_eq!(t.get(&db, b"k"), Ok(None));
    assert_eq!(t.commit(&mut db), Ok(()));
    assert_eq!(db.get(1, b"k"), Some(b"one".to_vec()));
    assert_eq!(db.get(2, b"k"), None);
    assert_eq!(db.get(3, b"k"), Some(b"m".to_vec()));
}

#[test]
fn commit_applies_the_buffer_and_ends_the_transaction() {
    let mut db = Database::new();
    db.put(0, b"m", b"base").unwrap();
    db.put(0, b"d", b"x").unwrap();
    let mut t = optimistic(&mut db);
    assert_eq!(t.put(&mut db, b"a", b"1"), Ok(()));
    assert_eq!(t.merge(&mut db, b"m", b"+1"), Ok(()));
    assert_eq!(t.delete(&mut db, b"d"), Ok(()));
    assert_eq!(t.commit(&mut db), Ok(()));
    assert_eq!(t.state(), State::Committed);
    assert_eq!(t.pending_writes(), 0);
    assert_eq!(db.get(0, b"a"), Some(b"1".to_vec()));
    assert_eq!(db.get(0, b"m"), Some(b"base+1".to_vec()));
    assert_eq!(db.get(0, b"d"), None);
    assert_eq!(db.storage().last_seq(), 5);
}

#[test]
fn rollback_leaves_the_store_as_it_was() {
    let mut db = Database::new();
    db.put(0, b"a", b"1").unwrap();
    db.put(0, b"b", b"2").unwrap();
    let before = db.storage().last_seq();
    let mut t = pessimistic(&mut db, 0);
    assert_eq!(t.put(&mut db, b"a", b"changed"), Ok(()));
    assert_eq!(t.delete(&mut db, b"b"), Ok(()));
    assert_eq!(t.merge(&mut db, b"c", b"m"), Ok(()));
    assert_eq!(t.rollback(&mut db), Ok(()));
    assert_eq!(t.state(), State::RolledBack);
    assert_eq!(db.storage().last_seq(), before);
    assert_eq!(db.get(0, b"a"), Some(b"1".to_vec()));
    assert_eq!(db.get(0, b"b"), Some(b"2".to_vec()));
    assert_eq!(db.get(0, b"c"), None);
    assert_eq!(db.locks().held_len(), 0);
}

#[test]
fn rollback_to_savepoint_undoes_the_later_writes_only() {
    let mut db = Database::new();
    let mut t = optimistic(&mut db);
    assert_eq!(t.put(&mut db, b"a", b"1"), Ok(()));
    assert_eq!(t.put(&mut db, b"b", b"2"), Ok(()));
    assert_eq!(t.set_savepoint(&db), Ok(()));
    assert_eq!(t.savepoint_count(), 1);
    assert_eq!(t.put(&mut db, b"a", b"later"), Ok(()));
    assert_eq!(t.delete(&mut db, b"b"), Ok(()));
    assert_eq!(t.put(&mut db, b"c", b"3"), Ok(()));
    assert_eq!(t.rollback_to_savepoint(&mut db), Ok(()));
    assert_eq!(t.savepoint_count(), 0);
    assert_eq!(t.pending_writes(), 2);
    assert_eq!(t.get(&db, b"a"), value(b"1"));
    assert_eq!(t.get(&db, b"b"), value(b"2"));
    assert_eq!(t.get(&db, b"c"), Ok(None));
    assert_eq!(t.rollback_to_savepoint(&mut db), Err(Error::NoSavepoint));
    assert_eq!(t.state(), State::Active);
    assert_eq!(t.pending_writes(), 2);
}

#[test]
fn rollback_to_savepoint_without_savepoint_is_an_error() {
    let mut db = Database::new();
    let mut t = optimistic(&mut db);
    assert_eq!(t.put(&mut db, b"a", b"1"), Ok(()));
    assert_eq!(t.rollback_to_savepoint(&mut db), Err(Error::NoSavepoint));
    assert_eq!(t.get(&db, b"a"), value(b"1"));
}

#[test]
fn savepoints_nest() {
    let mut db = Database::new();
    let mut t = optimistic(&mut db);
    assert_eq!(t.put(&mut db, b"k", b"0"), Ok(()));
    assert_eq!(t.set_savepoint(&db), Ok(()));
    assert_eq!(t.put(&mut db, b"k", b"1"), Ok(()));
    assert_eq!(t.set_savepoint(&db), Ok(()));
    assert_eq!(t.put(&mut db, b"k", b"2"), Ok(()));
    assert_eq!(t.savepoint_count(), 2);
    assert_eq!(t.rollback_to_savepoint(&mut db), Ok(()));
    assert_eq!(t.get(&db, b"k"), value(b"1"));
    assert_eq!(t.rollback_to_savepoint(&mut db), Ok(()));
    assert_eq!(t.get(&db, b"k"), value(b"0"));
    assert_eq!(t.rollback_to_savepoint(&mut db), Err(Error::NoSavepoint));
}

#[test]
fn rollback_to_savepoint_gives_up_the_later_locks() {
    let mut db = Database::new();
    let mut t1 = pessimistic(&mut db, 0);
    let mut t2 = pessimistic(&mut db, 0);
    assert_eq!(t1.put(&mut db, b"a", b"1"), Ok(()));
    assert_eq!(t1.set_savepoint(&db), Ok(()));
    assert_eq!(t1.put(&mut db, b"b", b"2"), Ok(()));
    assert_eq!(t1.get_for_update(&mut db, b"c", false), Ok(None));
    assert_eq!(db.locks().count(t1.id()), 3);
    assert_eq!(t2.put(&mut db, b"b", b"x"), Err(Error::LockTimeout));
    assert_eq!(t1.rollback_to_savepoint(&mut db), Ok(()));
    assert_eq!(db.locks().count(t1.id()), 1);
    assert_eq!(t2.put(&mut db, b"b", b"x"), Ok(()));
    assert_eq!(t2.put(&mut db, b"c", b"y"), Ok(()));
    assert_eq!(t2.put(&mut db, b"a", b"z"), Err(Error::LockTimeout));
    assert_eq!(t1.get(&db, b"a"), value(b"1"));
    assert_eq!(t1.get(&db, b"b"), Ok(None));
}

#[test]
fn optimistic_first_committer_wins() {
    let mut db = Database::new();
    let mut t1 = optimistic(&mut db);
    assert_eq!(t1.put(&mut db, b"K1", b"a"), Ok(()));
    let mut t2 = optimistic(&mut db);
    assert_eq!(t2.put(&mut db, b"K1", b"b"), Ok(()));
    assert_eq!(t1.commit(&mut db), Ok(()));
    assert_eq!(t2.commit(&mut db), Err(Error::Conflict));
    assert_eq!(t2.state(), State::Active);
    assert_eq!(t2.get(&db, b"K1"), value(b"b"));
    assert_eq!(db.get(0, b"K1"), Some(b"a".to_vec()));
    assert_eq!(db.storage().last_seq(), 1);
    assert_eq!(t2.commit(&mut db), Err(Error::Conflict));
    assert_eq!(t2.rollback(&mut db), Ok(()));
}

#[test]
fn optimistic_commits_on_disjoint_keys_both_succeed() {
    let mut db = Database::new();
    let mut t1 = optimistic(&mut db);
    let mut t2 = optimistic(&mut db);
    assert_eq!(t1.put(&mut db, b"a", b"1"), Ok(()));
    assert_eq!(t2.put(&mut db, b"b", b"2"), Ok(()));
    assert_eq!(t1.commit(&mut db), Ok(()));
    assert_eq!(t2.commit(&mut db), Ok(()));
    assert_eq!(db.get(0, b"a"), Some(b"1".to_vec()));
    assert_eq!(db.get(0, b"b"), Some(b"2".to_vec()));
}

#[test]
fn optimistic_read_for_update_is_validated_at_commit() {
    let mut db = Database::new();
    db.put(0, b"k", b"v").unwrap();
    let mut t1 = optimistic(&mut db);
    assert_eq!(t1.get_for_update(&mut db, b"k", true), value(b"v"));
    assert_eq!(t1.put(&mut db, b"other", b"x"), Ok(()));
    db.put(0, b"k", b"w").unwrap();
    assert_eq!(t1.commit(&mut db), Err(Error::Conflict));
    assert_eq!(db.get(0, b"other"), None);
    assert_eq!(db.locks().held_len(), 0);
}

#[test]
fn optimistic_plain_read_is_not_validated() {
    let mut db = Database::new();
    db.put(0, b"k", b"v").unwrap();
    let mut t1 = optimistic(&mut db);
    assert_eq!(t1.get(&db, b"k"), value(b"v"));
    assert_eq!(t1.put(&mut db, b"other", b"x"), Ok(()));
    db.put(0, b"k", b"w").unwrap();
    assert_eq!(t1.commit(&mut db), Ok(()));
}

#[test]
fn optimistic_commit_without_history_is_a_retryable_conflict() {
    let mut db = Database::new();
    db.put(0, b"a", b"1").unwrap();
    let mut t = optimistic(&mut db);
    assert_eq!(t.put(&mut db, b"k", b"v"), Ok(()));
    db.put(0, b"b", b"2").unwrap();
    db.put(0, b"c", b"3").unwrap();
    db.discard_history(3);
    assert_eq!(db.storage().history_floor(), 3);
    assert_eq!(t.commit(&mut db), Err(Error::RetryableConflict));
    assert_eq!(t.state(), State::Active);
    assert_eq!(db.get(0, b"k"), None);
    assert_eq!(db.storage().last_seq(), 3);
}

#[test]
fn pessimistic_exclusive_lock_blocks_until_the_holder_ends() {
    let mut db = Database::new();
    let mut t1 = pessimistic(&mut db, 50);
    let mut t2 = pessimistic(&mut db, 50);
    assert_eq!(t1.get_for_update(&mut db, b"K", true), Ok(None));
    assert_eq!(t2.get_for_update(&mut db, b"K", true), Err(Error::LockWait));
    db.advance_clock(49);
    assert_eq!(t2.get_for_update(&mut db, b"K", true), Err(Error::LockWait));
    assert_eq!(t2.state(), State::Active);
    assert_eq!(db.locks().waiting_len(), 1);
    assert_eq!(t1.rollback(&mut db), Ok(()));
    assert_eq!(db.locks().count(t1.id()), 0);
    assert_eq!(t2.get_for_update(&mut db, b"K", true), Ok(None));
    assert_eq!(db.locks().held_len(), 1);
    assert_eq!(db.locks().lock(0).txn, t2.id());
    assert_eq!(db.locks().waiting_len(), 0);
}

#[test]
fn pessimistic_wait_runs_out() {
    let mut db = Database::new();
    let mut t1 = pessimistic(&mut db, 50);
    let mut t2 = pessimistic(&mut db, 50);
    assert_eq!(t1.put(&mut db, b"K", b"a"), Ok(()));
    assert_eq!(t2.put(&mut db, b"K", b"b"), Err(Error::LockWait));
    db.advance_clock(50);
    assert_eq!(t2.put(&mut db, b"K", b"b"), Err(Error::LockTimeout));
    assert_eq!(t2.state(), State::Active);
    assert_eq!(t2.pending_writes(), 0);
    assert_eq!(db.locks().waiting_len(), 0);
}

#[test]
fn pessimistic_second_writer_blocks_or_times_out() {
    let mut db = Database::new();
    let mut t1 = pessimistic(&mut db, 0);
    assert_eq!(t1.put(&mut db, b"K1", b"a"), Ok(()));
    let mut t2 = pessimistic(&mut db, 0);
    assert_eq!(t2.put(&mut db, b"K1", b"b"), Err(Error::LockTimeout));
    let mut t3 = pessimistic(&mut db, 5);
    assert_eq!(t3.put(&mut db, b"K1", b"c"), Err(Error::LockWait));
    assert_eq!(t1.commit(&mut db), Ok(()));
    assert_eq!(t3.put(&mut db, b"K1", b"c"), Ok(()));
    assert_eq!(t3.commit(&mut db), Ok(()));
    assert_eq!(db.get(0, b"K1"), Some(b"c".to_vec()));
}

#[test]
fn pessimistic_shared_readers_share_and_shut_out_a_writer() {
    let mut db = Database::new();
    let mut t1 = pessimistic(&mut db, 0);
    let mut t2 = pessimistic(&mut db, 0);
    let mut t3 = pessimistic(&mut db, 0);
    let mut t4 = pessimistic(&mut db, 9);
    db.put(0, b"K", b"v").unwrap();
    assert_eq!(t1.get_for_update(&mut db, b"K", false), value(b"v"));
    assert_eq!(t2.get_for_update(&mut db, b"K", false), value(b"v"));
    assert_eq!(t3.get_for_update(&mut db, b"K", true), Err(Error::LockTimeout));
    assert_eq!(t4.get_for_update(&mut db, b"K", true), Err(Error::LockWait));
    assert_eq!(db.locks().held_len(), 2);
    assert_eq!(t1.commit(&mut db), Ok(()));
    assert_eq!(t4.get_for_update(&mut db, b"K", true), Err(Error::LockWait));
    assert_eq!(t2.rollback(&mut db), Ok(()));
    assert_eq!(t4.get_for_update(&mut db, b"K", true), value(b"v"));
}

#[test]
fn pessimistic_deadlock_is_detected() {
    let mut db = Database::new();
    let mut t1 =
        Transaction::begin(&mut db, ConcurrencyControl::Pessimistic, &options(100, true)).unwrap();
    let mut t2 =
        Transaction::begin(&mut db, ConcurrencyControl::Pessimistic, &options(100, true)).unwrap();
    assert_eq!(t1.put(&mut db, b"a", b"1"), Ok(()));
    assert_eq!(t2.put(&mut db, b"b", b"2"), Ok(()));
    assert_eq!(t1.put(&mut db, b"b", b"1"), Err(Error::LockWait));
    assert_eq!(t2.put(&mut db, b"a", b"2"), Err(Error::Deadlock));
    assert_eq!(t2.state(), State::Active);
    assert_eq!(t2.rollback(&mut db), Ok(()));
    assert_eq!(t1.put(&mut db, b"b", b"1"), Ok(()));
    assert_eq!(t1.commit(&mut db), Ok(()));
    assert_eq!(db.get(0, b"a"), Some(b"1".to_vec()));
    assert_eq!(db.get(0, b"b"), Some(b"1".to_vec()));
}

#[test]
fn pessimistic_commit_releases_the_locks() {
    let mut db = Database::new();
    let mut t1 = pessimistic(&mut db, 0);
    assert_eq!(t1.put(&mut db, b"a", b"1"), Ok(()));
    assert_eq!(t1.put(&mut db, b"b", b"2"), Ok(()));
    assert_eq!(db.locks().held_len(), 2);
    assert_eq!(t1.commit(&mut db), Ok(()));
    assert_eq!(db.locks().held_len(), 0);
}

#[test]
fn committing_twice_is_invalid_state() {
    let mut db = Database::new();
    let mut t = optimistic(&mut db);
    assert_eq!(t.put(&mut db, b"k", b"v"), Ok(()));
    assert_eq!(t.commit(&mut db), Ok(()));
    assert_eq!(t.commit(&mut db), Err(Error::InvalidState));
    assert_eq!(t.state(), State::Committed);
    assert_eq!(db.storage().last_seq(), 1);
}

#[test]
fn every_operation_on_a_finished_transaction_is_invalid_state() {
    let mut db = Database::new();
    db.put(0, b"k", b"v").unwrap();
    let mut t = pessimistic(&mut db, 0);
    assert_eq!(t.rollback(&mut db), Ok(()));
    let opts = ReadOptions::default();
    assert_eq!(t.get(&db, b"k"), Err(Error::InvalidState));
    assert_eq!(t.get_cf(&db, 0, b"k"), Err(Error::InvalidState));
    assert_eq!(t.get_opt(&db, b"k", &opts), Err(Error::InvalidState));
    assert_eq!(t.get_cf_opt(&db, 0, b"k", &opts), Err(Error::InvalidState));
    assert_eq!(t.get_for_update(&mut db, b"k", true), Err(Error::InvalidState));
    assert_eq!(t.get_for_update_cf(&mut db, 0, b"k", true), Err(Error::InvalidState));
    assert_eq!(t.get_for_update_opt(&mut db, b"k", true, &opts), Err(Error::InvalidState));
    assert_eq!(t.get_for_update_cf_opt(&mut db, 0, b"k", true, &opts), Err(Error::InvalidState));
    assert_eq!(t.put(&mut db, b"k", b"w"), Err(Error::InvalidState));
    assert_eq!(t.put_cf(&mut db, 0, b"k", b"w"), Err(Error::InvalidState));
    assert_eq!(t.merge(&mut db, b"k", b"w"), Err(Error::InvalidState));
    assert_eq!(t.merge_cf(&mut db, 0, b"k", b"w"), Err(Error::InvalidState));
    assert_eq!(t.delete(&mut db, b"k"), Err(Error::InvalidState));
    assert_eq!(t.delete_cf(&mut db, 0, b"k"), Err(Error::InvalidState));
    assert_eq!(t.set_savepoint(&db), Err(Error::InvalidState));
    assert_eq!(t.rollback_to_savepoint(&mut db), Err(Error::InvalidState));
    assert_eq!(t.commit(&mut db), Err(Error::InvalidState));
    assert_eq!(t.rollback(&mut db), Err(Error::InvalidState));
    assert_eq!(db.locks().held_len(), 0);
    assert_eq!(db.get(0, b"k"), Some(b"v".to_vec()));
}

#[test]
fn an_expired_transaction_is_rolled_back() {
    let mut db = Database::new();
    let opts = TransactionOptions {
        set_snapshot: true,
        expiration: Some(10),
        lock_timeout: 0,
        deadlock_detect: false,
    };
    let mut t = Transaction::begin(&mut db, ConcurrencyControl::Pessimistic, &opts).unwrap();
    assert_eq!(db.storage().live_snapshots(), 1);
    assert_eq!(t.put(&mut db, b"k", b"v"), Ok(()));
    assert!(!t.is_expired(db.now()));
    db.advance_clock(9);
    assert_eq!(t.put(&mut db, b"j", b"w"), Ok(()));
    db.advance_clock(1);
    assert!(t.is_expired(db.now()));
    assert_eq!(t.commit(&mut db), Err(Error::Expired));
    assert_eq!(t.state(), State::RolledBack);
    assert_eq!(db.locks().held_len(), 0);
    assert_eq!(db.storage().live_snapshots(), 0);
    assert_eq!(db.get(0, b"k"), None);
    assert_eq!(t.commit(&mut db), Err(Error::InvalidState));
}

#[test]
fn an_expired_transaction_cannot_write_or_lock() {
    let mut db = Database::new();
    let opts = TransactionOptions {
        set_snapshot: false,
        expiration: Some(3),
        lock_timeout: 0,
        deadlock_detect: false,
    };
    let mut t1 = Transaction::begin(&mut db, ConcurrencyControl::Pessimistic, &opts).unwrap();
    let mut t2 = Transaction::begin(&mut db, ConcurrencyControl::Optimistic, &opts).unwrap();
    assert_eq!(t1.put(&mut db, b"k", b"v"), Ok(()));
    db.advance_clock(3);
    assert_eq!(t1.get_for_update(&mut db, b"j", true), Err(Error::Expired));
    assert_eq!(t1.state(), State::RolledBack);
    assert_eq!(db.locks().held_len(), 0);
    assert_eq!(t2.put(&mut db, b"k", b"v"), Err(Error::Expired));
    assert_eq!(t2.state(), State::RolledBack);
}

#[test]
fn the_clock_stops_at_its_largest_value() {
    let mut db = Database::new();
    assert_eq!(db.now(), 0);
    db.advance_clock(5);
    assert_eq!(db.now(), 5);
    db.advance_clock(u64::MAX);
    assert_eq!(db.now(), u64::MAX);
    db.advance_clock(1);
    assert_eq!(db.now(), u64::MAX);
}

#[test]
fn a_snapshot_fixes_what_the_transaction_reads() {
    let mut db = Database::new();
    db.put(0, b"k", b"old").unwrap();
    let opts = TransactionOptions {
        set_snapshot: true,
        expiration: None,
        lock_timeout: 0,
        deadlock_detect: false,
    };
    let t = Transaction::begin(&mut db, ConcurrencyControl::Optimistic, &opts).unwrap();
    let plain = optimistic(&mut db);
    db.put(0, b"k", b"new").unwrap();
    db.put(0, b"j", b"born").unwrap();
    assert_eq!(t.snapshot().sequence(), Some(1));
    assert_eq!(t.get(&db, b"k"), value(b"old"));
    assert_eq!(t.get(&db, b"j"), Ok(None));
    assert_eq!(plain.get(&db, b"k"), value(b"new"));
    assert_eq!(plain.snapshot().sequence(), None);
    let mut at_two = ReadOptions::default();
    at_two.set_snapshot(&Snapshot::at(2));
    assert_eq!(t.get_opt(&db, b"k", &at_two), value(b"new"));
    assert_eq!(t.get_opt(&db, b"j", &at_two), Ok(None));
    assert_eq!(plain.get_cf_opt(&db, 0, b"k", &at_two), value(b"new"));
    let mut at_one = ReadOptions::default();
    at_one.set_snapshot(&t.snapshot());
    assert_eq!(plain.get_opt(&db, b"k", &at_one), value(b"old"));
    assert_eq!(t.read_point(&db, &ReadOptions::default()), 1);
    assert_eq!(plain.read_point(&db, &ReadOptions::default()), 3);
    assert_eq!(plain.read_point(&db, &at_two), 2);
}

#[test]
fn a_snapshot_is_the_observation_point_of_optimistic_validation() {
    let mut db = Database::new();
    db.put(0, b"k", b"old").unwrap();
    let opts = TransactionOptions {
        set_snapshot: true,
        expiration: None,
        lock_timeout: 0,
        deadlock_detect: false,
    };
    let mut t = Transaction::begin(&mut db, ConcurrencyControl::Optimistic, &opts).unwrap();
    db.put(0, b"k", b"new").unwrap();
    assert_eq!(t.get_for_update(&mut db, b"k", true), value(b"old"));
    assert_eq!(t.commit(&mut db), Err(Error::Conflict));
}

#[test]
fn a_snapshot_is_released_when_the_transaction_ends() {
    let mut db = Database::new();
    let opts = TransactionOptions {
        set_snapshot: true,
        expiration: None,
        lock_timeout: 0,
        deadlock_detect: false,
    };
    let mut t1 = Transaction::begin(&mut db, ConcurrencyControl::Optimistic, &opts).unwrap();
    let mut t2 = Transaction::begin(&mut db, ConcurrencyControl::Optimistic, &opts).unwrap();
    assert_eq!(db.storage().live_snapshots(), 2);
    assert_eq!(t1.commit(&mut db), Ok(()));
    assert_eq!(db.storage().live_snapshots(), 1);
    assert_eq!(t1.commit(&mut db), Err(Error::InvalidState));
    assert_eq!(db.storage().live_snapshots(), 1);
    assert_eq!(t2.rollback(&mut db), Ok(()));
    assert_eq!(db.storage().live_snapshots(), 0);
    assert_eq!(t1.snapshot().sequence(), None);
}

#[test]
fn read_for_update_reads_the_own_write_and_reports_a_pending_merge() {
    let mut db = Database::new();
    db.put(0, b"k", b"v").unwrap();
    let mut t = pessimistic(&mut db, 0);
    assert_eq!(t.get_for_update_cf(&mut db, 0, b"k", true), value(b"v"));
    assert_eq!(t.put(&mut db, b"k", b"mine"), Ok(()));
    assert_eq!(t.get_for_update_opt(&mut db, b"k", false, &ReadOptions::default()), value(b"mine"));
    assert_eq!(t.merge(&mut db, b"k", b"+m"), Ok(()));
    assert_eq!(
        t.get_for_update_cf_opt(&mut db, 0, b"k", true, &ReadOptions::default()),
        Err(Error::MergeInProgress)
    );
    assert_eq!(db.locks().count(t.id()), 1);
    assert_eq!(t.commit(&mut db), Ok(()));
    assert_eq!(db.get(0, b"k"), Some(b"v+m".to_vec()));
}

#[test]
fn errors_carry_their_status() {
    assert_eq!(Error::Conflict.status(), "Busy");
    assert_eq!(Error::RetryableConflict.status(), "TryAgain");
    assert_eq!(Error::LockTimeout.status(), "TimedOut");
    assert_eq!(Error::Deadlock.status(), "Deadlock");
    assert_eq!(Error::Expired.status(), "Expired");
    assert_eq!(Error::MergeInProgress.status(), "MergeInProgress");
    assert_eq!(Error::NoSavepoint.status(), "NoSavepoint");
    assert_eq!(Error::InvalidState.status(), "InvalidState");
    assert_eq!(Error::LockWait.status(), "LockWait");
    assert_eq!(Error::Storage(StorageError::NoSpace).status(), "IOError");
    assert!(Error::Storage(StorageError::NoSpace).is_fatal());
    assert!(Error::Expired.is_fatal());
    assert!(!Error::Conflict.is_fatal());
    assert!(!Error::LockTimeout.is_fatal());
    assert!(!Error::Deadlock.is_fatal());
}

#[test]
fn the_database_hands_out_every_identifier_once() {
    let mut db = Database::new();
    assert_eq!(db.allocate_id(), Some(1));
    assert_eq!(db.allocate_id(), Some(2));
    let t = optimistic(&mut db);
    assert_eq!(t.id(), 3);
}

#[test]
fn a_commit_that_the_store_refuses_ends_the_transaction() {
    let mut db = Database::with_capacity(2);
    db.put(0, b"a", b"1").unwrap();
    let mut t = pessimistic(&mut db, 0);
    assert_eq!(t.put(&mut db, b"b", b"2"), Ok(()));
    assert_eq!(t.put(&mut db, b"c", b"3"), Ok(()));
    assert_eq!(t.commit(&mut db), Err(Error::Storage(StorageError::NoSpace)));
    assert_eq!(t.state(), State::RolledBack);
    assert_eq!(db.storage().last_seq(), 1);
    assert_eq!(db.get(0, b"b"), None);
    assert_eq!(db.locks().held_len(), 0);
    assert_eq!(t.commit(&mut db), Err(Error::InvalidState));
    let mut small = pessimistic(&mut db, 0);
    assert_eq!(small.put(&mut db, b"b", b"2"), Ok(()));
    assert_eq!(small.put(&mut db, b"b", b"22"), Ok(()));
    assert_eq!(small.commit(&mut db), Ok(()));
    assert_eq!(db.get(0, b"b"), Some(b"22".to_vec()));
    assert_eq!(db.put(0, b"z", b"9"), Err(StorageError::NoSpace));
    assert_eq!(db.delete(0, b"a"), Err(StorageError::NoSpace));
    assert_eq!(db.merge(0, b"a", b"+"), Err(StorageError::NoSpace));
}

#[test]
fn a_conflict_is_found_before_the_store_is_asked() {
    let mut db = Database::with_capacity(1);
    let mut t = optimistic(&mut db);
    assert_eq!(t.put(&mut db, b"k", b"mine"), Ok(()));
    db.put(0, b"k", b"theirs").unwrap();
    assert_eq!(t.commit(&mut db), Err(Error::Conflict));
    assert_eq!(t.state(), State::Active);
}

#[test]
fn the_database_commits_single_writes() {
    let mut db = Database::new();
    assert_eq!(db.storage().capacity(), usize::MAX);
    assert_eq!(db.put(3, b"k", b"a"), Ok(()));
    assert_eq!(db.merge(3, b"k", b"b"), Ok(()));
    assert_eq!(db.get(3, b"k"), Some(b"ab".to_vec()));
    assert_eq!(db.delete(3, b"k"), Ok(()));
    assert_eq!(db.get(3, b"k"), None);
    assert_eq!(db.merge(3, b"k", b"c"), Ok(()));
    assert_eq!(db.get(3, b"k"), Some(b"c".to_vec()));
    assert_eq!(db.storage().last_seq(), 4);
    let s = db.create_snapshot();
    assert_eq!(s.sequence(), Some(4));
    assert_eq!(db.storage().live_snapshots(), 1);
    db.release_snapshot(&s);
    assert_eq!(db.storage().live_snapshots(), 0);
}
