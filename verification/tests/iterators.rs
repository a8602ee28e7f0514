use kv_txn::database::Database;
use kv_txn::error::Error;
use kv_txn::iterator::{RawIterator, TransactionIterator};
use kv_txn::options::{
    ConcurrencyControl, Direction, IteratorMode, ReadOptions, TransactionOptions,
};
use kv_txn::storage::Snapshot;
use kv_txn::transaction::Transaction;

fn begin(db: &mut Database) -> Transaction {
    Transaction::begin(db, ConcurrencyControl::Optimistic, &TransactionOptions::default()).unwrap()
}

fn pair(k: &[u8], v: &[u8]) -> (Vec<u8>, Vec<u8>) {
    (k.to_vec(), v.to_vec())
}

fn drain(it: &mut TransactionIterator) -> Vec<(Vec<u8>, Vec<u8>)> {
    let mut out = Vec::new();
    while let Some(e) = it.next() {
        out.push(e);
    }
    out
}

// Store: a=1 b=2 c=3 d=4 m=base; the transaction puts b=B, deletes c,
// puts e=5, merges +x into m, merges only into n, deletes the absent z.
fn scene() -> (Database, Transaction) {
    let mut db = Database::new();
    db.put(0, b"a", b"1").unwrap();
    db.put(0, b"b", b"2").unwrap();
    db.put(0, b"c", b"3").unwrap();
    db.put(0, b"d", b"4").unwrap();
    db.put(0, b"m", b"base").unwrap();
    db.put(9, b"elsewhere", b"x").unwrap();
    let mut t = begin(&mut db);
    assert_eq!(t.put(&mut db, b"b", b"B"), Ok(()));
    assert_eq!(t.delete(&mut db, b"c"), Ok(()));
    assert_eq!(t.put(&mut db, b"e", b"5"), Ok(()));
    assert_eq!(t.merge(&mut db, b"m", b"+x"), Ok(()));
    assert_eq!(t.merge(&mut db, b"n", b"only"), Ok(()));
    assert_eq!(t.delete(&mut db, b"z"), Ok(()));
    (db, t)
}

fn merged_view() -> Vec<(Vec<u8>, Vec<u8>)> {
    vec![
        pair(b"a", b"1"),
        pair(b"b", b"B"),
        pair(b"d", b"4"),
        pair(b"e", b"5"),
        pair(b"m", b"base+x"),
        pair(b"n", b"only"),
    ]
}

#[test]
fn iterator_goes_through_the_merged_view_in_key_order() {
    let (db, t) = scene();
    let mut it = t.iterator(&db, IteratorMode::Start);
    assert_eq!(it.status(), Ok(()));
    assert!(it.valid());
    assert_eq!(drain(&mut it), merged_view());
    assert!(!it.valid());
    assert_eq!(it.next(), None);
}

#[test]
fn iterator_goes_backward_from_the_end() {
    let (db, t) = scene();
    let mut it = t.iterator(&db, IteratorMode::End);
    let mut expected = merged_view();
    expected.reverse();
    assert_eq!(drain(&mut it), expected);
}

#[test]
fn iterator_starts_from_a_key() {
    let (db, t) = scene();
    let mut forward = t.iterator(&db, IteratorMode::From(b"c", Direction::Forward));
    assert_eq!(drain(&mut forward), merged_view()[2..].to_vec());
    let mut at_key = t.iterator(&db, IteratorMode::From(b"d", Direction::Forward));
    assert_eq!(drain(&mut at_key), merged_view()[2..].to_vec());
    let mut backward = t.iterator(&db, IteratorMode::From(b"c", Direction::Reverse));
    assert_eq!(drain(&mut backward), vec![pair(b"b", b"B"), pair(b"a", b"1")]);
    let mut backward_at = t.iterator(&db, IteratorMode::From(b"b", Direction::Reverse));
    assert_eq!(drain(&mut backward_at), vec![pair(b"b", b"B"), pair(b"a", b"1")]);
    let mut past = t.iterator(&db, IteratorMode::From(b"zz", Direction::Forward));
    assert_eq!(drain(&mut past), vec![]);
    let mut before = t.iterator(&db, IteratorMode::From(b"", Direction::Reverse));
    assert_eq!(drain(&mut before), vec![]);
}

#[test]
fn iterator_can_be_started_again() {
    let (db, t) = scene();
    let mut it = t.iterator(&db, IteratorMode::Start);
    assert_eq!(it.next(), Some(pair(b"a", b"1")));
    assert_eq!(it.next(), Some(pair(b"b", b"B")));
    it.set_mode(IteratorMode::Start);
    assert_eq!(drain(&mut it), merged_view());
    it.set_mode(IteratorMode::From(b"m", Direction::Reverse));
    assert_eq!(it.next(), Some(pair(b"m", b"base+x")));
    assert_eq!(it.next(), Some(pair(b"e", b"5")));
}

#[test]
fn full_iterator_goes_through_every_key() {
    let (db, t) = scene();
    let mut it = t.full_iterator(&db, IteratorMode::Start);
    assert_eq!(drain(&mut it), merged_view());
    let mut from = t.full_iterator(&db, IteratorMode::From(b"e", Direction::Forward));
    assert_eq!(drain(&mut from), merged_view()[3..].to_vec());
    let mut cf = t.full_iterator_cf(&db, 9, IteratorMode::Start);
    assert_eq!(drain(&mut cf), vec![pair(b"elsewhere", b"x")]);
}

#[test]
fn total_order_overrides_the_prefix() {
    let mut db = Database::new();
    db.put(0, b"user:1", b"a").unwrap();
    db.put(0, b"view:1", b"b").unwrap();
    let t = begin(&mut db);
    let mut opts = ReadOptions::default();
    opts.set_prefix_same_as_start(true);
    opts.set_total_order_seek(true);
    let mut it = t.iterator_opt(&db, IteratorMode::From(b"user:", Direction::Forward), opts);
    assert_eq!(drain(&mut it), vec![pair(b"user:1", b"a"), pair(b"view:1", b"b")]);
}

#[test]
fn prefix_iterator_stays_within_the_prefix() {
    let mut db = Database::new();
    db.put(0, b"user:1", b"a").unwrap();
    db.put(0, b"user:3", b"c").unwrap();
    db.put(0, b"usez", b"z").unwrap();
    db.put(0, b"use", b"short").unwrap();
    db.put(1, b"user:9", b"other").unwrap();
    let mut t = begin(&mut db);
    assert_eq!(t.put(&mut db, b"user:2", b"b"), Ok(()));
    assert_eq!(t.delete(&mut db, b"user:3"), Ok(()));
    assert_eq!(t.put(&mut db, b"view", b"v"), Ok(()));
    let mut it = t.prefix_iterator(&db, b"user:");
    assert_eq!(drain(&mut it), vec![pair(b"user:1", b"a"), pair(b"user:2", b"b")]);
    let mut cf = t.prefix_iterator_cf(&db, 1, b"user:");
    assert_eq!(drain(&mut cf), vec![pair(b"user:9", b"other")]);
    let mut none = t.prefix_iterator(&db, b"nobody");
    assert_eq!(drain(&mut none), vec![]);
    let mut plain = t.iterator(&db, IteratorMode::From(b"user:", Direction::Forward));
    assert_eq!(
        drain(&mut plain),
        vec![pair(b"user:1", b"a"), pair(b"user:2", b"b"), pair(b"usez", b"z"), pair(b"view", b"v")]
    );
}

#[test]
fn iterator_respects_the_bounds() {
    let (db, t) = scene();
    let mut opts = ReadOptions::default();
    opts.set_iterate_lower_bound(b"b");
    opts.set_iterate_upper_bound(b"m");
    let mut it = t.iterator_opt(&db, IteratorMode::Start, opts);
    assert_eq!(drain(&mut it), vec![pair(b"b", b"B"), pair(b"d", b"4"), pair(b"e", b"5")]);
    let mut opts = ReadOptions::default();
    opts.set_iterate_lower_bound(b"b");
    opts.set_iterate_upper_bound(b"m");
    let mut back = t.iterator_cf_opt(&db, 0, opts, IteratorMode::End);
    assert_eq!(drain(&mut back), vec![pair(b"e", b"5"), pair(b"d", b"4"), pair(b"b", b"B")]);
}

#[test]
fn iterator_over_a_column_family() {
    let (db, t) = scene();
    let mut it = t.iterator_cf(&db, 9, IteratorMode::Start);
    assert_eq!(drain(&mut it), vec![pair(b"elsewhere", b"x")]);
    let mut empty = t.iterator_cf(&db, 5, IteratorMode::End);
    assert_eq!(drain(&mut empty), vec![]);
}

#[test]
fn iterator_reads_at_the_snapshot() {
    let mut db = Database::new();
    db.put(0, b"a", b"1").unwrap();
    db.put(0, b"b", b"2").unwrap();
    let opts = TransactionOptions {
        set_snapshot: true,
        expiration: None,
        lock_timeout: 0,
        deadlock_detect: false,
    };
    let t = Transaction::begin(&mut db, ConcurrencyControl::Optimistic, &opts).unwrap();
    db.put(0, b"c", b"3").unwrap();
    db.delete(0, b"a").unwrap();
    db.put(0, b"b", b"22").unwrap();
    let mut it = t.iterator(&db, IteratorMode::Start);
    assert_eq!(drain(&mut it), vec![pair(b"a", b"1"), pair(b"b", b"2")]);
    let mut latest = ReadOptions::default();
    latest.set_snapshot(&Snapshot::at(db.storage().last_seq()));
    let mut now = t.iterator_opt(&db, IteratorMode::Start, latest);
    assert_eq!(drain(&mut now), vec![pair(b"b", b"22"), pair(b"c", b"3")]);
}

#[test]
fn iterator_over_a_finished_transaction_shows_nothing() {
    let (mut db, mut t) = scene();
    assert_eq!(t.rollback(&mut db), Ok(()));
    let mut it = t.iterator(&db, IteratorMode::Start);
    assert_eq!(it.status(), Err(Error::InvalidState));
    assert!(!it.valid());
    assert_eq!(it.next(), None);
    let mut raw = t.raw_iterator(&db);
    raw.seek_to_first();
    assert!(!raw.valid());
    assert_eq!(raw.status(), Err(Error::InvalidState));
}

#[test]
fn raw_iterator_moves_both_ways() {
    let (db, t) = scene();
    let mut raw: RawIterator = t.raw_iterator(&db);
    assert!(!raw.valid());
    assert_eq!(raw.key(), None);
    assert_eq!(raw.value(), None);
    assert_eq!(raw.item(), None);
    raw.next();
    assert!(!raw.valid());
    raw.seek_to_first();
    assert_eq!(raw.item(), Some(pair(b"a", b"1")));
    raw.next();
    assert_eq!(raw.key(), Some(&b"b".to_vec()));
    assert_eq!(raw.value(), Some(&b"B".to_vec()));
    raw.next();
    assert_eq!(raw.item(), Some(pair(b"d", b"4")));
    raw.prev();
    assert_eq!(raw.item(), Some(pair(b"b", b"B")));
    raw.prev();
    raw.prev();
    assert!(!raw.valid());
    raw.prev();
    assert!(!raw.valid());
    raw.seek_to_last();
    assert_eq!(raw.item(), Some(pair(b"n", b"only")));
    raw.next();
    assert!(!raw.valid());
    assert_eq!(raw.status(), Ok(()));
}

#[test]
fn raw_iterator_seeks() {
    let (db, t) = scene();
    let mut raw = t.raw_iterator_cf(&db, 0);
    raw.seek(b"c");
    assert_eq!(raw.item(), Some(pair(b"d", b"4")));
    raw.seek(b"m");
    assert_eq!(raw.item(), Some(pair(b"m", b"base+x")));
    raw.seek(b"o");
    assert!(!raw.valid());
    raw.seek_for_prev(b"c");
    assert_eq!(raw.item(), Some(pair(b"b", b"B")));
    raw.seek_for_prev(b"zzz");
    assert_eq!(raw.item(), Some(pair(b"n", b"only")));
    raw.seek_for_prev(b"0");
    assert!(!raw.valid());
}

#[test]
fn raw_iterator_with_options_seeks_by_prefix() {
    let mut db = Database::new();
    db.put(0, b"ab1", b"1").unwrap();
    db.put(0, b"ab2", b"2").unwrap();
    db.put(0, b"ac1", b"3").unwrap();
    let t = begin(&mut db);
    let mut opts = ReadOptions::default();
    opts.set_prefix_same_as_start(true);
    let mut raw = t.raw_iterator_opt(&db, opts);
    raw.seek(b"ab");
    assert_eq!(raw.item(), Some(pair(b"ab1", b"1")));
    raw.next();
    assert_eq!(raw.item(), Some(pair(b"ab2", b"2")));
    raw.next();
    assert!(!raw.valid());
    raw.seek_to_first();
    raw.next();
    raw.next();
    assert_eq!(raw.item(), Some(pair(b"ac1", b"3")));
    raw.seek_for_prev(b"ac");
    assert!(!raw.valid());
    raw.seek_for_prev(b"ab2");
    assert_eq!(raw.item(), Some(pair(b"ab2", b"2")));
    let mut bounded = ReadOptions::default();
    bounded.set_iterate_upper_bound(b"ab2");
    let mut raw = t.raw_iterator_cf_opt(&db, 0, bounded);
    raw.seek_to_last();
    assert_eq!(raw.item(), Some(pair(b"ab1", b"1")));
}

#[test]
fn iterator_sees_only_the_last_write_of_a_key() {
    let mut db = Database::new();
    let mut t = begin(&mut db);
    assert_eq!(t.put(&mut db, b"k", b"1"), Ok(()));
    assert_eq!(t.put(&mut db, b"k", b"2"), Ok(()));
    assert_eq!(t.put(&mut db, b"j", b"x"), Ok(()));
    assert_eq!(t.delete(&mut db, b"j"), Ok(()));
    let mut it = t.iterator(&db, IteratorMode::Start);
    assert_eq!(drain(&mut it), vec![pair(b"k", b"2")]);
    assert_eq!(t.visible_value(&db, 0, b"k", 0), Some(b"2".to_vec()));
    assert_eq!(t.visible_value(&db, 0, b"j", 0), None);
    assert_eq!(t.write_buffer().len(), 4);
}
