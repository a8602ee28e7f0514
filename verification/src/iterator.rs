//! Iteration over the merged view of a transaction: the pending writes
//! over the committed store, in key order, without the keys that are
//! deleted. An iterator holds no copy of the view: each move looks for the
//! nearest key that shows.

use vstd::prelude::*;
use crate::bytes::{
    bytes_eq, bytes_le, bytes_lt, lemma_lex_asymmetric, lemma_lex_total, lemma_lex_transitive,
    lex_le, lex_lt, opt_bytes, starts_with, to_vec,
};
use crate::database::{Database, DatabaseView};
use crate::error::Error;
use crate::options::{Direction, IteratorMode, IteratorModeView};
use crate::storage::{clip, lemma_last_write, value_at, version_at};
use crate::transaction::{visible, State, Transaction, TransactionView};
use crate::write_buffer::{lemma_pending_entry, pending};

verus! {

/// What an iterator goes through: the merged view of a transaction in one
/// column family at one sequence number, within bounds.
pub struct ScanView {
    pub txn: TransactionView,
    pub db: DatabaseView,
    pub cf: u32,
    pub seq: u64,
    /// The first key of the range.
    pub lower: Option<Seq<u8>>,
    /// The first key behind the range.
    pub upper: Option<Seq<u8>>,
    /// What every key must begin with.
    pub prefix: Option<Seq<u8>>,
}

/// What a raw iterator holds: what it goes through, whether a seek binds
/// it to the prefix that it sought, and the entry that it stands on.
pub struct RawIteratorView {
    pub scan: ScanView,
    pub prefix_seek: bool,
    pub current: Option<(Seq<u8>, Seq<u8>)>,
}

/// The key of an entry.
pub open spec fn key_of(entry: Option<(Seq<u8>, Seq<u8>)>) -> Seq<u8> {
    match entry {
        Some((k, _)) => k,
        None => Seq::empty(),
    }
}

/// The value of an entry.
pub open spec fn value_of(entry: Option<(Seq<u8>, Seq<u8>)>) -> Seq<u8> {
    match entry {
        Some((_, v)) => v,
        None => Seq::empty(),
    }
}

/// `key` is within the bounds and begins with the prefix.
pub open spec fn in_range(
    key: Seq<u8>,
    lower: Option<Seq<u8>>,
    upper: Option<Seq<u8>>,
    prefix: Option<Seq<u8>>,
) -> bool {
    &&& lower matches Some(l) ==> lex_le(l, key)
    &&& upper matches Some(u) ==> lex_lt(key, u)
    &&& prefix matches Some(p) ==> p.is_prefix_of(key)
}

/// The iteration shows `key`: the transaction is active, the key is in
/// range and has a value in the merged view.
pub open spec fn shows(s: ScanView, key: Seq<u8>) -> bool {
    &&& s.txn.state == State::Active
    &&& in_range(key, s.lower, s.upper, s.prefix)
    &&& visible(s.txn, s.db, s.cf, key, s.seq) is Some
}

/// `a` comes strictly before `b` on the way forward, or on the way back.
pub open spec fn precedes(forward: bool, a: Seq<u8>, b: Seq<u8>) -> bool {
    if forward {
        lex_lt(a, b)
    } else {
        lex_lt(b, a)
    }
}

/// `a` comes before `b` on the way, or is `b`.
pub open spec fn precedes_eq(forward: bool, a: Seq<u8>, b: Seq<u8>) -> bool {
    a == b || precedes(forward, a, b)
}

/// `key` lies on the way from `from`: anywhere where `from` is nothing,
/// else behind it, or at it where `strict` is not set.
pub open spec fn beyond(forward: bool, from: Option<Seq<u8>>, strict: bool, key: Seq<u8>) -> bool {
    match from {
        None => true,
        Some(f) => if strict {
            precedes(forward, f, key)
        } else {
            precedes_eq(forward, f, key)
        },
    }
}

/// `key` is the nearest key on the way from `from` that the iteration
/// shows.
pub open spec fn is_nearest(
    s: ScanView,
    forward: bool,
    from: Option<Seq<u8>>,
    strict: bool,
    key: Seq<u8>,
) -> bool {
    &&& shows(s, key)
    &&& beyond(forward, from, strict, key)
    &&& forall|k: Seq<u8>|
        #[trigger] shows(s, k) && beyond(forward, from, strict, k) ==> precedes_eq(forward, key, k)
}

/// `entry` is where a search on the way from `from` ends: on the nearest
/// key that shows, with its value, or on nothing where no key shows.
pub open spec fn is_hit(
    s: ScanView,
    forward: bool,
    from: Option<Seq<u8>>,
    strict: bool,
    entry: Option<(Seq<u8>, Seq<u8>)>,
) -> bool {
    match entry {
        Some(kv) => is_nearest(s, forward, from, strict, kv.0) && visible(
            s.txn,
            s.db,
            s.cf,
            kv.0,
            s.seq,
        ) == Some(kv.1),
        None => forall|k: Seq<u8>| !(#[trigger] shows(s, k) && beyond(forward, from, strict, k)),
    }
}

/// A search has one end only.
pub proof fn lemma_hit_unique(
    s: ScanView,
    forward: bool,
    from: Option<Seq<u8>>,
    strict: bool,
    a: Option<(Seq<u8>, Seq<u8>)>,
    b: Option<(Seq<u8>, Seq<u8>)>,
)
    requires
        is_hit(s, forward, from, strict, a),
        is_hit(s, forward, from, strict, b),
    ensures
        a == b,
{
    match (a, b) {
        (Some(x), Some(y)) => {
            assert(shows(s, x.0) && shows(s, y.0));
            assert(precedes_eq(forward, x.0, y.0) && precedes_eq(forward, y.0, x.0));
            lemma_lex_asymmetric(x.0, y.0);
        },
        (Some(x), None) => {
            assert(shows(s, x.0));
        },
        (None, Some(y)) => {
            assert(shows(s, y.0));
        },
        (None, None) => {},
    }
}

/// An iteration is in order and leaves nothing out: the entry after an
/// entry lies strictly behind it, and every key on the way that shows is
/// the first entry or lies at or behind the second. Where there is no
/// second entry, the first is the only key on the way that shows.
pub proof fn lemma_nothing_between(
    s: ScanView,
    forward: bool,
    from: Option<Seq<u8>>,
    strict: bool,
    first: (Seq<u8>, Seq<u8>),
    second: Option<(Seq<u8>, Seq<u8>)>,
    key: Seq<u8>,
)
    requires
        is_hit(s, forward, from, strict, Some(first)),
        is_hit(s, forward, Some(first.0), true, second),
        shows(s, key),
        beyond(forward, from, strict, key),
    ensures
        second is Some ==> precedes(forward, first.0, key_of(second)),
        key == first.0 || (second is Some && precedes_eq(forward, key_of(second), key)),
{
    assert(precedes_eq(forward, first.0, key));
    if key != first.0 {
        assert(beyond(forward, Some(first.0), true, key));
    }
    if second is Some {
        assert(beyond(forward, Some(first.0), true, key_of(second)));
    }
}

/// A key that has a value in the merged view is the key of a committed
/// write that the read sees or of a pending write.
pub proof fn lemma_visible_key_occurs(
    t: TransactionView,
    d: DatabaseView,
    cf: u32,
    key: Seq<u8>,
    seq: u64,
)
    requires
        visible(t, d, cf, key, seq) is Some,
    ensures
        (exists|j: int|
            0 <= j < clip(d.storage.log.len(), seq as int) && (#[trigger] d.storage.log[j]).cf == cf
                && d.storage.log[j].key == key) || (exists|j: int|
            0 <= j < t.writes.len() && (#[trigger] t.writes[j]).cf == cf && t.writes[j].key == key),
{
    lemma_pending_entry(t.writes, cf, key);
    if pending(t.writes, cf, key) is None {
        let upto = clip(d.storage.log.len(), seq as int);
        lemma_last_write(d.storage.log, cf, key, upto);
        let n = version_at(d.storage.log, cf, key, seq as int);
        assert(d.storage.log[n - 1].cf == cf);
    }
}

/// What an optional owned entry stands for.
pub open spec fn entry_view(e: Option<(Vec<u8>, Vec<u8>)>) -> Option<(Seq<u8>, Seq<u8>)> {
    match e {
        Some(kv) => Some((kv.0@, kv.1@)),
        None => None,
    }
}

spec fn from_view(from: Option<&[u8]>) -> Option<Seq<u8>> {
    match from {
        Some(f) => Some(f@),
        None => None,
    }
}

spec fn best_ok(
    s: ScanView,
    forward: bool,
    from: Option<Seq<u8>>,
    strict: bool,
    best: Option<(Seq<u8>, Seq<u8>)>,
) -> bool {
    best matches Some(kv) ==> shows(s, kv.0) && beyond(forward, from, strict, kv.0) && visible(
        s.txn,
        s.db,
        s.cf,
        kv.0,
        s.seq,
    ) == Some(kv.1)
}

spec fn dominates(
    s: ScanView,
    forward: bool,
    from: Option<Seq<u8>>,
    strict: bool,
    best: Option<(Seq<u8>, Seq<u8>)>,
    key: Seq<u8>,
) -> bool {
    shows(s, key) && beyond(forward, from, strict, key) ==> best is Some && precedes_eq(
        forward,
        key_of(best),
        key,
    )
}

spec fn improves(
    forward: bool,
    before: Option<(Seq<u8>, Seq<u8>)>,
    after: Option<(Seq<u8>, Seq<u8>)>,
) -> bool {
    before is Some ==> after is Some && precedes_eq(forward, key_of(after), key_of(before))
}

proof fn lemma_precedes_eq_transitive(forward: bool, a: Seq<u8>, b: Seq<u8>, c: Seq<u8>)
    requires
        precedes_eq(forward, a, b),
        precedes_eq(forward, b, c),
    ensures
        precedes_eq(forward, a, c),
{
    if a != b && b != c {
        if forward {
            lemma_lex_transitive(a, b, c);
        } else {
            lemma_lex_transitive(c, b, a);
        }
    }
}

proof fn lemma_dominates_kept(
    s: ScanView,
    forward: bool,
    from: Option<Seq<u8>>,
    strict: bool,
    before: Option<(Seq<u8>, Seq<u8>)>,
    after: Option<(Seq<u8>, Seq<u8>)>,
    key: Seq<u8>,
)
    requires
        dominates(s, forward, from, strict, before, key),
        improves(forward, before, after),
    ensures
        dominates(s, forward, from, strict, after, key),
{
    if shows(s, key) && beyond(forward, from, strict, key) {
        lemma_precedes_eq_transitive(forward, key_of(after), key_of(before), key);
    }
}

/// A cursor over the merged view of a transaction.
pub struct RawIterator<'a> {
    txn: &'a Transaction,
    db: &'a Database,
    cf: u32,
    seq: u64,
    lower: Option<Vec<u8>>,
    upper: Option<Vec<u8>>,
    prefix: Option<Vec<u8>>,
    prefix_seek: bool,
    current: Option<(Vec<u8>, Vec<u8>)>,
}

impl<'a> View for RawIterator<'a> {
    type V = RawIteratorView;

    closed spec fn view(&self) -> RawIteratorView {
        RawIteratorView {
            scan: ScanView {
                txn: self.txn@,
                db: self.db@,
                cf: self.cf,
                seq: self.seq,
                lower: opt_bytes(self.lower),
                upper: opt_bytes(self.upper),
                prefix: opt_bytes(self.prefix),
            },
            prefix_seek: self.prefix_seek,
            current: entry_view(self.current),
        }
    }
}

/// The iterator after a search: what it goes through is as before but for
/// the prefix, which is `prefix`, and it stands where the search on the
/// way from `from` ends.
pub open spec fn positioned(
    before: RawIteratorView,
    after: RawIteratorView,
    forward: bool,
    from: Option<Seq<u8>>,
    strict: bool,
    prefix: Option<Seq<u8>>,
) -> bool {
    &&& after.scan == (ScanView { prefix, ..before.scan })
    &&& after.prefix_seek == before.prefix_seek
    &&& is_hit(after.scan, forward, from, strict, after.current)
}

/// The prefix that a seek to `key` binds the iterator to.
pub open spec fn sought_prefix(it: RawIteratorView, key: Seq<u8>) -> Option<Seq<u8>> {
    if it.prefix_seek {
        Some(key)
    } else {
        None
    }
}

impl<'a> RawIterator<'a> {
    /// A cursor over the merged view of `txn` in column family `cf` at
    /// sequence number `seq`, within the bounds; it stands on nothing.
    pub fn new(
        txn: &'a Transaction,
        db: &'a Database,
        cf: u32,
        seq: u64,
        lower: Option<Vec<u8>>,
        upper: Option<Vec<u8>>,
        prefix_seek: bool,
    ) -> (it: RawIterator<'a>)
        ensures
            it@ == (RawIteratorView {
                scan: ScanView {
                    txn: txn@,
                    db: db@,
                    cf,
                    seq,
                    lower: opt_bytes(lower),
                    upper: opt_bytes(upper),
                    prefix: None,
                },
                prefix_seek,
                current: None,
            }),
    {
        RawIterator { txn, db, cf, seq, lower, upper, prefix: None, prefix_seek, current: None }
    }

    fn within(&self, key: &[u8]) -> (r: bool)
        ensures
            r == in_range(key@, self@.scan.lower, self@.scan.upper, self@.scan.prefix),
    {
        let above = match &self.lower {
            Some(l) => bytes_le(l.as_slice(), key),
            None => true,
        };
        let below = match &self.upper {
            Some(u) => bytes_lt(key, u.as_slice()),
            None => true,
        };
        let prefixed = match &self.prefix {
            Some(p) => starts_with(key, p.as_slice()),
            None => true,
        };
        above && below && prefixed
    }

    fn consider(
        &self,
        forward: bool,
        from: Option<&[u8]>,
        strict: bool,
        key: &[u8],
        best: &mut Option<(Vec<u8>, Vec<u8>)>,
    )
        requires
            self@.scan.txn.state == State::Active,
            best_ok(self@.scan, forward, from_view(from), strict, entry_view(*old(best))),
        ensures
            best_ok(self@.scan, forward, from_view(from), strict, entry_view(*final(best))),
            improves(forward, entry_view(*old(best)), entry_view(*final(best))),
            dominates(self@.scan, forward, from_view(from), strict, entry_view(*final(best)), key@),
    {
        if !self.within(key) {
            return ;
        }
        let on_the_way = match from {
            None => true,
            Some(f) => {
                proof {
                    lemma_lex_total(f@, key@);
                    lemma_lex_asymmetric(f@, key@);
                }
                if forward {
                    if strict {
                        bytes_lt(f, key)
                    } else {
                        bytes_le(f, key)
                    }
                } else {
                    if strict {
                        bytes_lt(key, f)
                    } else {
                        bytes_le(key, f)
                    }
                }
            },
        };
        if !on_the_way {
            return ;
        }
        let better = match best {
            None => true,
            Some(kv) => {
                proof {
                    lemma_lex_total(kv.0@, key@);
                }
                if forward {
                    bytes_lt(key, kv.0.as_slice())
                } else {
                    bytes_lt(kv.0.as_slice(), key)
                }
            },
        };
        if !better {
            return ;
        }
        match self.txn.visible_value(self.db, self.cf, key, self.seq) {
            Some(value) => {
                *best = Some((to_vec(key), value));
            },
            None => {},
        }
    }

    fn nearest(&self, forward: bool, from: Option<&[u8]>, strict: bool) -> (best: Option<
        (Vec<u8>, Vec<u8>),
    >)
        ensures
            is_hit(self@.scan, forward, from_view(from), strict, entry_view(best)),
    {
        let ghost s = self@.scan;
        let ghost f = from_view(from);
        let mut best: Option<(Vec<u8>, Vec<u8>)> = None;
        match self.txn.state() {
            State::Active => {},
            _ => {
                return None;
            },
        }
        let storage = self.db.storage();
        let n = storage.visible_len(self.seq);
        let mut i: usize = 0;
        while i < n
            invariant
                i <= n,
                n == clip(s.db.storage.log.len(), s.seq as int),
                s == self@.scan,
                f == from_view(from),
                storage@ == s.db.storage,
                s.txn.state == State::Active,
                best_ok(s, forward, f, strict, entry_view(best)),
                forall|j: int|
                    0 <= j < i && (#[trigger] s.db.storage.log[j]).cf == s.cf ==> dominates(
                        s,
                        forward,
                        f,
                        strict,
                        entry_view(best),
                        s.db.storage.log[j].key,
                    ),
            decreases n - i,
        {
            let v = storage.version(i);
            if v.cf == self.cf {
                let ghost before = entry_view(best);
                self.consider(forward, from, strict, v.key.as_slice(), &mut best);
                proof {
                    assert forall|j: int|
                        0 <= j < i && (#[trigger] s.db.storage.log[j]).cf == s.cf implies dominates(
                        s,
                        forward,
                        f,
                        strict,
                        entry_view(best),
                        s.db.storage.log[j].key,
                    ) by {
                        lemma_dominates_kept(
                            s,
                            forward,
                            f,
                            strict,
                            before,
                            entry_view(best),
                            s.db.storage.log[j].key,
                        );
                    }
                }
            }
            i += 1;
        }
        let buffer = self.txn.write_buffer();
        let m = buffer.len();
        let mut k: usize = 0;
        while k < m
            invariant
                k <= m,
                m == s.txn.writes.len(),
                n == clip(s.db.storage.log.len(), s.seq as int),
                s == self@.scan,
                f == from_view(from),
                buffer@ == s.txn.writes,
                s.txn.state == State::Active,
                best_ok(s, forward, f, strict, entry_view(best)),
                forall|j: int|
                    0 <= j < n && (#[trigger] s.db.storage.log[j]).cf == s.cf ==> dominates(
                        s,
                        forward,
                        f,
                        strict,
                        entry_view(best),
                        s.db.storage.log[j].key,
                    ),
                forall|j: int|
                    0 <= j < k && (#[trigger] s.txn.writes[j]).cf == s.cf ==> dominates(
                        s,
                        forward,
                        f,
                        strict,
                        entry_view(best),
                        s.txn.writes[j].key,
                    ),
            decreases m - k,
        {
            let w = buffer.entry(k);
            if w.cf == self.cf {
                let ghost before = entry_view(best);
                self.consider(forward, from, strict, w.key.as_slice(), &mut best);
                proof {
                    assert forall|j: int|
                        0 <= j < n && (#[trigger] s.db.storage.log[j]).cf == s.cf implies dominates(
                        s,
                        forward,
                        f,
                        strict,
                        entry_view(best),
                        s.db.storage.log[j].key,
                    ) by {
                        lemma_dominates_kept(
                            s,
                            forward,
                            f,
                            strict,
                            before,
                            entry_view(best),
                            s.db.storage.log[j].key,
                        );
                    }
                    assert forall|j: int|
                        0 <= j < k && (#[trigger] s.txn.writes[j]).cf == s.cf implies dominates(
                        s,
                        forward,
                        f,
                        strict,
                        entry_view(best),
                        s.txn.writes[j].key,
                    ) by {
                        lemma_dominates_kept(
                            s,
                            forward,
                            f,
                            strict,
                            before,
                            entry_view(best),
                            s.txn.writes[j].key,
                        );
                    }
                }
            }
            k += 1;
        }
        proof {
            assert forall|key: Seq<u8>| #[trigger]
                shows(s, key) && beyond(forward, f, strict, key) implies entry_view(best) is Some
                && precedes_eq(forward, key_of(entry_view(best)), key) by {
                lemma_visible_key_occurs(s.txn, s.db, s.cf, key, s.seq);
                if exists|j: int|
                    0 <= j < n && (#[trigger] s.db.storage.log[j]).cf == s.cf
                        && s.db.storage.log[j].key == key {
                    let j = choose|j: int|
                        0 <= j < n && (#[trigger] s.db.storage.log[j]).cf == s.cf
                            && s.db.storage.log[j].key == key;
                    assert(dominates(s, forward, f, strict, entry_view(best), s.db.storage.log[j].key));
                } else {
                    let j = choose|j: int|
                        0 <= j < s.txn.writes.len() && (#[trigger] s.txn.writes[j]).cf == s.cf
                            && s.txn.writes[j].key == key;
                    assert(dominates(s, forward, f, strict, entry_view(best), s.txn.writes[j].key));
                }
            }
        }
        best
    }

    /// Whether the transaction was active when the iterator was made. An
    /// iterator over a transaction that is over shows nothing.
    pub fn status(&self) -> (r: Result<(), Error>)
        ensures
            r == if self@.scan.txn.state == State::Active {
                Ok::<(), Error>(())
            } else {
                Err::<(), Error>(Error::InvalidState)
            },
    {
        match self.txn.state() {
            State::Active => Ok(()),
            _ => Err(Error::InvalidState),
        }
    }

    /// Whether the iterator stands on an entry.
    pub fn valid(&self) -> (r: bool)
        ensures
            r == self@.current is Some,
    {
        self.current.is_some()
    }

    /// The key that the iterator stands on.
    pub fn key(&self) -> (k: Option<&Vec<u8>>)
        ensures
            match k {
                Some(key) => self@.current is Some && key_of(self@.current) == key@,
                None => self@.current is None,
            },
    {
        match &self.current {
            Some(kv) => Some(&kv.0),
            None => None,
        }
    }

    /// The value that the iterator stands on.
    pub fn value(&self) -> (v: Option<&Vec<u8>>)
        ensures
            match v {
                Some(value) => self@.current is Some && value_of(self@.current) == value@,
                None => self@.current is None,
            },
    {
        match &self.current {
            Some(kv) => Some(&kv.1),
            None => None,
        }
    }

    /// A copy of the entry that the iterator stands on.
    pub fn item(&self) -> (e: Option<(Vec<u8>, Vec<u8>)>)
        ensures
            match e {
                Some(kv) => self@.current == Some((kv.0@, kv.1@)),
                None => self@.current is None,
            },
    {
        match &self.current {
            Some(kv) => Some((to_vec(kv.0.as_slice()), to_vec(kv.1.as_slice()))),
            None => None,
        }
    }

    /// Goes to the first key that shows. The iterator is bound to no
    /// prefix.
    pub fn seek_to_first(&mut self)
        ensures
            positioned(old(self)@, final(self)@, true, None, false, None),
    {
        self.prefix = None;
        let found = self.nearest(true, None, false);
        self.current = found;
    }

    /// Goes to the last key that shows. The iterator is bound to no
    /// prefix.
    pub fn seek_to_last(&mut self)
        ensures
            positioned(old(self)@, final(self)@, false, None, false, None),
    {
        self.prefix = None;
        let found = self.nearest(false, None, false);
        self.current = found;
    }

    /// Goes to the first key at or after `key` that shows. An iterator
    /// that seeks by prefix is from now on bound to the keys that begin
    /// with `key`.
    pub fn seek(&mut self, key: &[u8])
        ensures
            positioned(
                old(self)@,
                final(self)@,
                true,
                Some(key@),
                false,
                sought_prefix(old(self)@, key@),
            ),
    {
        self.prefix = if self.prefix_seek {
            Some(to_vec(key))
        } else {
            None
        };
        let found = self.nearest(true, Some(key), false);
        self.current = found;
    }

    /// Goes to the last key at or before `key` that shows. An iterator
    /// that seeks by prefix is from now on bound to the keys that begin
    /// with `key`.
    pub fn seek_for_prev(&mut self, key: &[u8])
        ensures
            positioned(
                old(self)@,
                final(self)@,
                false,
                Some(key@),
                false,
                sought_prefix(old(self)@, key@),
            ),
    {
        self.prefix = if self.prefix_seek {
            Some(to_vec(key))
        } else {
            None
        };
        let found = self.nearest(false, Some(key), false);
        self.current = found;
    }

    fn step(&mut self, forward: bool)
        ensures
            match old(self)@.current {
                Some(kv) => positioned(
                    old(self)@,
                    final(self)@,
                    forward,
                    Some(kv.0),
                    true,
                    old(self)@.scan.prefix,
                ),
                None => final(self)@ == old(self)@,
            },
    {
        let found = match &self.current {
            Some(kv) => self.nearest(forward, Some(kv.0.as_slice()), true),
            None => None,
        };
        self.current = found;
    }

    /// Goes to the next key that shows; an iterator that stands on
    /// nothing stays so.
    pub fn next(&mut self)
        ensures
            match old(self)@.current {
                Some(kv) => positioned(
                    old(self)@,
                    final(self)@,
                    true,
                    Some(kv.0),
                    true,
                    old(self)@.scan.prefix,
                ),
                None => final(self)@ == old(self)@,
            },
    {
        self.step(true);
    }

    /// Goes to the previous key that shows; an iterator that stands on
    /// nothing stays so.
    pub fn prev(&mut self)
        ensures
            match old(self)@.current {
                Some(kv) => positioned(
                    old(self)@,
                    final(self)@,
                    false,
                    Some(kv.0),
                    true,
                    old(self)@.scan.prefix,
                ),
                None => final(self)@ == old(self)@,
            },
    {
        self.step(false);
    }
}

/// What an iterator holds: its cursor, the way it goes, and whether it
/// has yet to yield the entry that it was started on.
pub struct TransactionIteratorView {
    pub raw: RawIteratorView,
    pub direction: Direction,
    pub fresh: bool,
}

/// The iterator `it` is the cursor `before` started in `mode`: it stands
/// where the mode says, goes the way the mode says, and has yet to yield
/// that entry.
pub open spec fn started(
    before: RawIteratorView,
    mode: IteratorModeView,
    it: TransactionIteratorView,
) -> bool {
    &&& it.fresh
    &&& match mode {
        IteratorModeView::Start => it.direction == Direction::Forward && positioned(
            before,
            it.raw,
            true,
            None,
            false,
            None,
        ),
        IteratorModeView::End => it.direction == Direction::Reverse && positioned(
            before,
            it.raw,
            false,
            None,
            false,
            None,
        ),
        IteratorModeView::From(key, direction) => it.direction == direction && positioned(
            before,
            it.raw,
            direction == Direction::Forward,
            Some(key),
            false,
            sought_prefix(before, key),
        ),
    }
}

/// The cursor after the iterator has moved on by one entry.
pub open spec fn advanced(before: TransactionIteratorView, after: RawIteratorView) -> bool {
    if before.fresh {
        after == before.raw
    } else {
        match before.raw.current {
            Some(kv) => positioned(
                before.raw,
                after,
                before.direction == Direction::Forward,
                Some(kv.0),
                true,
                before.raw.scan.prefix,
            ),
            None => after == before.raw,
        }
    }
}

/// An iterator over the merged view of a transaction that yields the
/// entries one by one, forward or backward. It can be started again at
/// any time.
pub struct TransactionIterator<'a> {
    raw: RawIterator<'a>,
    direction: Direction,
    fresh: bool,
}

impl<'a> View for TransactionIterator<'a> {
    type V = TransactionIteratorView;

    closed spec fn view(&self) -> TransactionIteratorView {
        TransactionIteratorView { raw: self.raw@, direction: self.direction, fresh: self.fresh }
    }
}

impl<'a> TransactionIterator<'a> {
    /// Starts the cursor `raw` in `mode`.
    pub fn new(raw: RawIterator<'a>, mode: IteratorMode<'_>) -> (it: TransactionIterator<'a>)
        ensures
            started(raw@, mode@, it@),
    {
        let mut it = TransactionIterator { raw, direction: Direction::Forward, fresh: true };
        it.set_mode(mode);
        it
    }

    /// Starts the iterator again, in `mode`.
    pub fn set_mode(&mut self, mode: IteratorMode<'_>)
        ensures
            started(old(self)@.raw, mode@, final(self)@),
    {
        match mode {
            IteratorMode::Start => {
                self.raw.seek_to_first();
                self.direction = Direction::Forward;
            },
            IteratorMode::End => {
                self.raw.seek_to_last();
                self.direction = Direction::Reverse;
            },
            IteratorMode::From(key, Direction::Forward) => {
                self.raw.seek(key);
                self.direction = Direction::Forward;
            },
            IteratorMode::From(key, Direction::Reverse) => {
                self.raw.seek_for_prev(key);
                self.direction = Direction::Reverse;
            },
        }
        self.fresh = true;
    }

    /// Whether the transaction was active when the iterator was made.
    pub fn status(&self) -> (r: Result<(), Error>)
        ensures
            r == if self@.raw.scan.txn.state == State::Active {
                Ok::<(), Error>(())
            } else {
                Err::<(), Error>(Error::InvalidState)
            },
    {
        self.raw.status()
    }

    /// Whether the iterator stands on an entry.
    pub fn valid(&self) -> (r: bool)
        ensures
            r == self@.raw.current is Some,
    {
        self.raw.valid()
    }

    /// Yields the next entry: the one that the iterator was started on,
    /// then the nearest one behind the last, until none is left.
    pub fn next(&mut self) -> (e: Option<(Vec<u8>, Vec<u8>)>)
        ensures
            !final(self)@.fresh,
            final(self)@.direction == old(self)@.direction,
            advanced(old(self)@, final(self)@.raw),
            entry_view(e) == final(self)@.raw.current,
    {
        if self.fresh {
            self.fresh = false;
        } else {
            match self.direction {
                Direction::Forward => self.raw.next(),
                Direction::Reverse => self.raw.prev(),
            }
        }
        self.raw.item()
    }
}

} // verus!
