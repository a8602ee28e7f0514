//! The write buffer: the pending writes of one transaction, in the order
//! in which they were made. For each key the most recent one counts.

use vstd::prelude::*;
use crate::bytes::{bytes_eq, to_vec};

verus! {

/// A pending operation on one key.
#[derive(Debug)]
pub enum WriteOp {
    Put(Vec<u8>),
    Delete,
    Merge(Vec<u8>),
}

/// What a [`WriteOp`] stands for.
pub enum WriteOpView {
    Put(Seq<u8>),
    Delete,
    Merge(Seq<u8>),
}

impl View for WriteOp {
    type V = WriteOpView;

    open spec fn view(&self) -> WriteOpView {
        match self {
            WriteOp::Put(v) => WriteOpView::Put(v@),
            WriteOp::Delete => WriteOpView::Delete,
            WriteOp::Merge(v) => WriteOpView::Merge(v@),
        }
    }
}

/// One entry of the buffer: an operation on a key of a column family.
#[derive(Debug)]
pub struct BufferedWrite {
    pub cf: u32,
    pub key: Vec<u8>,
    pub op: WriteOp,
}

/// What a [`BufferedWrite`] stands for.
pub struct BufferedWriteView {
    pub cf: u32,
    pub key: Seq<u8>,
    pub op: WriteOpView,
}

impl View for BufferedWrite {
    type V = BufferedWriteView;

    open spec fn view(&self) -> BufferedWriteView {
        BufferedWriteView { cf: self.cf, key: self.key@, op: self.op@ }
    }
}

/// The pending operation for `(cf, key)`: that of the last entry for the
/// key; nothing where the buffer has no entry for it.
pub open spec fn pending(writes: Seq<BufferedWriteView>, cf: u32, key: Seq<u8>) -> Option<
    WriteOpView,
>
    decreases writes.len(),
{
    if writes.len() == 0 {
        None
    } else if writes.last().cf == cf && writes.last().key == key {
        Some(writes.last().op)
    } else {
        pending(writes.drop_last(), cf, key)
    }
}

/// Entry `i` is not the last one for its key.
pub open spec fn superseded(writes: Seq<BufferedWriteView>, i: int) -> bool {
    exists|j: int|
        i < j < writes.len() && (#[trigger] writes[j]).cf == writes[i].cf && writes[j].key
            == writes[i].key
}

/// After one more write, its key has that write pending and every other key
/// what it had.
pub proof fn lemma_pending_push(
    writes: Seq<BufferedWriteView>,
    w: BufferedWriteView,
    cf: u32,
    key: Seq<u8>,
)
    ensures
        pending(writes.push(w), cf, key) == if w.cf == cf && w.key == key {
            Some(w.op)
        } else {
            pending(writes, cf, key)
        },
{
    assert(writes.push(w).drop_last() =~= writes);
}

/// A pending operation is that of an entry which no later entry supersedes;
/// where none is pending the buffer has no entry for the key.
pub proof fn lemma_pending_entry(writes: Seq<BufferedWriteView>, cf: u32, key: Seq<u8>)
    ensures
        match pending(writes, cf, key) {
            Some(op) => exists|i: int|
                0 <= i < writes.len() && (#[trigger] writes[i]).cf == cf && writes[i].key == key
                    && writes[i].op == op && !superseded(writes, i),
            None => forall|i: int|
                0 <= i < writes.len() ==> !((#[trigger] writes[i]).cf == cf && writes[i].key
                    == key),
        },
    decreases writes.len(),
{
    if writes.len() > 0 {
        let head = writes.drop_last();
        if writes.last().cf == cf && writes.last().key == key {
            let i = writes.len() - 1;
            assert(writes[i].cf == cf && !superseded(writes, i));
        } else {
            lemma_pending_entry(head, cf, key);
            match pending(head, cf, key) {
                Some(op) => {
                    let i = choose|i: int|
                        0 <= i < head.len() && (#[trigger] head[i]).cf == cf && head[i].key == key
                            && head[i].op == op && !superseded(head, i);
                    assert(writes[i] == head[i]);
                    assert(!superseded(writes, i)) by {
                        if superseded(writes, i) {
                            let j = choose|j: int|
                                i < j < writes.len() && (#[trigger] writes[j]).cf == writes[i].cf
                                    && writes[j].key == writes[i].key;
                            assert(head[j] == writes[j]);
                        }
                    }
                },
                None => {
                    assert forall|i: int| 0 <= i < writes.len() implies !((
                    #[trigger] writes[i]).cf == cf && writes[i].key == key) by {
                        if i < head.len() {
                            assert(head[i] == writes[i]);
                        }
                    }
                },
            }
        }
    }
}

/// The pending writes of one transaction.
pub struct WriteBuffer {
    entries: Vec<BufferedWrite>,
}

impl View for WriteBuffer {
    type V = Seq<BufferedWriteView>;

    closed spec fn view(&self) -> Seq<BufferedWriteView> {
        self.entries@.map_values(|w: BufferedWrite| w@)
    }
}

impl WriteBuffer {
    /// An empty buffer.
    pub fn new() -> (b: WriteBuffer)
        ensures
            b@ == Seq::<BufferedWriteView>::empty(),
    {
        let b = WriteBuffer { entries: Vec::new() };
        assert(b@ =~= Seq::<BufferedWriteView>::empty());
        b
    }

    /// The number of entries.
    pub fn len(&self) -> (n: usize)
        ensures
            n == self@.len(),
    {
        self.entries.len()
    }

    /// Whether the buffer has no entry.
    pub fn is_empty(&self) -> (r: bool)
        ensures
            r == (self@.len() == 0),
    {
        self.entries.len() == 0
    }

    /// Entry `i`.
    pub fn entry(&self, i: usize) -> (w: &BufferedWrite)
        requires
            i < self@.len(),
        ensures
            w@ == self@[i as int],
    {
        &self.entries[i]
    }

    fn push(&mut self, w: BufferedWrite)
        ensures
            final(self)@ == old(self)@.push(w@),
    {
        self.entries.push(w);
        assert(self@ =~= old(self)@.push(w@));
    }

    /// Records `value` as the pending value of `(cf, key)`.
    pub fn put(&mut self, cf: u32, key: &[u8], value: &[u8])
        ensures
            final(self)@ == old(self)@.push(
                BufferedWriteView { cf, key: key@, op: WriteOpView::Put(value@) },
            ),
    {
        self.push(BufferedWrite { cf, key: to_vec(key), op: WriteOp::Put(to_vec(value)) });
    }

    /// Records that `(cf, key)` is to be deleted.
    pub fn delete(&mut self, cf: u32, key: &[u8])
        ensures
            final(self)@ == old(self)@.push(
                BufferedWriteView { cf, key: key@, op: WriteOpView::Delete },
            ),
    {
        self.push(BufferedWrite { cf, key: to_vec(key), op: WriteOp::Delete });
    }

    /// Records that `operand` is to be merged into `(cf, key)`.
    pub fn merge(&mut self, cf: u32, key: &[u8], operand: &[u8])
        ensures
            final(self)@ == old(self)@.push(
                BufferedWriteView { cf, key: key@, op: WriteOpView::Merge(operand@) },
            ),
    {
        self.push(BufferedWrite { cf, key: to_vec(key), op: WriteOp::Merge(to_vec(operand)) });
    }

    /// The pending operation for `(cf, key)`; `None` says that the buffer
    /// has nothing for the key and the reader is to ask the store.
    pub fn get(&self, cf: u32, key: &[u8]) -> (op: Option<&WriteOp>)
        ensures
            match op {
                Some(o) => pending(self@, cf, key@) == Some(o@),
                None => pending(self@, cf, key@) is None,
            },
    {
        let mut i: usize = self.entries.len();
        assert(self@.take(i as int) =~= self@);
        while i > 0
            invariant
                i <= self@.len(),
                pending(self@, cf, key@) == pending(self@.take(i as int), cf, key@),
            decreases i,
        {
            let w = &self.entries[i - 1];
            assert(w@ == self@.take(i as int).last());
            assert(self@.take(i as int).drop_last() =~= self@.take(i - 1));
            if w.cf == cf && bytes_eq(w.key.as_slice(), key) {
                return Some(&w.op);
            }
            i -= 1;
        }
        None
    }

    /// Whether a later entry has the key of entry `i`.
    pub fn is_superseded(&self, i: usize) -> (r: bool)
        requires
            i < self@.len(),
        ensures
            r == superseded(self@, i as int),
    {
        let n = self.entries.len();
        let w = &self.entries[i];
        let mut j: usize = i + 1;
        while j < n
            invariant
                i < j <= self@.len(),
                n == self@.len(),
                w@ == self@[i as int],
                forall|k: int|
                    i < k < j ==> !((#[trigger] self@[k]).cf == self@[i as int].cf && self@[k].key
                        == self@[i as int].key),
            decreases self@.len() - j,
        {
            let other = &self.entries[j];
            assert(other@ == self@[j as int]);
            if other.cf == w.cf && bytes_eq(other.key.as_slice(), w.key.as_slice()) {
                return true;
            }
            j += 1;
        }
        false
    }

    /// Drops every entry from position `len` on. A `len` at or past the end
    /// drops nothing.
    pub fn truncate(&mut self, len: usize)
        ensures
            final(self)@ == if len <= old(self)@.len() {
                old(self)@.take(len as int)
            } else {
                old(self)@
            },
    {
        self.entries.truncate(len);
        proof {
            if len <= old(self)@.len() {
                assert(self@ =~= old(self)@.take(len as int));
            }
        }
    }

    /// Drops every entry.
    pub fn clear(&mut self)
        ensures
            final(self)@ == Seq::<BufferedWriteView>::empty(),
    {
        self.entries.clear();
        assert(self@ =~= Seq::<BufferedWriteView>::empty());
    }
}

} // verus!
