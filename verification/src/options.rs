//! What a caller configures: the transaction, a read, an iteration.

use vstd::prelude::*;
use crate::bytes::{opt_bytes, to_vec};
use crate::storage::Snapshot;

verus! {

/// How conflicts between transactions are handled.
#[derive(Clone, Copy, Debug, PartialEq, Eq, Structural)]
pub enum ConcurrencyControl {
    /// No locks: the keys read for update or written are checked at commit.
    Optimistic,
    /// A key is locked when it is read for update or written.
    Pessimistic,
}

/// The options with which a transaction begins. Times are in ticks of the
/// database's clock.
#[derive(Clone, Copy, Debug)]
pub struct TransactionOptions {
    /// Take a snapshot when the transaction begins.
    pub set_snapshot: bool,
    /// The longest the transaction may live; `None` for no limit.
    pub expiration: Option<u64>,
    /// The longest a request for a lock may wait.
    pub lock_timeout: u64,
    /// Look for cycles of waits before a request is left waiting.
    pub deadlock_detect: bool,
}

impl Default for TransactionOptions {
    fn default() -> (o: TransactionOptions)
        ensures
            !o.set_snapshot,
            o.expiration is None,
            o.lock_timeout == 1000,
            !o.deadlock_detect,
    {
        TransactionOptions {
            set_snapshot: false,
            expiration: None,
            lock_timeout: 1000,
            deadlock_detect: false,
        }
    }
}

/// The direction of an iteration.
#[derive(Clone, Copy, Debug, PartialEq, Eq, Structural)]
pub enum Direction {
    Forward,
    Reverse,
}

/// Where an iteration starts and which way it goes.
#[derive(Clone, Copy, Debug)]
pub enum IteratorMode<'a> {
    /// From the first key, forward.
    Start,
    /// From the last key, backward.
    End,
    /// Forward from the first key at or after the given one, or backward
    /// from the last key at or before it.
    From(&'a [u8], Direction),
}

/// What an [`IteratorMode`] stands for.
pub enum IteratorModeView {
    Start,
    End,
    From(Seq<u8>, Direction),
}

impl<'a> View for IteratorMode<'a> {
    type V = IteratorModeView;

    open spec fn view(&self) -> IteratorModeView {
        match self {
            IteratorMode::Start => IteratorModeView::Start,
            IteratorMode::End => IteratorModeView::End,
            IteratorMode::From(key, direction) => IteratorModeView::From(key@, *direction),
        }
    }
}

/// The options of a read or an iteration.
#[derive(Debug)]
pub struct ReadOptions {
    /// The snapshot to read at. A token that fixes nothing leaves the
    /// choice to the transaction.
    pub snapshot: Snapshot,
    /// Go through every key in order, whatever `prefix_same_as_start` says.
    pub total_order_seek: bool,
    /// Stay among the keys that begin with the key the iteration sought.
    pub prefix_same_as_start: bool,
    /// The first key of the iteration's range.
    pub iterate_lower_bound: Option<Vec<u8>>,
    /// The first key behind the iteration's range.
    pub iterate_upper_bound: Option<Vec<u8>>,
}

impl Default for ReadOptions {
    fn default() -> (o: ReadOptions)
        ensures
            o.snapshot@ is None,
            !o.total_order_seek,
            !o.prefix_same_as_start,
            o.iterate_lower_bound is None,
            o.iterate_upper_bound is None,
    {
        ReadOptions {
            snapshot: Snapshot::none(),
            total_order_seek: false,
            prefix_same_as_start: false,
            iterate_lower_bound: None,
            iterate_upper_bound: None,
        }
    }
}

impl ReadOptions {
    /// Reads at `snapshot`.
    pub fn set_snapshot(&mut self, snapshot: &Snapshot)
        ensures
            *final(self) == (ReadOptions { snapshot: *snapshot, ..*old(self) }),
    {
        self.snapshot = *snapshot;
    }

    /// Sets whether the iteration goes through every key in order.
    pub fn set_total_order_seek(&mut self, v: bool)
        ensures
            *final(self) == (ReadOptions { total_order_seek: v, ..*old(self) }),
    {
        self.total_order_seek = v;
    }

    /// Sets whether the iteration stays among the keys that begin with the
    /// key it sought.
    pub fn set_prefix_same_as_start(&mut self, v: bool)
        ensures
            *final(self) == (ReadOptions { prefix_same_as_start: v, ..*old(self) }),
    {
        self.prefix_same_as_start = v;
    }

    /// Sets the first key of the iteration's range.
    pub fn set_iterate_lower_bound(&mut self, key: &[u8])
        ensures
            opt_bytes(final(self).iterate_lower_bound) == Some(key@),
            final(self).snapshot == old(self).snapshot,
            final(self).total_order_seek == old(self).total_order_seek,
            final(self).prefix_same_as_start == old(self).prefix_same_as_start,
            final(self).iterate_upper_bound == old(self).iterate_upper_bound,
    {
        self.iterate_lower_bound = Some(to_vec(key));
    }

    /// Sets the first key behind the iteration's range.
    pub fn set_iterate_upper_bound(&mut self, key: &[u8])
        ensures
            opt_bytes(final(self).iterate_upper_bound) == Some(key@),
            final(self).snapshot == old(self).snapshot,
            final(self).total_order_seek == old(self).total_order_seek,
            final(self).prefix_same_as_start == old(self).prefix_same_as_start,
            final(self).iterate_lower_bound == old(self).iterate_lower_bound,
    {
        self.iterate_upper_bound = Some(to_vec(key));
    }
}

} // verus!
