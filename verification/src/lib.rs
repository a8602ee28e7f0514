//! A transactional key-value core: atomic multi-key transactions over an
//! ordered, versioned store, with optimistic or pessimistic concurrency
//! control, snapshot reads, savepoints and lock-protected reads.
//!
//! Every operation is one atomic step on a [`database::Database`] value;
//! concurrent transactions are interleavings of such steps. A request for
//! a lock that has to wait returns at once and says so; to block is the
//! caller's part.
//!
//! - [`bytes`]: keys as byte strings, their order and prefixes.
//! - [`storage`]: the committed store, a history of versions.
//! - [`write_buffer`]: the pending writes of a transaction.
//! - [`optimistic`]: conflict records and their validation at commit.
//! - [`lock_table`] and [`deadlock`]: locks, waits and cycles of waits.
//! - [`database`]: what transactions share.
//! - [`transaction`]: the transaction and the model of its steps.
//! - [`iterator`]: iteration over the merged view of a transaction.
//! - [`laws`]: what holds of every run of steps.

pub mod bytes;
pub mod database;
pub mod deadlock;
pub mod error;
pub mod iterator;
pub mod laws;
pub mod lock_table;
pub mod optimistic;
pub mod options;
pub mod storage;
pub mod transaction;
pub mod write_buffer;
