//! The errors of the transaction core.

use vstd::prelude::*;

verus! {

/// Why the store refused a write.
#[derive(Clone, Copy, Debug, PartialEq, Eq, Structural)]
pub enum StorageError {
    /// The store has no room for the write.
    NoSpace,
}

/// Why an operation on a transaction did not succeed.
#[derive(Clone, Copy, Debug, PartialEq, Eq, Structural)]
pub enum Error {
    /// Optimistic validation failed: a key that the transaction read for
    /// update or wrote was committed by another since.
    Conflict,
    /// The change history that validation needs is no longer kept.
    RetryableConflict,
    /// The wait for a lock ran out.
    LockTimeout,
    /// To wait for the lock would close a cycle of waits.
    Deadlock,
    /// The transaction outlived its configured lifetime. It is over.
    Expired,
    /// The pending operation for the key that was read is a merge.
    MergeInProgress,
    /// A rollback to a savepoint found no savepoint.
    NoSavepoint,
    /// The transaction is committed or rolled back.
    InvalidState,
    /// The lock is held in a mode that excludes the request and the wait
    /// has not run out: the request is queued and is to be made again.
    LockWait,
    /// The store failed. The error is the store's own; the transaction is
    /// over.
    Storage(StorageError),
}

/// The status under which the store's callers know an error.
pub open spec fn status_text(e: Error) -> Seq<char> {
    match e {
        Error::Conflict => "Busy"@,
        Error::RetryableConflict => "TryAgain"@,
        Error::LockTimeout => "TimedOut"@,
        Error::Deadlock => "Deadlock"@,
        Error::Expired => "Expired"@,
        Error::MergeInProgress => "MergeInProgress"@,
        Error::NoSavepoint => "NoSavepoint"@,
        Error::InvalidState => "InvalidState"@,
        Error::LockWait => "LockWait"@,
        Error::Storage(_) => "IOError"@,
    }
}

impl Error {
    /// The status under which the store's callers know the error.
    pub fn status(&self) -> (s: &'static str)
        ensures
            s@ == status_text(*self),
    {
        match self {
            Error::Conflict => "Busy",
            Error::RetryableConflict => "TryAgain",
            Error::LockTimeout => "TimedOut",
            Error::Deadlock => "Deadlock",
            Error::Expired => "Expired",
            Error::MergeInProgress => "MergeInProgress",
            Error::NoSavepoint => "NoSavepoint",
            Error::InvalidState => "InvalidState",
            Error::LockWait => "LockWait",
            Error::Storage(_) => "IOError",
        }
    }

    /// Whether the error ends the transaction: expiry and the failures of
    /// the store do. Every other error leaves it active.
    pub fn is_fatal(&self) -> (r: bool)
        ensures
            r == (*self == Error::Expired || *self is Storage),
    {
        match self {
            Error::Expired => true,
            Error::Storage(_) => true,
            _ => false,
        }
    }
}

} // verus!
