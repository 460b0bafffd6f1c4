//! The errors that the engine reports.
use vstd::prelude::*;

verus! {

/// The kinds of failure that the engine reports to its callers.
///
/// An absent key is not a failure: reads return `Ok(None)` for it.
#[derive(Clone, Copy, Debug, PartialEq, Eq, Structural)]
pub enum ErrorKind {
    /// The database, or a path it needs, does not exist.
    NotFound,
    /// A lock is held by another transaction and could not be taken at once.
    Busy,
    /// A lock could not be taken within the configured wait.
    TimedOut,
    /// Optimistic validation failed at commit: a watched key changed.
    Conflict,
    /// Stored data cannot be interpreted (a merge that cannot be resolved).
    Corruption,
    /// The underlying medium failed.
    IOError,
    /// Misuse: wrong mode, wrong handle, a released snapshot, a missing savepoint.
    InvalidOperation,
    /// A sequence number outside the retained history, or an exhausted counter.
    OutOfRange,
    /// A column family or database with that name already exists.
    AlreadyExists,
}

/// An error returned by the engine.
#[derive(Clone, Copy, Debug, PartialEq, Eq, Structural)]
pub struct Error {
    pub kind: ErrorKind,
}

impl Error {
    pub fn new(kind: ErrorKind) -> (r: Error)
        ensures
            r.kind == kind,
    {
        Error { kind }
    }

    pub fn kind(&self) -> (r: ErrorKind)
        ensures
            r == self.kind,
    {
        self.kind
    }
}

} // verus!
