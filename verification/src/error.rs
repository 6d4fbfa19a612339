//! The kinds of failure that an operation on the grove reports.
use vstd::prelude::*;

verus! {

/// Why an operation on the grove failed.
#[derive(Clone, Copy, Debug, PartialEq, Eq, Structural)]
pub enum Error {
    /// The path does not lead to a subtree, the key to delete is absent, or
    /// the entry is a leaf of the top-level subtree, which stays.
    InvalidPath,
    /// The element cannot stand where it was put.
    InvalidElement,
    /// A chain of references is longer than the hop bound, or runs in a cycle.
    ReferenceLimit,
    /// Stored bytes do not decode, or a subtree that must exist is missing.
    CorruptedData,
    /// The storage engine reported an error.
    BackendIo,
    /// The backend rejected the commit of a transaction.
    TransactionConflict,
}

} // verus!
