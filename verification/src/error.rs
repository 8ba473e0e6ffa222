//! The error kinds reported by the store.

use vstd::prelude::*;

verus! {

/// Why an operation on the store was refused.
#[derive(Clone, Copy, Debug, PartialEq, Eq, Structural)]
pub enum MvccError {
    /// The row has no version visible to the transaction.
    NotFound,
    /// A row with the same identity was already inserted.
    DuplicateKey,
    /// Another transaction wrote the same row concurrently.
    WriteConflict,
    /// The transaction is unknown or no longer active.
    InvalidTransactionState,
    /// The clock has no timestamp left to issue.
    ClockExhausted,
}

} // verus!
