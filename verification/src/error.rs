//! The failure classes the engine itself can raise.
//!
//! Absence of a key is never an error: reads return an explicit "no value"
//! result instead. The binding layer around the engine turns these structured
//! kinds into human-readable messages via [`StorageError::message`].

use vstd::prelude::*;

verus! {

/// A structured engine error.
#[derive(Clone, Copy, Debug, PartialEq, Eq, Structural)]
pub enum StorageError {
    /// An operation was attempted on a transaction that is already
    /// committed or aborted. A caller-programming-error class, never
    /// transient.
    InvalidTransactionState,
    /// A commit-time write-write conflict: some key in the write set was
    /// committed by another transaction after this transaction's snapshot
    /// was taken. The transaction is aborted; retrying the whole
    /// transaction is the caller's decision.
    Conflict,
    /// Recovery found state that cannot have been produced by this engine;
    /// the store refuses to open rather than serve partial data.
    Corruption,
}

impl StorageError {
    /// A stable, human-readable description for the binding boundary.
    pub fn message(&self) -> (r: &'static str)
        ensures
            r == match self {
                StorageError::InvalidTransactionState => "transaction already committed or aborted",
                StorageError::Conflict => "write-write conflict",
                StorageError::Corruption => "corrupt store",
            },
    {
        match self {
            StorageError::InvalidTransactionState => "transaction already committed or aborted",
            StorageError::Conflict => "write-write conflict",
            StorageError::Corruption => "corrupt store",
        }
    }
}

} // verus!
