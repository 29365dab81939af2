//! An account ledger: per-identity balances with registration, credit, debit
//! and atomic transfers, and a versioned binary snapshot of the whole table.
use vstd::prelude::*;

pub mod identity;
pub mod ledger;
pub mod snapshot;

pub use identity::Identity;
pub use ledger::{Account, Ledger};

verus! {

/// What can go wrong in a ledger operation.
#[derive(Debug, Clone, Copy, PartialEq, Eq, Structural)]
pub enum LedgerError {
    /// The caller already holds an account.
    AlreadyRegistered,
    /// No account exists for the identity.
    NotFound,
    /// The balance is smaller than the amount to take from it.
    InsufficientBalance,
    /// The new balance would not fit in a `u64`.
    Overflow,
    /// The bytes handed to `restore` are not a snapshot of a ledger.
    CorruptSnapshot,
}

} // verus!
