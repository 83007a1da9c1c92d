//! The two shapes of failure: classified errors that the caller can handle,
//! and fatal faults after which the machine cannot be trusted.

use vstd::prelude::*;

verus! {

/// The kind of a recoverable error.
#[derive(Clone, Copy, Debug, PartialEq, Eq, Structural)]
pub enum ErrorNumber {
    IllegalArgument,
    InsufficientFunds,
    NotFound,
}

/// What went wrong beyond recovery.
#[derive(Clone, Copy, Debug, PartialEq, Eq, Structural)]
pub enum Fault {
    /// A store operation failed.
    Store,
    /// A persisted record is missing or cannot be read.
    Corrupt,
    /// A flushed root reaches a block whose links cannot be read.
    Malformed,
    /// A flushed root reaches a block that no store holds.
    Unresolved,
    /// A deduction would have left a negative balance.
    Underflow,
    /// No actor identifier is left to assign.
    Exhausted,
    /// The event trie could not be built.
    Events,
    /// The machine has met a fatal fault before.
    Poisoned,
}

/// The failure of a state-changing operation.
#[derive(Clone, Copy, Debug, PartialEq, Eq, Structural)]
pub enum ExecutionError {
    /// A classified error; the machine can go on.
    Syscall(ErrorNumber),
    /// A fatal fault; the machine must not be used again.
    Fatal(Fault),
}

} // verus!
