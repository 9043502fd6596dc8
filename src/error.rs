use vstd::prelude::*;

verus! {

/// Why an operation on paths, tries or accounts was refused.
#[derive(Debug, Clone, Copy, PartialEq, Eq, Structural)]
pub enum StateError {
    /// A key holds a value that is not a nibble.
    MalformedKey,
    /// An index or a count goes past the end of a path.
    OutOfRange,
    /// A debit would take a balance below zero.
    InsufficientBalance,
}

} // verus!
