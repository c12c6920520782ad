use vstd::prelude::*;

verus! {

/// Errors of the storage engine and of the fixed-layout boundary types.
#[derive(Debug, Clone, Copy, PartialEq, Eq, Structural)]
pub enum HkvError {
    /// A key longer than the fixed key capacity.
    KeyTooLong,
    /// A value longer than the fixed value capacity.
    ValueTooLong,
    /// `expire` on a missing or expired key.
    NotFound,
}

/// Result type of the engine and of the fixed-layout types.
pub type HkvResult<T> = Result<T, HkvError>;

} // verus!
