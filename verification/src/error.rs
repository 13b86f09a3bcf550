//! Errors surfaced by the column.

use vstd::prelude::*;

verus! {

/// Failure modes of the column.
///
/// `Corruption` reports a structural inconsistency found at runtime: a log
/// action that names an index table the column does not hold, or a value
/// table that cannot hand back a stored key during reindex. It is not
/// recoverable at this layer. `InvariantViolation` reports a log action kind
/// the column does not handle; it is a programming error of the caller.
#[derive(Clone, Debug)]
pub enum Error {
    Corruption(&'static str),
    InvariantViolation,
}

impl Error {
    /// Short description of the error, for callers that need to report it.
    pub fn message(&self) -> (r: &'static str)
        ensures
            self matches Error::Corruption(m) ==> r == m,
            self is InvariantViolation ==> r@ == "Unexpected log action"@,
    {
        match self {
            Error::Corruption(m) => m,
            Error::InvariantViolation => "Unexpected log action",
        }
    }
}

} // verus!
