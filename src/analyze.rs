//! The error of writing to a frequency table that cannot be written.
use vstd::prelude::*;

verus! {

/// Returned when writing to a frequency table that has no dictionary.
#[derive(Debug, Clone, Copy, PartialEq, Eq, Structural)]
pub struct ReadOnlyError;

impl ReadOnlyError {
    /// A human readable description of the error.
    pub fn message(&self) -> (r: String)
        ensures
            r@ == "Attempted to write to read-only frequency database."@,
    {
        String::from_str("Attempted to write to read-only frequency database.")
    }
}

} // verus!
