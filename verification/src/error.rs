//! Errors of the editing engine.

use vstd::prelude::*;

verus! {

/// Failures an engine operation can report.  Boundary conditions (movement
/// or deletion past the ends of the document) are never errors: positions
/// clamp instead.
#[derive(Clone, Copy, Debug, PartialEq, Eq, Structural)]
pub enum EngineError {
    /// A selection was built from an empty list of ranges.
    InvalidSelection,
    /// An edit list handed to the transaction builder was not sorted by
    /// start position, or two of its edits overlapped.
    UnsortedOrOverlappingEdits,
    /// Two edits collided at one position in a way that cannot be ordered.
    Overlap,
    /// A command that is deliberately left unimplemented was invoked.
    NotSupported,
}

impl EngineError {
    /// A short human-readable name for the error.
    pub fn describe(&self) -> (r: &'static str)
        ensures
            r@.len() > 0,
    {
        proof {
            reveal_strlit("invalid selection");
            reveal_strlit("unsorted or overlapping edits");
            reveal_strlit("overlapping insertions");
            reveal_strlit("not supported");
        }
        match self {
            EngineError::InvalidSelection => "invalid selection",
            EngineError::UnsortedOrOverlappingEdits => "unsorted or overlapping edits",
            EngineError::Overlap => "overlapping insertions",
            EngineError::NotSupported => "not supported",
        }
    }
}

} // verus!
