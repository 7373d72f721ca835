//! The ways in which a run can fail inside the library.

use vstd::prelude::*;

verus! {

/// A failure that the library reports to its caller.
#[derive(Debug, Clone, Copy, PartialEq, Eq, Structural)]
pub enum ShuffleError {
    /// An index file whose length is not a whole number of records.
    Format { length: usize },
    /// An offset was asked of a source whose index holds none.
    InvariantViolation { source: usize },
}

} // verus!
