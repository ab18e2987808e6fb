//! The errors that the library reports.

use vstd::prelude::*;
use crate::tr::StateId;

verus! {

/// Why an operation could not be carried out.
#[derive(Clone, Copy, Debug, PartialEq, Eq, Structural)]
pub enum FstError {
    /// The operation named a state that the transducer does not have.
    StateNotFound(StateId),
    /// The algorithm needs a start state and the transducer has none.
    MissingStart,
    /// Malformed data or inconsistent parameters.
    InvalidInput,
    /// The semiring lacks a capability that the algorithm needs.
    UnsupportedSemiring,
    /// An iterative algorithm used up its work budget.
    NotConvergent,
    /// The transducer does not meet the algorithm's precondition.
    PropertyViolation,
}

} // verus!
