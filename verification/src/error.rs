//! The errors of the reactive graph.

use vstd::prelude::*;

verus! {

/// The ways in which an operation on the reactive graph is refused.
#[derive(Clone, Copy, Debug, PartialEq, Eq, Structural)]
pub enum Error {
    /// The handle's generation is stale or its slot holds no value: the
    /// owner of the cell is gone, or the cell was never initialised.
    UseAfterInvalidate,
    /// An effect or a selector was created with no enclosing scope.
    NotInReactiveContext,
}

} // verus!
