//! The name of a scope.

use vstd::prelude::*;

verus! {

/// The identifier of a reactive scope: the unit of ownership that creates
/// cells and effects and whose teardown invalidates them. It also names a
/// plain consumer to be rescheduled when a signal it read is written.
#[derive(Clone, Copy, Debug, PartialEq, Eq, Hash, Structural)]
pub struct ScopeId(pub usize);

} // verus!
