//! The name of an effect.

use vstd::prelude::*;
use crate::arena::Handle;
use crate::scope::ScopeId;

verus! {

/// A registered computation: the scope that created it and the slot that
/// stores its procedure. The value is a plain copyable name; the procedure
/// lives in the runtime until the scope is torn down.
#[derive(Clone, Copy, Debug, PartialEq, Eq, Hash, Structural)]
pub struct Effect {
    pub source: ScopeId,
    pub callback: Handle,
}

} // verus!
