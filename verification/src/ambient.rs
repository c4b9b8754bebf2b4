//! The scope that the host is rendering, as dioxus reports it.

use vstd::prelude::*;
use crate::scope::ScopeId;

verus! {

/// Asks dioxus, through `dioxus_core::prelude::current_scope_id`, for the
/// scope whose component is being rendered on this thread. The answer
/// depends on what the thread is doing, so nothing is claimed of it: it is
/// `None` outside a virtual dom, and callers treat every answer alike.
#[verifier::external_body]
pub(crate) fn current_scope() -> (scope: Option<ScopeId>) {
    match dioxus_core::prelude::current_scope_id() {
        Some(id) => Some(ScopeId(id.0)),
        None => None,
    }
}

} // verus!
