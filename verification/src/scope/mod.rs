//! Scopes: a puzzle and the resources it publishes.

use vstd::prelude::*;

pub mod config;
pub mod puzzle_scope;

verus! {

/// A scope is named by a positive id, like a resource.
pub type ScopeId = crate::resource_id::ResourceId;

} // verus!
