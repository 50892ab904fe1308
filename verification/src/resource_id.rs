//! Resource ids: positive 32-bit integers that name one piece of content
//! across the whole manifest.

use vstd::prelude::*;

verus! {

/// A positive `i32` naming one resource (or scope).
#[derive(Debug, Clone, Copy, PartialEq, Eq, Structural, Hash)]
pub struct ResourceId {
    value: i32,
}

impl ResourceId {
    #[verifier::type_invariant]
    spec fn positive(self) -> bool {
        self.value > 0
    }

    /// The integer this id stands for.
    pub closed spec fn id(self) -> i32 {
        self.value
    }

    /// The id for `value`, which must be positive.
    pub fn new(value: i32) -> (id: Option<ResourceId>)
        ensures
            value > 0 <==> id is Some,
            id matches Some(r) ==> r.id() == value,
    {
        if value > 0 {
            Some(ResourceId { value })
        } else {
            None
        }
    }

    /// The integer this id stands for; always positive.
    pub fn get(&self) -> (value: i32)
        ensures
            value == self.id(),
            value > 0,
    {
        proof {
            use_type_invariant(self);
        }
        self.value
    }
}

} // verus!
