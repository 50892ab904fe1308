//! An accepted answer of a puzzle and what submitting it triggers.

use vstd::prelude::*;

verus! {

/// An accepted answer and its effects.
#[derive(Debug, Clone, Default)]
pub struct Answer {
    pub answer: String,
    /// Name of the normalization applied to a submission before comparing.
    pub normalization: Option<String>,
    /// Name of a special judge that decides acceptance instead of comparing.
    pub special_judge: Option<String>,
    pub idempotency: Option<i32>,
    pub solves: Option<i32>,
    pub unlockes: Vec<i32>,
    /// Grants of access to resources; a patch's automatic grant is usually the better tool.
    pub grants: Vec<i32>,
    pub patch: Vec<i32>,
    pub message: Option<String>,
}

} // verus!
