//! Patches: named edits of a scope's content that a game server applies at
//! runtime (hide an entry, insert a resource, replace one resource by another).

use vstd::prelude::*;
use crate::text::{decimal, push_decimal, push_str};

verus! {

/// Which of a scope's named lists a patch operation edits.
#[derive(Debug, Clone, Copy, PartialEq, Eq, Structural, Hash)]
pub enum PatchDomain {
    Content,
    Data,
    Hint,
}

/// The name of a domain as it appears in a rendered patch operation.
pub open spec fn domain_name(domain: PatchDomain) -> Seq<char> {
    match domain {
        PatchDomain::Content => "content"@,
        PatchDomain::Data => "data"@,
        PatchDomain::Hint => "hint"@,
    }
}

impl PatchDomain {
    fn as_str(&self) -> (name: &'static str)
        ensures
            name@ == domain_name(*self),
    {
        match self {
            PatchDomain::Content => "content",
            PatchDomain::Data => "data",
            PatchDomain::Hint => "hint",
        }
    }
}

/// One edit of a named entry: hide it, insert a resource under its name, or
/// replace the resource `old` by `new` there.
#[derive(Debug, Clone, PartialEq, Eq)]
pub enum PatchOp {
    Hide(PatchDomain, String),
    Insert(PatchDomain, String, i32),
    Replace(PatchDomain, String, i32, i32),
}

/// The resource a patch operation brings in, if any.
pub open spec fn op_resource_id(op: PatchOp) -> Option<i64> {
    match op {
        PatchOp::Hide(_, _) => None,
        PatchOp::Insert(_, _, res) => Some(res as i64),
        PatchOp::Replace(_, _, _, new_res) => Some(new_res as i64),
    }
}

/// The rendered `(domain, location, action)` of `op` at the given version:
/// hiding needs no version, inserting and replacing do.
pub open spec fn op_with_version(op: PatchOp, version: Option<i64>) -> Option<(Seq<char>, Seq<char>, Seq<char>)> {
    match op {
        PatchOp::Hide(domain, location) => Some((domain_name(domain), location@, "hide"@)),
        PatchOp::Insert(domain, location, resource) => match version {
            Some(v) => Some((domain_name(domain), location@,
                "insert_"@ + decimal(resource as int) + "v"@ + decimal(v as int))),
            None => None,
        },
        PatchOp::Replace(domain, location, old, new) => match version {
            Some(v) => Some((domain_name(domain), location@,
                "replace_"@ + decimal(old as int) + "_"@ + decimal(new as int) + "v"@ + decimal(v as int))),
            None => None,
        },
    }
}

impl PatchOp {
    /// The resource this operation brings in: none for `Hide`, the inserted
    /// resource for `Insert`, the new resource for `Replace`.
    pub fn get_resource_id(&self) -> (id: Option<i64>)
        ensures
            id == op_resource_id(*self),
    {
        match self {
            PatchOp::Hide(_, _) => None,
            PatchOp::Insert(_, _, res) => Some(*res as i64),
            PatchOp::Replace(_, _, _, new_res) => Some(*new_res as i64),
        }
    }

    /// Renders this operation as `(domain, location, action)`, the action
    /// naming the resource and its version; `None` where a version is needed
    /// and none is given.
    pub fn build_with_version(&self, version: Option<i64>) -> (built: Option<(&'static str, String, String)>)
        ensures
            match built {
                Some((d, l, a)) => op_with_version(*self, version) == Some((d@, l@, a@)),
                None => op_with_version(*self, version) is None,
            },
    {
        match self {
            PatchOp::Hide(domain, location) => {
                let mut action = String::new();
                push_str(&mut action, "hide");
                Some((domain.as_str(), location.clone(), action))
            },
            PatchOp::Insert(domain, location, resource) => match version {
                Some(v) => {
                    let mut action = String::new();
                    push_str(&mut action, "insert_");
                    push_decimal(&mut action, *resource as i64);
                    push_str(&mut action, "v");
                    push_decimal(&mut action, v);
                    Some((domain.as_str(), location.clone(), action))
                },
                None => None,
            },
            PatchOp::Replace(domain, location, old, new) => match version {
                Some(v) => {
                    let mut action = String::new();
                    push_str(&mut action, "replace_");
                    push_decimal(&mut action, *old as i64);
                    push_str(&mut action, "_");
                    push_decimal(&mut action, *new as i64);
                    push_str(&mut action, "v");
                    push_decimal(&mut action, v);
                    Some((domain.as_str(), location.clone(), action))
                },
                None => None,
            },
        }
    }
}

/// A patch: a set of operations applied together under one id.
#[derive(Debug, Clone)]
pub struct Patch {
    pub patch_id: i32,
    /// `false` (the default): anything the patch changed is reset by a game start.
    pub cross_version: bool,
    /// `false` (the default): access to resources that `Insert`/`Replace`
    /// bring in is granted automatically (for a resource with children, only
    /// the base resource, as wanted for a hint whose answer stays locked).
    pub do_not_grant: bool,
    pub op: Vec<PatchOp>,
}

} // verus!
