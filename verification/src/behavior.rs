//! The runtime behavior of a puzzle (`id`, `title`, patches, answers) and the
//! manifest that gathers every puzzle's behavior into one file.

use vstd::prelude::*;
use std::collections::BTreeSet;
use vstd::std_specs::convert::FromSpec;
use crate::answer::Answer;
use crate::patch::{Patch, PatchOp};

verus! {

/// The behavior fields of one puzzle.
#[derive(Debug)]
pub struct PuzzleBehavior {
    pub id: i32,
    pub title: String,
    pub base_resource: i32,
    pub init_grant: bool,
    pub patch: Vec<Patch>,
    pub answer: Vec<Answer>,
}

/// Every puzzle's behavior, as one generated file.
#[derive(Debug)]
pub struct BehaviorManifest {
    pub puzzle: Vec<PuzzleBehavior>,
}

/// The operations of the patches whose id is in `ids`, patch by patch in
/// declaration order.
pub open spec fn selected_ops(patches: Seq<Patch>, ids: Set<i32>) -> Seq<PatchOp>
    decreases patches.len(),
{
    if patches.len() == 0 {
        seq![]
    } else {
        let last = patches.last();
        selected_ops(patches.drop_last(), ids) + if ids.contains(last.patch_id) {
            last.op@
        } else {
            seq![]
        }
    }
}

/// Selecting is decided by the patch id alone: a selected patch contributes
/// exactly its operations (whatever its other fields), an unselected one
/// contributes nothing.
pub proof fn lemma_selected_ops_single(p: Patch, ids: Set<i32>)
    ensures
        ids.contains(p.patch_id) ==> selected_ops(seq![p], ids) == p.op@,
        !ids.contains(p.patch_id) ==> selected_ops(seq![p], ids) == Seq::<PatchOp>::empty(),
{
    assert(seq![p].drop_last() =~= Seq::<Patch>::empty());
    assert(seq![p].last() == p);
    assert(selected_ops(Seq::<Patch>::empty(), ids) =~= Seq::<PatchOp>::empty());
    assert(Seq::<PatchOp>::empty() + p.op@ =~= p.op@);
    assert(Seq::<PatchOp>::empty() + Seq::<PatchOp>::empty() =~= Seq::<PatchOp>::empty());
}

/// Selecting from two lists of patches one after the other gives the
/// selections of each, in the same order.
pub proof fn lemma_selected_ops_concat(a: Seq<Patch>, b: Seq<Patch>, ids: Set<i32>)
    ensures
        selected_ops(a + b, ids) == selected_ops(a, ids) + selected_ops(b, ids),
    decreases b.len(),
{
    if b.len() == 0 {
        assert(a + b =~= a);
        assert(selected_ops(a, ids) + Seq::<PatchOp>::empty() =~= selected_ops(a, ids));
    } else {
        lemma_selected_ops_concat(a, b.drop_last(), ids);
        assert((a + b).drop_last() =~= a + b.drop_last());
        assert((a + b).last() == b.last());
        let tail = if ids.contains(b.last().patch_id) { b.last().op@ } else { Seq::<PatchOp>::empty() };
        assert(selected_ops(a, ids) + selected_ops(b.drop_last(), ids) + tail
            =~= selected_ops(a, ids) + (selected_ops(b.drop_last(), ids) + tail));
    }
}

/// Every selected operation belongs to a selected patch, and every operation of
/// a selected patch is selected: the result holds exactly the operations of the
/// patches whose id is chosen, each patch's in its own order.
pub proof fn lemma_selected_ops_members(patches: Seq<Patch>, ids: Set<i32>, k: int)
    requires
        0 <= k < patches.len(),
        ids.contains(patches[k].patch_id),
    ensures
        selected_ops(patches, ids) == selected_ops(patches.take(k), ids) + patches[k].op@
            + selected_ops(patches.skip(k + 1), ids),
{
    assert(patches =~= patches.take(k) + (seq![patches[k]] + patches.skip(k + 1)));
    lemma_selected_ops_concat(patches.take(k), seq![patches[k]] + patches.skip(k + 1), ids);
    lemma_selected_ops_concat(seq![patches[k]], patches.skip(k + 1), ids);
    lemma_selected_ops_single(patches[k], ids);
    assert(selected_ops(patches.take(k), ids) + (patches[k].op@ + selected_ops(patches.skip(k + 1), ids))
        =~= selected_ops(patches.take(k), ids) + patches[k].op@ + selected_ops(patches.skip(k + 1), ids));
}

fn set_has(set: &BTreeSet<i32>, id: i32) -> (found: bool)
    ensures
        found == set@.contains(id),
{
    broadcast use vstd::std_specs::btree::group_btree_axioms;
    broadcast use vstd::laws_cmp::group_laws_cmp;
    set.contains(&id)
}

impl PuzzleBehavior {
    /// The scope id of this puzzle (its `id`), in any type that converts from `i32`.
    pub fn get_scope_id<T: From<i32>>(&self) -> (r: T)
        ensures
            T::obeys_from_spec() ==> r == T::from_spec(self.id),
    {
        T::from(self.id)
    }

    /// The puzzle id (its `id`), in any type that converts from `i32`.
    pub fn get_puzzle_id<T: From<i32>>(&self) -> (r: T)
        ensures
            T::obeys_from_spec() ==> r == T::from_spec(self.id),
    {
        T::from(self.id)
    }

    /// The base resource of this puzzle, in any type that converts from `i32`.
    pub fn get_base_resource<T: From<i32>>(&self) -> (r: T)
        ensures
            T::obeys_from_spec() ==> r == T::from_spec(self.base_resource),
    {
        T::from(self.base_resource)
    }

    /// The operations of every patch whose id is in `patches`, in declaration order.
    pub fn load_patches(&self, patches: &BTreeSet<i32>) -> (ops: Vec<&PatchOp>)
        ensures
            ops@.len() == selected_ops(self.patch@, patches@).len(),
            forall|i: int| 0 <= i < ops@.len() ==> *ops@[i] == selected_ops(self.patch@, patches@)[i],
    {
        let mut result: Vec<&PatchOp> = Vec::new();
        let mut i: usize = 0;
        while i < self.patch.len()
            invariant
                i <= self.patch@.len(),
                result@.len() == selected_ops(self.patch@.take(i as int), patches@).len(),
                forall|k: int| 0 <= k < result@.len() ==> *result@[k] == selected_ops(self.patch@.take(i as int), patches@)[k],
            decreases self.patch@.len() - i,
        {
            let patch = &self.patch[i];
            let ghost before = selected_ops(self.patch@.take(i as int), patches@);
            proof {
                assert(self.patch@.take(i + 1).drop_last() =~= self.patch@.take(i as int));
            }
            if set_has(patches, patch.patch_id) {
                let mut j: usize = 0;
                while j < patch.op.len()
                    invariant
                        j <= patch.op@.len(),
                        result@.len() == before.len() + j,
                        forall|k: int| 0 <= k < before.len() ==> *result@[k] == before[k],
                        forall|k: int| 0 <= k < j ==> *result@[before.len() + k] == patch.op@[k],
                    decreases patch.op@.len() - j,
                {
                    result.push(&patch.op[j]);
                    j = j + 1;
                }
            }
            i = i + 1;
        }
        proof {
            assert(self.patch@.take(self.patch@.len() as int) =~= self.patch@);
        }
        result
    }
}

/// `s` inserted into sorted `sorted` after every entry whose id is not larger.
pub open spec fn insert_by_id(sorted: Seq<PuzzleBehavior>, x: PuzzleBehavior) -> Seq<PuzzleBehavior>
    decreases sorted.len(),
{
    if sorted.len() == 0 || sorted.last().id <= x.id {
        sorted.push(x)
    } else {
        insert_by_id(sorted.drop_last(), x).push(sorted.last())
    }
}

/// The behaviors sorted by id, stably: behaviors with the same id keep their order.
pub open spec fn sorted_by_id(items: Seq<PuzzleBehavior>) -> Seq<PuzzleBehavior>
    decreases items.len(),
{
    if items.len() == 0 {
        seq![]
    } else {
        insert_by_id(sorted_by_id(items.drop_last()), items.last())
    }
}

/// Ids never decrease along the sequence.
pub open spec fn ids_ascending(items: Seq<PuzzleBehavior>) -> bool {
    forall|i: int, j: int| 0 <= i <= j < items.len() ==> items[i].id <= items[j].id
}

proof fn lemma_insert_by_id(sorted: Seq<PuzzleBehavior>, x: PuzzleBehavior)
    requires
        ids_ascending(sorted),
    ensures
        ids_ascending(insert_by_id(sorted, x)),
        insert_by_id(sorted, x).to_multiset() == sorted.to_multiset().insert(x),
        insert_by_id(sorted, x).len() == sorted.len() + 1,
    decreases sorted.len(),
{
    broadcast use vstd::seq_lib::group_to_multiset_ensures;
    if sorted.len() == 0 || sorted.last().id <= x.id {
    } else {
        let init = sorted.drop_last();
        lemma_insert_by_id(init, x);
        let r = insert_by_id(init, x);
        assert(sorted =~= init.push(sorted.last()));
        assert forall|k: int| 0 <= k < r.len() implies r[k].id <= sorted.last().id by {
            assert(r.to_multiset().count(r[k]) > 0);
            if r[k] != x {
                assert(init.to_multiset().count(r[k]) > 0);
                assert(init.contains(r[k]));
                let m = choose|m: int| 0 <= m < init.len() && init[m] == r[k];
                assert(sorted[m] == init[m]);
            }
        }
    }
}

/// Sorting by id gives ids in ascending order and the same behaviors.
pub proof fn lemma_sorted_by_id(items: Seq<PuzzleBehavior>)
    ensures
        ids_ascending(sorted_by_id(items)),
        sorted_by_id(items).to_multiset() == items.to_multiset(),
        sorted_by_id(items).len() == items.len(),
    decreases items.len(),
{
    broadcast use vstd::seq_lib::group_to_multiset_ensures;
    if items.len() > 0 {
        lemma_sorted_by_id(items.drop_last());
        lemma_insert_by_id(sorted_by_id(items.drop_last()), items.last());
        assert(items =~= items.drop_last().push(items.last()));
    }
}

proof fn lemma_insert_at(sorted: Seq<PuzzleBehavior>, x: PuzzleBehavior, p: int)
    requires
        0 <= p <= sorted.len(),
        forall|k: int| p <= k < sorted.len() ==> sorted[k].id > x.id,
        p > 0 ==> sorted[p - 1].id <= x.id,
    ensures
        insert_by_id(sorted, x) == sorted.take(p).push(x) + sorted.skip(p),
    decreases sorted.len(),
{
    if p == sorted.len() {
        assert(sorted.take(p) =~= sorted);
        assert(sorted.skip(p) =~= Seq::<PuzzleBehavior>::empty());
        assert(sorted.take(p).push(x) + sorted.skip(p) =~= sorted.push(x));
    } else {
        let init = sorted.drop_last();
        lemma_insert_at(init, x, p);
        assert(init.take(p) =~= sorted.take(p));
        assert(sorted.take(p).push(x) + sorted.skip(p) =~= (init.take(p).push(x) + init.skip(p)).push(sorted.last()));
    }
}

/// Sorts behaviors by id, stably, so the generated manifest does not depend on
/// the order in which files were found.
pub fn sort_by_id(items: Vec<PuzzleBehavior>) -> (sorted: Vec<PuzzleBehavior>)
    ensures
        sorted@ == sorted_by_id(items@),
        ids_ascending(sorted@),
        sorted@.to_multiset() == items@.to_multiset(),
{
    let ghost original = items@;
    let mut rest = items;
    let mut out: Vec<PuzzleBehavior> = Vec::new();
    let ghost mut i: int = 0;
    while rest.len() > 0
        invariant
            0 <= i <= original.len(),
            rest@ == original.skip(i),
            out@ == sorted_by_id(original.take(i)),
        decreases rest@.len(),
    {
        proof {
            lemma_sorted_by_id(original.take(i));
        }
        let x = rest.remove(0);
        let mut p: usize = out.len();
        while p > 0 && out[p - 1].id > x.id
            invariant
                p <= out@.len(),
                forall|k: int| p <= k < out@.len() ==> out@[k].id > x.id,
            decreases p,
        {
            p = p - 1;
        }
        proof {
            lemma_insert_at(out@, x, p as int);
            assert(original.take(i + 1).drop_last() =~= original.take(i));
            assert(original.take(i + 1).last() == x);
            assert(original.skip(i + 1) =~= original.skip(i).drop_first());
        }
        out.insert(p, x);
        proof {
            assert(out@ =~= sorted_by_id(original.take(i + 1)));
            i = i + 1;
        }
    }
    proof {
        assert(original.take(i) =~= original);
        lemma_sorted_by_id(original);
    }
    out
}

} // verus!
