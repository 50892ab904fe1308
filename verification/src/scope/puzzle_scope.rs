//! A puzzle's scope: its resources, and building them into sealed blobs.

use vstd::prelude::*;
use std::collections::HashSet;
use crate::crypto::is_blob_of;
use crate::json::{entries_map, items_map, json_bytes, lemma_entry_models_map, lemma_models_map, sort_entries, sort_keys, JsonSpec, JsonValue};
use crate::resource::{
    flat_plain, flat_plain_list, flat_sealed, flat_sealed_list, own_plain, own_sealed,
    all_ok, calls_of, entry_matches, failed_with, lemma_all_ok_concat, lemma_failed_after, sealed_as_planned, versions_of, BuiltArtifact, BuiltResource, BuildError, ContentResource, EncryptContext,
    Encrypted, Grant, HintResource, JsonResource, PlannedEntry, Resource, ResourceEncrypt,
};
use crate::resource_id::ResourceId;
use crate::text::{decimal, push_decimal, push_str};
use crate::version_registry::{answered_all, lemma_answered_concat, lemma_answered_none, RegistryCall, ResourceRegistration, VersionRegistry, VersionRegistryError};
use crate::scope::config::{
    content_kind, content_kind_of, content_source_ok, content_text, file_extension, grant_config_id, grant_of,
    json_choice, json_file_ok, json_file_parses, json_source_ok, resolve_content, resolve_json, to_resource_id, GrantConfig, LoadedFile, TomlValue,
};

verus! {

// ---------------------------------------------------------------------------
// Lists of resources.

/// How many entries a list of resources seals.
pub open spec fn list_count<T: ResourceEncrypt>(rs: Seq<T>) -> nat
    decreases rs.len(),
{
    if rs.len() == 0 {
        0
    } else {
        list_count(rs.drop_last()) + rs.last().sealed_count()
    }
}

/// The entries a list of resources seals, given the versions they are assigned in order.
pub open spec fn list_planned<T: ResourceEncrypt>(rs: Seq<T>, path: Seq<(Seq<char>, i32)>, versions: Seq<i64>) -> Seq<PlannedEntry>
    decreases rs.len(),
{
    if rs.len() == 0 {
        seq![]
    } else {
        let n = list_count(rs.drop_last()) as int;
        list_planned(rs.drop_last(), path, versions.take(n)) + rs.last().planned(path, versions.skip(n))
    }
}

/// The entries a list of resources leaves to its parent, given the versions of the sealed ones.
pub open spec fn list_plain<T: ResourceEncrypt>(rs: Seq<T>, versions: Seq<i64>) -> Seq<(ResourceId, JsonSpec)>
    decreases rs.len(),
{
    if rs.len() == 0 {
        seq![]
    } else {
        let n = list_count(rs.drop_last()) as int;
        list_plain(rs.drop_last(), versions.take(n)) + rs.last().plain(versions.skip(n))
    }
}

/// The ids a list of resources claims, in order.
pub open spec fn list_ids<T: ResourceEncrypt>(rs: Seq<T>) -> Seq<ResourceId>
    decreases rs.len(),
{
    if rs.len() == 0 {
        seq![]
    } else {
        list_ids(rs.drop_last()) + rs.last().claim_ids()
    }
}

/// The lookups building a list of resources makes, in order, given the
/// entries it sealed.
pub open spec fn list_calls<T: ResourceEncrypt>(rs: Seq<T>, sealed: Seq<(ResourceRegistration, Encrypted)>) -> Seq<RegistryCall>
    decreases rs.len(),
{
    if rs.len() == 0 {
        seq![]
    } else {
        let n = list_count(rs.drop_last()) as int;
        list_calls(rs.drop_last(), sealed.take(n)) + rs.last().registry_calls(sealed.skip(n))
    }
}

/// No id occurs twice, and none is already in `seen`.
pub open spec fn ids_fresh(ids: Seq<ResourceId>, seen: Set<i32>) -> bool {
    &&& forall|i: int| 0 <= i < ids.len() ==> !seen.contains(#[trigger] ids[i].id())
    &&& forall|i: int, j: int| 0 <= i < j < ids.len() ==> ids[i].id() != ids[j].id()
}

/// The set of the integers of `ids`.
pub open spec fn id_set(ids: Seq<ResourceId>) -> Set<i32> {
    Set::new(|x: i32| exists|i: int| 0 <= i < ids.len() && ids[i].id() == x)
}

/// Plain entries tagged with the field they are folded in under.
pub open spec fn tag_field(field: Seq<char>, items: Seq<(ResourceId, JsonSpec)>) -> Seq<(Seq<char>, ResourceId, JsonSpec)> {
    Seq::new(items.len(), |i: int| (field, items[i].0, items[i].1))
}

/// The model of the collected plain entries.
pub open spec fn inherit_view(v: Seq<(&'static str, ResourceId, JsonValue)>) -> Seq<(Seq<char>, ResourceId, JsonSpec)> {
    Seq::new(v.len(), |i: int| (v[i].0@, v[i].1, v[i].2@))
}

proof fn lemma_ids_fresh_split(a: Seq<ResourceId>, b: Seq<ResourceId>, seen: Set<i32>)
    requires
        ids_fresh(a + b, seen),
    ensures
        ids_fresh(a, seen),
        ids_fresh(b, seen.union(id_set(a))),
{
    assert forall|i: int| 0 <= i < b.len() implies !seen.union(id_set(a)).contains(#[trigger] b[i].id()) by {
        assert((a + b)[a.len() + i] == b[i]);
        if id_set(a).contains(b[i].id()) {
            let j = choose|j: int| 0 <= j < a.len() && a[j].id() == (b[i].id()) as int;
            assert((a + b)[j] == a[j]);
        }
    }
    assert forall|i: int, j: int| 0 <= i < j < b.len() implies b[i].id() != b[j].id() by {
        assert((a + b)[a.len() + i] == b[i]);
        assert((a + b)[a.len() + j] == b[j]);
    }
    assert forall|i: int| 0 <= i < a.len() implies !seen.contains(#[trigger] a[i].id()) by {
        assert((a + b)[i] == a[i]);
    }
    assert forall|i: int, j: int| 0 <= i < j < a.len() implies a[i].id() != a[j].id() by {
        assert((a + b)[i] == a[i]);
        assert((a + b)[j] == a[j]);
    }
}

proof fn lemma_id_set_concat(a: Seq<ResourceId>, b: Seq<ResourceId>)
    ensures
        id_set(a + b) == id_set(a).union(id_set(b)),
{
    assert forall|x: i32| id_set(a + b).contains(x) <==> id_set(a).union(id_set(b)).contains(x) by {
        if id_set(a + b).contains(x) {
            let i = choose|i: int| 0 <= i < (a + b).len() && (a + b)[i].id() == x;
            if i < a.len() {
                assert(a[i] == (a + b)[i]);
            } else {
                assert(b[i - a.len()] == (a + b)[i]);
            }
        }
        if id_set(a).contains(x) {
            let i = choose|i: int| 0 <= i < a.len() && a[i].id() == x;
            assert((a + b)[i] == a[i]);
        }
        if id_set(b).contains(x) {
            let i = choose|i: int| 0 <= i < b.len() && b[i].id() == x;
            assert((a + b)[a.len() + i] == b[i]);
        }
    }
    assert(id_set(a + b) =~= id_set(a).union(id_set(b)));
}

/// Records `id` as claimed. Resource ids share one namespace across every
/// grant and every field: the same number never names two pieces of content.
fn claim_id(id: ResourceId, seen: &mut HashSet<i32>)
    requires
        !old(seen)@.contains(id.id()),
    ensures
        final(seen)@ == old(seen)@.insert(id.id()),
{
    broadcast use vstd::std_specs::hash::group_hash_axioms;
    seen.insert(id.get());
}

/// Files a built resource and everything below it: sealed artifacts into
/// `built`, plain ones into `inherit` under `field`.
fn add(
    field: &'static str,
    built_resource: BuiltResource,
    inherit: &mut Vec<(&'static str, ResourceId, JsonValue)>,
    built: &mut Vec<(ResourceRegistration, Encrypted)>,
)
    ensures
        final(built)@ == old(built)@ + flat_sealed(built_resource),
        inherit_view(final(inherit)@) == inherit_view(old(inherit)@) + tag_field(field@, flat_plain(built_resource)),
    decreases built_resource,
{
    let ghost b = built_resource;
    let BuiltResource { artifact, children } = built_resource;
    let ghost inherit0 = inherit_view(inherit@);
    match artifact {
        BuiltArtifact::Encrypted { reg, enc } => built.push((reg, enc)),
        BuiltArtifact::PlainText { resource_id, scope_id: _, content } => inherit.push((field, resource_id, content)),
    }
    proof {
        assert(inherit_view(inherit@) =~= inherit0 + tag_field(field@, own_plain(b.artifact)));
    }
    let mut rest = children;
    let ghost mut done: Seq<BuiltResource> = seq![];
    while rest.len() > 0
        invariant
            b.children@ == done + rest@,
            b == built_resource,
            built@ == old(built)@ + own_sealed(b.artifact) + flat_sealed_list(done),
            inherit_view(inherit@) == inherit_view(old(inherit)@) + tag_field(field@, own_plain(b.artifact) + flat_plain_list(done)),
        decreases rest@.len(),
    {
        let child = rest.remove(0);
        proof {
            assert(b.children@[done.len() as int] == child);
            assert(decreases_to!(b => b.children@[done.len() as int]));
            assert(decreases_to!(built_resource => child));
            assert(decreases_to!(b => b.children));
            assert(decreases_to!(b.children => b.children@));
            assert(decreases_to!(b.children@ => b.children@[done.len() as int]));
            assert(b.children@ =~= done + seq![child] + rest@);
        }
        self::add(field, child, inherit, built);
        proof {
            assert(done.push(child).drop_last() =~= done);
            assert(tag_field(field@, own_plain(b.artifact) + flat_plain_list(done)) + tag_field(field@, flat_plain(child))
                =~= tag_field(field@, own_plain(b.artifact) + flat_plain_list(done.push(child))));
            done = done.push(child);
        }
    }
    proof {
        assert(done =~= b.children@);
        assert(inherit_view(inherit@) =~= inherit_view(old(inherit)@) + tag_field(field@, flat_plain(b)));
    }
}

/// Claims every id of `ids`, in order.
fn claim_all(ids: &Vec<ResourceId>, seen: &mut HashSet<i32>)
    requires
        ids_fresh(ids@, old(seen)@),
    ensures
        final(seen)@ == old(seen)@.union(id_set(ids@)),
{
    let mut i: usize = 0;
    while i < ids.len()
        invariant
            i <= ids@.len(),
            ids_fresh(ids@, old(seen)@),
            seen@ == old(seen)@.union(id_set(ids@.take(i as int))),
        decreases ids@.len() - i,
    {
        proof {
            assert(ids@ =~= ids@.take(i as int) + ids@.skip(i as int));
            lemma_ids_fresh_split(ids@.take(i as int), ids@.skip(i as int), old(seen)@);
            assert(ids@.skip(i as int)[0] == ids@[i as int]);
        }
        claim_id(ids[i], seen);
        proof {
            assert(ids@.take(i + 1) =~= ids@.take(i as int) + seq![ids@[i as int]]);
            lemma_id_set_concat(ids@.take(i as int), seq![ids@[i as int]]);
            assert(id_set(seq![ids@[i as int]]) =~= Set::empty().insert(ids@[i as int].id())) by {
                assert(seq![ids@[i as int]][0] == ids@[i as int]);
            }
        }
        i = i + 1;
    }
    proof {
        assert(ids@.take(i as int) =~= ids@);
    }
}

proof fn lemma_planned_concat(base: Seq<u8>, scope: ResourceId,
    a: Seq<(ResourceRegistration, Encrypted)>, pa: Seq<PlannedEntry>,
    b: Seq<(ResourceRegistration, Encrypted)>, pb: Seq<PlannedEntry>)
    requires
        sealed_as_planned(base, scope, a, pa),
        sealed_as_planned(base, scope, b, pb),
    ensures
        sealed_as_planned(base, scope, a + b, pa + pb),
{
    assert forall|k: int| 0 <= k < (a + b).len() implies #[trigger] entry_matches(base, scope, (a + b)[k], (pa + pb)[k]) by {
        if k < a.len() {
            assert((a + b)[k] == a[k]);
            assert((pa + pb)[k] == pa[k]);
        } else {
            assert((a + b)[k] == b[k - a.len()]);
            assert((pa + pb)[k] == pb[k - a.len()]);
            assert(entry_matches(base, scope, b[k - a.len()], pb[k - a.len()]));
        }
    }
}

proof fn lemma_list_ids_concat<T: ResourceEncrypt>(a: Seq<T>, b: Seq<T>)
    ensures
        list_ids(a + b) == list_ids(a) + list_ids(b),
    decreases b.len(),
{
    if b.len() == 0 {
        assert(a + b =~= a);
        assert(list_ids(b) =~= Seq::<ResourceId>::empty());
    } else {
        assert((a + b).drop_last() =~= a + b.drop_last());
        lemma_list_ids_concat(a, b.drop_last());
    }
}

proof fn lemma_versions_concat(a: Seq<(ResourceRegistration, Encrypted)>, b: Seq<(ResourceRegistration, Encrypted)>)
    ensures
        versions_of(a + b) == versions_of(a) + versions_of(b),
        versions_of(a + b).take(a.len() as int) == versions_of(a),
        versions_of(a + b).skip(a.len() as int) == versions_of(b),
{
    assert(versions_of(a + b) =~= versions_of(a) + versions_of(b));
    assert(versions_of(a + b).take(a.len() as int) =~= versions_of(a));
    assert(versions_of(a + b).skip(a.len() as int) =~= versions_of(b));
}

/// Builds every resource of one field in order and files each with `add`:
/// sealed artifacts are appended to `built`, plain ones to `inherit` under
/// `field`, and every id is claimed in `seen`.
pub fn build<T: ResourceEncrypt, R: VersionRegistry>(
    field: &'static str,
    resource: Vec<T>,
    ctx: &EncryptContext,
    registry: &mut R,
    inherit: &mut Vec<(&'static str, ResourceId, JsonValue)>,
    built: &mut Vec<(ResourceRegistration, Encrypted)>,
    seen: &mut HashSet<i32>,
) -> (res: Result<(), BuildError>)
    requires
        ids_fresh(list_ids(resource@), old(seen)@),
    ensures
        res is Ok ==> {
            let new = final(built)@.skip(old(built)@.len() as int);
            &&& final(built)@ == old(built)@ + new
            &&& sealed_as_planned(ctx.root().base(), ctx.scope(), new, list_planned(resource@, ctx.root().path(), versions_of(new)))
            &&& inherit_view(final(inherit)@) == inherit_view(old(inherit)@) + tag_field(field@, list_plain(resource@, versions_of(new)))
            &&& final(seen)@ == old(seen)@.union(id_set(list_ids(resource@)))
        },
        list_count(resource@) == 0 ==> res is Ok,
        res is Ok ==> answered_all(*old(registry), *final(registry),
            list_calls(resource@, final(built)@.skip(old(built)@.len() as int)))
            && all_ok(list_calls(resource@, final(built)@.skip(old(built)@.len() as int))),
        res matches Err(e) ==> failed_with(*old(registry), *final(registry), e, ctx.scope()),
        res matches Err(BuildError::TooLarge(id)) ==> list_ids(resource@).contains(id),
{
    let ghost reg0 = *registry;
    proof {
        lemma_answered_none(reg0);
    }
    let ghost all = resource@;
    let ghost base = ctx.root().base();
    let ghost scope = ctx.scope();
    let ghost path = ctx.root().path();
    let ghost start = built@;
    let ghost inherit0 = inherit_view(inherit@);
    let ghost seen0 = seen@;
    let mut rest = resource;
    let ghost mut done: Seq<T> = seq![];
    proof {
        assert(start.skip(start.len() as int) =~= Seq::<(ResourceRegistration, Encrypted)>::empty());
        assert(id_set(Seq::<ResourceId>::empty()) =~= Set::<i32>::empty());
        assert(tag_field(field@, Seq::<(ResourceId, JsonSpec)>::empty()) =~= Seq::<(Seq<char>, ResourceId, JsonSpec)>::empty());
    }
    while rest.len() > 0
        invariant
            all == done + rest@,
            all == resource@,
            list_count(all) == list_count(done) + list_count(rest@),
            answered_all(reg0, *registry, list_calls(done, built@.skip(start.len() as int))),
            all_ok(list_calls(done, built@.skip(start.len() as int))),
            reg0 == *old(registry),
            ids_fresh(list_ids(all), seen0),
            ctx.root().base() == base,
            ctx.scope() == scope,
            ctx.root().path() == path,
            built@ == start + built@.skip(start.len() as int),
            built@.skip(start.len() as int).len() == list_count(done),
            sealed_as_planned(base, scope, built@.skip(start.len() as int),
                list_planned(done, path, versions_of(built@.skip(start.len() as int)))),
            inherit_view(inherit@) == inherit0 + tag_field(field@, list_plain(done, versions_of(built@.skip(start.len() as int)))),
            seen@ == seen0.union(id_set(list_ids(done))),
        decreases rest@.len(),
    {
        let ghost old_rest = rest@;
        let r = rest.remove(0);
        let ghost new0 = built@.skip(start.len() as int);
        proof {
            assert(all =~= (done + seq![r]) + rest@);
            lemma_list_ids_concat(done + seq![r], rest@);
            lemma_list_ids_concat(done, seq![r]);
            assert(seq![r].drop_last() =~= Seq::<T>::empty());
            assert(seq![r].last() == r);
            assert(list_ids(Seq::<T>::empty()) =~= Seq::<ResourceId>::empty());
            assert(list_ids(seq![r]) =~= r.claim_ids());
            lemma_ids_fresh_split(list_ids(done + seq![r]), list_ids(rest@), seen0);
            lemma_ids_fresh_split(list_ids(done), r.claim_ids(), seen0);
            r.lemma_planned_len(path, Seq::empty());
            lemma_list_count_concat(seq![r], rest@);
            assert(list_count(Seq::<T>::empty()) == 0);
            assert(list_count(seq![r]) == list_count(seq![r].drop_last()) + r.sealed_count());
            assert(seq![r] + rest@ == old_rest);
        }
        let ghost rr = r;
        let ids = r.claimed_ids();
        claim_all(&ids, seen);
        let ghost r_mid = *registry;
        let b = match r.build(ctx, registry) {
            Ok(b) => b,
            Err(e) => {
                proof {
                    lemma_failed_after(reg0, r_mid, *registry, list_calls(done, new0), e, ctx.scope());
                    if e is TooLarge {
                        let id = e->TooLarge_0;
                        let k = choose|k: int| 0 <= k < rr.claim_ids().len() && rr.claim_ids()[k] == id;
                        assert(list_ids(all)[list_ids(done).len() + k] == id);
                    }
                }
                return Err(e);
            },
        };
        let ghost flat = flat_sealed(b);
        proof {
            rr.lemma_planned_len(path, versions_of(flat));
        }
        self::add(field, b, inherit, built);
        proof {
            let new1 = built@.skip(start.len() as int);
            assert(new1 =~= new0 + flat);
            assert(built@ =~= start + new1);
            lemma_versions_concat(new0, flat);
            let d1 = done.push(rr);
            assert(d1.drop_last() =~= done);
            assert(d1.last() == rr);
            assert(list_count(d1) == list_count(done) + rr.sealed_count());
            assert(new1.take(new0.len() as int) =~= new0);
            assert(new1.skip(new0.len() as int) =~= flat);
            assert(list_calls(d1, new1) == list_calls(done, new0) + rr.registry_calls(flat));
            lemma_answered_concat(reg0, r_mid, *registry, list_calls(done, new0), rr.registry_calls(flat));
            lemma_all_ok_concat(list_calls(done, new0), rr.registry_calls(flat));
            let v1 = versions_of(new1);
            assert(list_planned(d1, path, v1) == list_planned(done, path, versions_of(new0)) + rr.planned(path, versions_of(flat)));
            lemma_planned_concat(base, scope, new0, list_planned(done, path, versions_of(new0)), flat, rr.planned(path, versions_of(flat)));
            assert(list_plain(d1, v1) == list_plain(done, versions_of(new0)) + rr.plain(versions_of(flat)));
            assert(tag_field(field@, list_plain(done, versions_of(new0))) + tag_field(field@, rr.plain(versions_of(flat)))
                =~= tag_field(field@, list_plain(d1, v1)));
            assert(done + seq![rr] =~= d1);
            lemma_id_set_concat(list_ids(done), rr.claim_ids());
            assert(list_ids(d1) == list_ids(done) + rr.claim_ids());
            done = d1;
        }
    }
    proof {
        assert(done =~= all);
    }
    Ok(())
}

proof fn lemma_list_count_concat<T: ResourceEncrypt>(a: Seq<T>, b: Seq<T>)
    ensures
        list_count(a + b) == list_count(a) + list_count(b),
    decreases b.len(),
{
    if b.len() == 0 {
        assert(a + b =~= a);
    } else {
        assert((a + b).drop_last() =~= a + b.drop_last());
        lemma_list_count_concat(a, b.drop_last());
    }
}

proof fn lemma_list_planned_len<T: ResourceEncrypt>(rs: Seq<T>, path: Seq<(Seq<char>, i32)>, versions: Seq<i64>)
    ensures
        list_planned(rs, path, versions).len() == list_count(rs),
    decreases rs.len(),
{
    if rs.len() > 0 {
        let n = list_count(rs.drop_last()) as int;
        lemma_list_planned_len(rs.drop_last(), path, versions.take(n));
        rs.last().lemma_planned_len(path, versions.skip(n));
    }
}

// ---------------------------------------------------------------------------
// The scope's own base resource.

/// The named, ordered view of a scope's resources that patches edit at
/// runtime; carried into the scope's base resource as initial state.
#[derive(Debug, Default)]
pub struct BaseManifest {
    pub content: Vec<(String, ResourceId)>,
    pub data: Vec<(String, ResourceId)>,
    pub hint: Vec<(String, ResourceId)>,
}

/// A puzzle scope with its resources resolved.
pub struct PuzzleScope {
    pub id: ResourceId,
    pub base_resource: ResourceId,
    pub title: String,
    pub contents: Vec<ContentResource>,
    pub data: Vec<JsonResource>,
    pub hints: Vec<HintResource>,
    pub base_manifest: BaseManifest,
}

/// `[name, id]` pairs in declaration order.
pub open spec fn named_ids_json(entries: Seq<(String, ResourceId)>) -> JsonSpec {
    JsonSpec::Array(Seq::new(entries.len(), |i: int|
        JsonSpec::Array(seq![JsonSpec::Str(entries[i].0@), JsonSpec::Int(entries[i].1.id() as int)])))
}

/// Inherited entries keyed by the decimal text of their ids.
pub open spec fn id_entries(items: Seq<(ResourceId, JsonSpec)>) -> Seq<(Seq<char>, JsonSpec)> {
    Seq::new(items.len(), |i: int| (decimal(items[i].0.id() as int), items[i].1))
}

/// The entry of one field in the inherit object: present only if something was inherited there.
pub open spec fn field_entry(name: Seq<char>, items: Seq<(ResourceId, JsonSpec)>) -> Seq<(Seq<char>, JsonSpec)> {
    if items.len() == 0 {
        seq![]
    } else {
        seq![(name, JsonSpec::Object(sort_keys(id_entries(items))))]
    }
}

/// The `inherit` object: for each field with inherited entries, keyed by the
/// config's field name (`contents`, `data`, `hints`; not `context` or
/// `hint`), an object from id to the inherited JSON.
pub open spec fn inherit_json(contents: Seq<(ResourceId, JsonSpec)>, data: Seq<(ResourceId, JsonSpec)>, hints: Seq<(ResourceId, JsonSpec)>) -> JsonSpec {
    JsonSpec::Object(field_entry("contents"@, contents) + field_entry("data"@, data) + field_entry("hints"@, hints))
}

/// The JSON of a scope's base resource.
pub open spec fn scope_json(title: Seq<char>, inherit: JsonSpec, manifest: BaseManifest) -> JsonSpec {
    JsonSpec::Object(seq![
        ("base_manifest"@, JsonSpec::Object(seq![
            ("content"@, named_ids_json(manifest.content@)),
            ("data"@, named_ids_json(manifest.data@)),
            ("hint"@, named_ids_json(manifest.hint@)),
        ])),
        ("inherit"@, inherit),
        ("title"@, JsonSpec::Str(title)),
    ])
}

/// `array` lists `entries` as `[name, id]` pairs, element `i` from entry `i`.
pub open spec fn lists_in_order(array: JsonSpec, entries: Seq<(String, ResourceId)>) -> bool {
    &&& array is Array
    &&& array->Array_0.len() == entries.len()
    &&& forall|i: int| 0 <= i < entries.len() ==> #[trigger] array->Array_0[i]
            == JsonSpec::Array(seq![JsonSpec::Str(entries[i].0@), JsonSpec::Int(entries[i].1.id() as int)])
}

/// The scope's base resource carries the base manifest in declaration order:
/// its `base_manifest` object has `content`, `data` and `hint`, and element
/// `i` of each is the `[name, id]` pair of entry `i` of that list, which is
/// what patch operations address by position. The `title` is the scope's.
pub proof fn lemma_scope_json_manifest_order(title: Seq<char>, inherit: JsonSpec, manifest: BaseManifest)
    ensures ({
        let j = scope_json(title, inherit, manifest);
        &&& j is Object
        &&& j->Object_0.len() == 3
        &&& j->Object_0[0].0 == "base_manifest"@
        &&& j->Object_0[1] == ("inherit"@, inherit)
        &&& j->Object_0[2] == ("title"@, JsonSpec::Str(title))
        &&& j->Object_0[0].1 is Object
        &&& j->Object_0[0].1->Object_0.len() == 3
        &&& j->Object_0[0].1->Object_0[0].0 == "content"@
        &&& lists_in_order(j->Object_0[0].1->Object_0[0].1, manifest.content@)
        &&& j->Object_0[0].1->Object_0[1].0 == "data"@
        &&& lists_in_order(j->Object_0[0].1->Object_0[1].1, manifest.data@)
        &&& j->Object_0[0].1->Object_0[2].0 == "hint"@
        &&& lists_in_order(j->Object_0[0].1->Object_0[2].1, manifest.hint@)
    }),
{
}

/// The lookups building a scope makes, in order, given what it sealed: those
/// of its contents, data and hints, then that of its own base resource.
pub open spec fn scope_calls(scope: PuzzleScope, out: Seq<(ResourceRegistration, Encrypted)>) -> Seq<RegistryCall> {
    let nc = list_count(scope.contents@) as int;
    let nd = list_count(scope.data@) as int;
    let nh = list_count(scope.hints@) as int;
    list_calls(scope.contents@, out.take(nc)) + list_calls(scope.data@, out.subrange(nc, nc + nd))
        + list_calls(scope.hints@, out.subrange(nc + nd, nc + nd + nh)) + calls_of(out.skip(nc + nd + nh))
}

/// The first step of every key path of a scope.
pub open spec fn scope_path(scope: ResourceId) -> Seq<(Seq<char>, i32)> {
    seq![("Scope"@, scope.id())]
}

/// Every entry a scope seals, in order: its contents, data and hints (each
/// below the scope's derive key), then its own base resource (below its
/// inherit key), given the versions the registry assigns them in order.
pub open spec fn scope_plan(scope: PuzzleScope, versions: Seq<i64>) -> Seq<PlannedEntry> {
    let path = scope_path(scope.id).push(("ScopeDerive"@, scope.id.id()));
    let nc = list_count(scope.contents@) as int;
    let nd = list_count(scope.data@) as int;
    let nh = list_count(scope.hints@) as int;
    let vc = versions.take(nc);
    let vd = versions.subrange(nc, nc + nd);
    let vh = versions.subrange(nc + nd, nc + nd + nh);
    list_planned(scope.contents@, path, vc) + list_planned(scope.data@, path, vd) + list_planned(scope.hints@, path, vh)
        + seq![PlannedEntry {
            id: scope.base_resource,
            path: scope_path(scope.id).push(("ScopeInherit"@, scope.id.id())).push(("Indep"@, scope.base_resource.id())),
            raw: json_bytes(scope_json(scope.title@,
                inherit_json(list_plain(scope.contents@, vc), list_plain(scope.data@, vd), list_plain(scope.hints@, vh)),
                scope.base_manifest)),
        }]
}

/// Every id a scope claims, in the order building claims them.
pub open spec fn scope_ids(scope: PuzzleScope) -> Seq<ResourceId> {
    list_ids(scope.contents@) + list_ids(scope.data@) + list_ids(scope.hints@) + seq![scope.base_resource]
}

/// The id and JSON of each collected entry, without its field.
pub open spec fn untag(t: Seq<(Seq<char>, ResourceId, JsonSpec)>) -> Seq<(ResourceId, JsonSpec)> {
    Seq::new(t.len(), |i: int| (t[i].1, t[i].2))
}

fn decimal_string(i: i32) -> (s: String)
    ensures
        s@ == decimal(i as int),
{
    let mut s = String::new();
    push_decimal(&mut s, i as i64);
    s
}

/// Removes the first `n` collected entries and keys each by its id.
fn take_group(rest: &mut Vec<(&'static str, ResourceId, JsonValue)>, n: usize) -> (group: Vec<(String, JsonValue)>)
    requires
        n <= old(rest)@.len(),
    ensures
        final(rest)@ == old(rest)@.skip(n as int),
        entries_map(group@) == id_entries(untag(inherit_view(old(rest)@.take(n as int)))),
{
    let mut group: Vec<(String, JsonValue)> = Vec::new();
    let mut k: usize = 0;
    while k < n
        invariant
            k <= n <= old(rest)@.len(),
            rest@ == old(rest)@.skip(k as int),
            entries_map(group@) == id_entries(untag(inherit_view(old(rest)@.take(k as int)))),
        decreases n - k,
    {
        let ghost g0 = group@;
        let (_field, id, value) = rest.remove(0);
        let key = decimal_string(id.get());
        let ghost item = (key@, value@);
        group.push((key, value));
        proof {
            let o = old(rest)@;
            assert(o[k as int] == (_field, id, value));
            assert(o.skip(k + 1) =~= o.skip(k as int).drop_first());
            let target = id_entries(untag(inherit_view(o.take(k + 1))));
            let prev = id_entries(untag(inherit_view(o.take(k as int))));
            assert(target.len() == k + 1);
            assert forall|j: int| 0 <= j < k implies target[j] == prev[j] by {
                assert(o.take(k + 1)[j] == o.take(k as int)[j]);
            }
            assert(target[k as int] == item);
            assert(entries_map(group@) =~= entries_map(g0).push(item));
            assert(entries_map(group@) =~= target);
        }
        k = k + 1;
    }
    group
}

/// The inherit object from the entries collected for contents (the first
/// `n1`), data (up to `n2`) and hints (the rest).
fn inherit_object(inherit: Vec<(&'static str, ResourceId, JsonValue)>, n1: usize, n2: usize) -> (json: JsonValue)
    requires
        n1 <= n2 <= inherit@.len(),
    ensures
        json@ == inherit_json(
            untag(inherit_view(inherit@.take(n1 as int))),
            untag(inherit_view(inherit@.subrange(n1 as int, n2 as int))),
            untag(inherit_view(inherit@.skip(n2 as int)))),
{
    let ghost all = inherit@;
    let mut rest = inherit;
    let c = take_group(&mut rest, n1);
    let d = take_group(&mut rest, n2 - n1);
    let len = rest.len();
    let h = take_group(&mut rest, len);
    proof {
        assert(all.skip(n1 as int).take((n2 - n1) as int) =~= all.subrange(n1 as int, n2 as int));
        assert(all.skip(n1 as int).skip((n2 - n1) as int) =~= all.skip(n2 as int));
        assert(all.skip(n2 as int).take(len as int) =~= all.skip(n2 as int));
        lemma_entry_models_map(c@);
        lemma_entry_models_map(d@);
        lemma_entry_models_map(h@);
    }
    let c_empty = c.len() == 0;
    let d_empty = d.len() == 0;
    let h_empty = h.len() == 0;
    let c = sort_entries(c);
    let d = sort_entries(d);
    let h = sort_entries(h);
    proof {
        lemma_entry_models_map(c@);
        lemma_entry_models_map(d@);
        lemma_entry_models_map(h@);
    }
    let mut fields: Vec<(String, JsonValue)> = Vec::new();
    if !c_empty {
        fields.push(("contents".to_owned(), JsonValue::Object(c)));
    }
    if !d_empty {
        fields.push(("data".to_owned(), JsonValue::Object(d)));
    }
    if !h_empty {
        fields.push(("hints".to_owned(), JsonValue::Object(h)));
    }
    proof {
        lemma_entry_models_map(fields@);
        let ci = untag(inherit_view(all.take(n1 as int)));
        let di = untag(inherit_view(all.subrange(n1 as int, n2 as int)));
        let hi = untag(inherit_view(all.skip(n2 as int)));
        assert(entries_map(fields@) =~= field_entry("contents"@, ci) + field_entry("data"@, di) + field_entry("hints"@, hi));
    }
    JsonValue::Object(fields)
}

/// `[name, id]` pairs, in declaration order.
fn named_ids_value(entries: &Vec<(String, ResourceId)>) -> (json: JsonValue)
    ensures
        json@ == named_ids_json(entries@),
{
    let mut items: Vec<JsonValue> = Vec::new();
    let mut i: usize = 0;
    while i < entries.len()
        invariant
            i <= entries@.len(),
            items_map(items@) == named_ids_json(entries@)->Array_0.take(i as int),
        decreases entries@.len() - i,
    {
        let mut pair: Vec<JsonValue> = Vec::new();
        pair.push(JsonValue::String(entries[i].0.clone()));
        pair.push(JsonValue::Int(entries[i].1.get() as i64));
        proof {
            lemma_models_map(pair@);
            assert(items_map(pair@) =~= seq![JsonSpec::Str(entries@[i as int].0@), JsonSpec::Int(entries@[i as int].1.id() as int)]);
        }
        let v = JsonValue::Array(pair);
        proof {
            assert(v@ == JsonSpec::Array(crate::json::json_models(pair@)));
            assert(v@ == named_ids_json(entries@)->Array_0[i as int]);
        }
        let ghost items0 = items@;
        items.push(v);
        i = i + 1;
        proof {
            assert(items_map(items@) =~= items_map(items0).push(v@));
            assert(items_map(items@) =~= named_ids_json(entries@)->Array_0.take(i as int));
        }
    }
    proof {
        lemma_models_map(items@);
        assert(named_ids_json(entries@)->Array_0.take(i as int) =~= named_ids_json(entries@)->Array_0);
    }
    JsonValue::Array(items)
}

fn scope_value(title: String, inherit: JsonValue, manifest: &BaseManifest) -> (json: JsonValue)
    ensures
        json@ == scope_json(title@, inherit@, *manifest),
{
    let mut bm: Vec<(String, JsonValue)> = Vec::new();
    bm.push(("content".to_owned(), named_ids_value(&manifest.content)));
    bm.push(("data".to_owned(), named_ids_value(&manifest.data)));
    bm.push(("hint".to_owned(), named_ids_value(&manifest.hint)));
    proof {
        lemma_entry_models_map(bm@);
        assert(entries_map(bm@) =~= seq![
            ("content"@, named_ids_json(manifest.content@)),
            ("data"@, named_ids_json(manifest.data@)),
            ("hint"@, named_ids_json(manifest.hint@)),
        ]);
    }
    let bm_value = JsonValue::Object(bm);
    proof {
        assert(bm_value@ == JsonSpec::Object(crate::json::entry_models(bm@)));
    }
    let mut fields: Vec<(String, JsonValue)> = Vec::new();
    fields.push(("base_manifest".to_owned(), bm_value));
    fields.push(("inherit".to_owned(), inherit));
    fields.push(("title".to_owned(), JsonValue::String(title)));
    proof {
        lemma_entry_models_map(fields@);
        assert(entries_map(fields@) =~= scope_json(title@, inherit@, *manifest)->Object_0);
    }
    JsonValue::Object(fields)
}

proof fn lemma_untag_tag(field: Seq<char>, items: Seq<(ResourceId, JsonSpec)>)
    ensures
        untag(tag_field(field, items)) == items,
{
    assert(untag(tag_field(field, items)) =~= items);
}

proof fn lemma_split_inherit(all: Seq<(&'static str, ResourceId, JsonValue)>, n1: int, n2: int,
    tc: Seq<(Seq<char>, ResourceId, JsonSpec)>, td: Seq<(Seq<char>, ResourceId, JsonSpec)>, th: Seq<(Seq<char>, ResourceId, JsonSpec)>)
    requires
        inherit_view(all) == tc + td + th,
        tc.len() == n1,
        td.len() == n2 - n1,
    ensures
        0 <= n1 <= n2 <= all.len(),
        inherit_view(all.take(n1)) == tc,
        inherit_view(all.subrange(n1, n2)) == td,
        inherit_view(all.skip(n2)) == th,
{
    assert(inherit_view(all).len() == all.len());
    assert forall|k: int| 0 <= k < n1 implies inherit_view(all.take(n1))[k] == tc[k] by {
        assert(inherit_view(all)[k] == (tc + td + th)[k]);
    }
    assert(inherit_view(all.take(n1)) =~= tc);
    assert forall|k: int| 0 <= k < n2 - n1 implies inherit_view(all.subrange(n1, n2))[k] == td[k] by {
        assert(inherit_view(all)[n1 + k] == (tc + td + th)[n1 + k]);
    }
    assert(inherit_view(all.subrange(n1, n2)) =~= td);
    assert forall|k: int| 0 <= k < th.len() implies inherit_view(all.skip(n2))[k] == th[k] by {
        assert(inherit_view(all)[n2 + k] == (tc + td + th)[n2 + k]);
    }
    assert(inherit_view(all.skip(n2)) =~= th);
}

proof fn lemma_scope_plan(scope: PuzzleScope, base: Seq<u8>, path: Seq<(Seq<char>, i32)>,
    new_c: Seq<(ResourceRegistration, Encrypted)>, new_d: Seq<(ResourceRegistration, Encrypted)>,
    new_h: Seq<(ResourceRegistration, Encrypted)>, last: Seq<(ResourceRegistration, Encrypted)>)
    requires
        path == scope_path(scope.id).push(("ScopeDerive"@, scope.id.id())),
        sealed_as_planned(base, scope.id, new_c, list_planned(scope.contents@, path, versions_of(new_c))),
        sealed_as_planned(base, scope.id, new_d, list_planned(scope.data@, path, versions_of(new_d))),
        sealed_as_planned(base, scope.id, new_h, list_planned(scope.hints@, path, versions_of(new_h))),
        sealed_as_planned(base, scope.id, last, seq![PlannedEntry {
            id: scope.base_resource,
            path: scope_path(scope.id).push(("ScopeInherit"@, scope.id.id())).push(("Indep"@, scope.base_resource.id())),
            raw: json_bytes(scope_json(scope.title@, inherit_json(
                list_plain(scope.contents@, versions_of(new_c)),
                list_plain(scope.data@, versions_of(new_d)),
                list_plain(scope.hints@, versions_of(new_h))), scope.base_manifest)),
        }]),
    ensures
        sealed_as_planned(base, scope.id, new_c + new_d + new_h + last, scope_plan(scope, versions_of(new_c + new_d + new_h + last))),
{
    let out = new_c + new_d + new_h + last;
    let v = versions_of(out);
    lemma_list_planned_len(scope.contents@, path, versions_of(new_c));
    lemma_list_planned_len(scope.data@, path, versions_of(new_d));
    lemma_list_planned_len(scope.hints@, path, versions_of(new_h));
    let nc = list_count(scope.contents@) as int;
    let nd = list_count(scope.data@) as int;
    let nh = list_count(scope.hints@) as int;
    assert(out =~= new_c + (new_d + (new_h + last)));
    lemma_versions_concat(new_c, new_d + (new_h + last));
    lemma_versions_concat(new_d, new_h + last);
    lemma_versions_concat(new_h, last);
    assert(v.take(nc) =~= versions_of(new_c));
    assert(v.subrange(nc, nc + nd) =~= versions_of(new_d));
    assert(v.subrange(nc + nd, nc + nd + nh) =~= versions_of(new_h));
    let pc = list_planned(scope.contents@, path, versions_of(new_c));
    let pd = list_planned(scope.data@, path, versions_of(new_d));
    let ph = list_planned(scope.hints@, path, versions_of(new_h));
    lemma_planned_concat(base, scope.id, new_c, pc, new_d, pd);
    lemma_planned_concat(base, scope.id, new_c + new_d, pc + pd, new_h, ph);
    lemma_planned_concat(base, scope.id, new_c + new_d + new_h, pc + pd + ph, last, seq![PlannedEntry {
            id: scope.base_resource,
            path: scope_path(scope.id).push(("ScopeInherit"@, scope.id.id())).push(("Indep"@, scope.base_resource.id())),
            raw: json_bytes(scope_json(scope.title@, inherit_json(
                list_plain(scope.contents@, versions_of(new_c)),
                list_plain(scope.data@, versions_of(new_d)),
                list_plain(scope.hints@, versions_of(new_h))), scope.base_manifest)),
        }]);
}

fn push_list_ids<T: ResourceEncrypt>(out: &mut Vec<ResourceId>, rs: &Vec<T>)
    ensures
        final(out)@ == old(out)@ + list_ids(rs@),
{
    let mut i: usize = 0;
    while i < rs.len()
        invariant
            i <= rs@.len(),
            out@ == old(out)@ + list_ids(rs@.take(i as int)),
        decreases rs@.len() - i,
    {
        let ids = rs[i].claimed_ids();
        let mut j: usize = 0;
        let ghost before = out@;
        while j < ids.len()
            invariant
                j <= ids@.len(),
                out@ == before + ids@.take(j as int),
            decreases ids@.len() - j,
        {
            out.push(ids[j]);
            j = j + 1;
            proof {
                assert(ids@.take(j as int) =~= ids@.take(j - 1).push(ids@[j - 1]));
            }
        }
        proof {
            assert(ids@.take(j as int) =~= ids@);
            assert(rs@.take(i + 1).drop_last() =~= rs@.take(i as int));
            assert(rs@.take(i + 1).last() == rs@[i as int]);
        }
        i = i + 1;
    }
    proof {
        assert(rs@.take(rs@.len() as int) =~= rs@);
    }
}

fn set_has(set: &HashSet<i32>, x: i32) -> (found: bool)
    ensures
        found == set@.contains(x),
{
    broadcast use vstd::std_specs::hash::group_hash_axioms;
    set.contains(&x)
}

impl PuzzleScope {
    /// The ids building this scope claims, in the order it claims them.
    pub fn claimed_ids(&self) -> (ids: Vec<ResourceId>)
        ensures
            ids@ == scope_ids(*self),
    {
        let mut ids: Vec<ResourceId> = Vec::new();
        push_list_ids(&mut ids, &self.contents);
        push_list_ids(&mut ids, &self.data);
        push_list_ids(&mut ids, &self.hints);
        ids.push(self.base_resource);
        ids
    }

    /// The first id building this scope would claim twice (counting ids
    /// already in `seen`), or `None` when every id is fresh, which is what
    /// `build` needs.
    pub fn first_duplicate_id(&self, seen: &HashSet<i32>) -> (dup: Option<ResourceId>)
        ensures
            dup is None <==> ids_fresh(scope_ids(*self), seen@),
            dup matches Some(d) ==> exists|i: int| 0 <= i < scope_ids(*self).len() && #[trigger] scope_ids(*self)[i] == d
                && (seen@.contains(d.id()) || exists|j: int| 0 <= j < i && scope_ids(*self)[j].id() == d.id()),
    {
        let ids = self.claimed_ids();
        let mut i: usize = 0;
        while i < ids.len()
            invariant
                ids@ == scope_ids(*self),
                i <= ids@.len(),
                ids_fresh(ids@.take(i as int), seen@),
            decreases ids@.len() - i,
        {
            let d = ids[i];
            if set_has(seen, d.get()) {
                proof {
                    assert(ids@[i as int] == d);
                }
                return Some(d);
            }
            let mut j: usize = 0;
            while j < i
                invariant
                    ids@ == scope_ids(*self),
                    j <= i < ids@.len(),
                    d == ids@[i as int],
                    forall|k: int| 0 <= k < j ==> ids@[k].id() != d.id(),
                decreases i - j,
            {
                if ids[j].get() == d.get() {
                    return Some(d);
                }
                j = j + 1;
            }
            proof {
                let t = ids@.take(i + 1);
                assert forall|a: int| 0 <= a < t.len() implies !seen@.contains(#[trigger] t[a].id()) by {
                    if a < i {
                        assert(t[a] == ids@.take(i as int)[a]);
                    }
                }
                assert forall|a: int, b: int| 0 <= a < b < t.len() implies t[a].id() != t[b].id() by {
                    if b < i {
                        assert(t[a] == ids@.take(i as int)[a]);
                        assert(t[b] == ids@.take(i as int)[b]);
                    }
                }
            }
            i = i + 1;
        }
        proof {
            assert(ids@.take(i as int) =~= ids@);
        }
        None
    }

    /// Builds every resource of the scope below keys derived from `base_key`:
    /// contents, data and hints in declaration order, then the scope's own base
    /// resource, which carries the title, every inherited entry and the base
    /// manifest. Returns one registration and blob per sealed resource; every
    /// id is claimed in `seen`.
    pub fn build<R: VersionRegistry>(self, base_key: [u8; 32], registry: &mut R, seen: &mut HashSet<i32>)
        -> (res: Result<Vec<(ResourceRegistration, Encrypted)>, BuildError>)
        requires
            ids_fresh(scope_ids(self), old(seen)@),
        ensures
            res matches Ok(out) ==> sealed_as_planned(base_key@, self.id, out@, scope_plan(self, versions_of(out@)))
                && final(seen)@ == old(seen)@.union(id_set(scope_ids(self)))
                && answered_all(*old(registry), *final(registry), scope_calls(self, out@))
                && all_ok(scope_calls(self, out@)),
            res matches Err(e) ==> failed_with(*old(registry), *final(registry), e, self.id),
            res matches Err(BuildError::TooLarge(id)) ==> scope_ids(self).contains(id),
    {
        let ghost this = self;
        let ghost reg0 = *registry;
        proof {
            lemma_answered_none(reg0);
        }
        let ghost seen0 = seen@;
        let PuzzleScope { id, base_resource, title, contents, data, hints, base_manifest } = self;
        let scope_ctx = EncryptContext::base(base_key, id).derive_ctx("Scope", id.get());
        let ctx = scope_ctx.derive_ctx("ScopeDerive", id.get());
        let ghost path = ctx.root().path();
        let mut inherit: Vec<(&'static str, ResourceId, JsonValue)> = Vec::new();
        let mut built: Vec<(ResourceRegistration, Encrypted)> = Vec::new();
        let ghost lc = list_ids(this.contents@);
        let ghost ld = list_ids(this.data@);
        let ghost lh = list_ids(this.hints@);
        proof {
            assert(scope_ids(this) =~= lc + (ld + (lh + seq![base_resource])));
            lemma_ids_fresh_split(lc, ld + (lh + seq![base_resource]), seen0);
            lemma_ids_fresh_split(ld, lh + seq![base_resource], seen0.union(id_set(lc)));
            lemma_ids_fresh_split(lh, seq![base_resource], seen0.union(id_set(lc)).union(id_set(ld)));
        }
        match self::build("contents", contents, &ctx, registry, &mut inherit, &mut built, seen) {
            Ok(()) => {},
            Err(e) => {
                proof {
                    assert(all_ok(Seq::<RegistryCall>::empty()));
                    lemma_failed_after(reg0, reg0, *registry, Seq::<RegistryCall>::empty(), e, id);
                    if e is TooLarge {
                        let tid = e->TooLarge_0;
                        let k = choose|k: int| 0 <= k < lc.len() && lc[k] == tid;
                        assert(scope_ids(this)[k] == tid);
                    }
                }
                return Err(e);
            },
        }
        let ghost out_c = built@;
        let ghost reg_c = *registry;
        proof {
            assert(out_c.skip(0) =~= out_c);
        }
        let ghost inh_c = inherit_view(inherit@);
        let n1 = inherit.len();
        match self::build("data", data, &ctx, registry, &mut inherit, &mut built, seen) {
            Ok(()) => {},
            Err(e) => {
                proof {
                    lemma_failed_after(reg0, reg_c, *registry, list_calls(this.contents@, out_c), e, id);
                    if e is TooLarge {
                        let tid = e->TooLarge_0;
                        let k = choose|k: int| 0 <= k < ld.len() && ld[k] == tid;
                        assert(scope_ids(this)[lc.len() as int + k] == tid);
                    }
                }
                return Err(e);
            },
        }
        let ghost out_cd = built@;
        let ghost reg_d = *registry;
        proof {
            lemma_answered_concat(reg0, reg_c, reg_d, list_calls(this.contents@, out_c),
                list_calls(this.data@, out_cd.skip(out_c.len() as int)));
            lemma_all_ok_concat(list_calls(this.contents@, out_c), list_calls(this.data@, out_cd.skip(out_c.len() as int)));
        }
        let ghost calls_cd = list_calls(this.contents@, out_c) + list_calls(this.data@, out_cd.skip(out_c.len() as int));
        let ghost inh_cd = inherit_view(inherit@);
        let n2 = inherit.len();
        match self::build("hints", hints, &ctx, registry, &mut inherit, &mut built, seen) {
            Ok(()) => {},
            Err(e) => {
                proof {
                    lemma_failed_after(reg0, reg_d, *registry, calls_cd, e, id);
                    if e is TooLarge {
                        let tid = e->TooLarge_0;
                        let k = choose|k: int| 0 <= k < lh.len() && lh[k] == tid;
                        assert(scope_ids(this)[lc.len() + ld.len() as int + k] == tid);
                    }
                }
                return Err(e);
            },
        }
        let ghost out_cdh = built@;
        let ghost reg_h = *registry;
        let ghost calls_cdh = calls_cd + list_calls(this.hints@, out_cdh.skip(out_cd.len() as int));
        proof {
            lemma_answered_concat(reg0, reg_d, reg_h, calls_cd, list_calls(this.hints@, out_cdh.skip(out_cd.len() as int)));
            lemma_all_ok_concat(calls_cd, list_calls(this.hints@, out_cdh.skip(out_cd.len() as int)));
        }
        let ghost inh_all = inherit@;
        proof {
            let tc = tag_field("contents"@, list_plain(this.contents@, versions_of(out_c)));
            let td = tag_field("data"@, list_plain(this.data@, versions_of(out_cd.skip(out_c.len() as int))));
            let th = tag_field("hints"@, list_plain(this.hints@, versions_of(out_cdh.skip(out_cd.len() as int))));
            assert(inherit_view(inh_all) =~= tc + td + th);
            assert(inh_c =~= tc);
            assert(inh_cd =~= tc + td);
            lemma_split_inherit(inh_all, n1 as int, n2 as int, tc, td, th);
            lemma_untag_tag("contents"@, list_plain(this.contents@, versions_of(out_c)));
            lemma_untag_tag("data"@, list_plain(this.data@, versions_of(out_cd.skip(out_c.len() as int))));
            lemma_untag_tag("hints"@, list_plain(this.hints@, versions_of(out_cdh.skip(out_cd.len() as int))));
        }
        let inherit_value = inherit_object(inherit, n1, n2);
        let scope_value = scope_value(title, inherit_value, &base_manifest);
        let ghost scope_model = scope_value@;
        let scope_resource: JsonResource = Resource { grant: Grant::Independent(base_resource), inner: scope_value };
        let inherit_ctx = scope_ctx.derive_ctx("ScopeInherit", id.get());
        let b = match scope_resource.build(&inherit_ctx, registry) {
            Ok(b) => b,
            Err(e) => {
                proof {
                    lemma_failed_after(reg0, reg_h, *registry, calls_cdh, e, id);
                    if e is TooLarge {
                        assert(scope_resource.claim_ids()[0] == base_resource);
                        assert(scope_ids(this)[(lc.len() + ld.len() + lh.len()) as int] == base_resource);
                    }
                }
                return Err(e);
            },
        };
        proof {
            lemma_answered_concat(reg0, reg_h, *registry, calls_cdh, calls_of(flat_sealed(b)));
            lemma_all_ok_concat(calls_cdh, calls_of(flat_sealed(b)));
        }
        let ghost flat = flat_sealed(b);
        proof {
            assert(flat.len() == 1);
            assert(b.children@.len() == 0);
            assert(flat =~= own_sealed(b.artifact) + crate::resource::flat_sealed_list(b.children@));
        }
        match b.artifact {
            BuiltArtifact::Encrypted { reg, enc } => {
                proof {
                    assert(flat[0] == (reg, enc));
                    assert(!seen@.contains(base_resource.id())) by {
                        assert(seq![base_resource][0] == base_resource);
                    }
                }
                claim_id(base_resource, seen);
                built.push((reg, enc));
            },
            BuiltArtifact::PlainText { .. } => {
                proof {
                    assert(false);
                }
            },
        }
        proof {
            let new_c = out_c;
            let new_d = out_cd.skip(out_c.len() as int);
            let new_h = out_cdh.skip(out_cd.len() as int);
            assert(built@ =~= new_c + new_d + new_h + flat);
            let pc = list_plain(this.contents@, versions_of(new_c));
            let pd = list_plain(this.data@, versions_of(new_d));
            let ph = list_plain(this.hints@, versions_of(new_h));
            assert(scope_model == scope_json(this.title@, inherit_json(pc, pd, ph), this.base_manifest));
            assert(crate::resource::grant_entry(Grant::Independent(base_resource), inherit_ctx.root().path(), json_bytes(scope_model))
                =~= seq![PlannedEntry {
                    id: base_resource,
                    path: scope_path(id).push(("ScopeInherit"@, id.id())).push(("Indep"@, base_resource.id())),
                    raw: json_bytes(scope_model),
                }]);
            lemma_scope_plan(this, base_key@, path, new_c, new_d, new_h, flat);
            lemma_id_set_concat(lc, ld);
            lemma_id_set_concat(lc + ld, lh);
            lemma_id_set_concat(lc + ld + lh, seq![base_resource]);
            assert(id_set(seq![base_resource]) =~= Set::empty().insert(base_resource.id())) by {
                assert(seq![base_resource][0] == base_resource);
            }
            assert(scope_ids(this) =~= lc + ld + lh + seq![base_resource]);
            lemma_list_planned_len(this.contents@, path, versions_of(new_c));
            lemma_list_planned_len(this.data@, path, versions_of(new_d));
            lemma_list_planned_len(this.hints@, path, versions_of(new_h));
            let nc = list_count(this.contents@) as int;
            let nd = list_count(this.data@) as int;
            let nh = list_count(this.hints@) as int;
            assert(built@.take(nc) =~= new_c);
            assert(built@.subrange(nc, nc + nd) =~= new_d);
            assert(built@.subrange(nc + nd, nc + nd + nh) =~= new_h);
            assert(built@.skip(nc + nd + nh) =~= flat);
            assert(scope_calls(this, built@) =~= calls_cdh + calls_of(flat));
        }
        Ok(built)
    }
}

// ---------------------------------------------------------------------------
// Config files.

/// The `[base_manifest]` table: `[name, id]` pairs per field.
#[derive(Debug, Default)]
pub struct BaseManifestConfig {
    pub content: Vec<(String, i32)>,
    pub data: Vec<(String, i32)>,
    pub hint: Vec<(String, i32)>,
}

/// A `[[contents]]` entry (also a hint's answer).
#[derive(Debug)]
pub struct ContentEntryConfig {
    pub grant: GrantConfig,
    pub content: Option<String>,
    pub content_file: Option<LoadedFile>,
}

/// A `[[data]]` entry: an inline TOML value, or the text of its JSON file.
#[derive(Debug)]
pub struct JsonEntryConfig {
    pub grant: GrantConfig,
    pub json: Option<TomlValue>,
    pub json_file: Option<String>,
}

/// A `[[hints]]` entry.
#[derive(Debug)]
pub struct HintEntryConfig {
    pub grant: GrantConfig,
    pub title: String,
    pub answer: ContentEntryConfig,
}

/// A puzzle's `content.toml`, with its referenced files read.
#[derive(Debug)]
pub struct PuzzleScopeConfig {
    pub id: i32,
    pub base_resource: i32,
    pub title: String,
    pub contents: Vec<ContentEntryConfig>,
    pub data: Vec<JsonEntryConfig>,
    pub hints: Vec<HintEntryConfig>,
    pub base_manifest: BaseManifestConfig,
}

/// A problem that keeps a config from resolving.
#[derive(Debug)]
pub enum ConfigError {
    NonPositiveId(i32),
    ContentMissing,
    ContentConflict,
    UnsupportedExtension(Option<String>),
    JsonMissing,
    JsonConflict,
    InvalidJson,
}

pub open spec fn content_entry_ok(e: ContentEntryConfig) -> bool {
    grant_config_id(e.grant) > 0 && content_source_ok(e.content, e.content_file)
}

pub open spec fn json_entry_ok(e: JsonEntryConfig) -> bool {
    grant_config_id(e.grant) > 0 && json_source_ok(e.json, e.json_file) && json_file_ok(e.json_file)
}

pub open spec fn hint_entry_ok(e: HintEntryConfig) -> bool {
    grant_config_id(e.grant) > 0 && content_entry_ok(e.answer)
}

pub open spec fn named_ids_ok(entries: Seq<(String, i32)>) -> bool {
    forall|i: int| 0 <= i < entries.len() ==> #[trigger] entries[i].1 > 0
}

/// Every id is positive and every entry names exactly one source (a file of a
/// supported kind).
pub open spec fn config_ok(c: PuzzleScopeConfig) -> bool {
    &&& c.id > 0
    &&& c.base_resource > 0
    &&& forall|i: int| 0 <= i < c.contents@.len() ==> content_entry_ok(#[trigger] c.contents@[i])
    &&& forall|i: int| 0 <= i < c.data@.len() ==> json_entry_ok(#[trigger] c.data@[i])
    &&& forall|i: int| 0 <= i < c.hints@.len() ==> hint_entry_ok(#[trigger] c.hints@[i])
    &&& named_ids_ok(c.base_manifest.content@)
    &&& named_ids_ok(c.base_manifest.data@)
    &&& named_ids_ok(c.base_manifest.hint@)
}

pub open spec fn content_resolved(e: ContentEntryConfig, r: ContentResource) -> bool {
    grant_of(e.grant, r.grant) && r.inner@ == content_text(e.content, e.content_file)
}

pub open spec fn json_resolved(e: JsonEntryConfig, r: JsonResource) -> bool {
    grant_of(e.grant, r.grant) && r.inner@ == json_choice(e.json, e.json_file)
}

pub open spec fn hint_resolved(e: HintEntryConfig, r: HintResource) -> bool {
    &&& grant_of(e.grant, r.grant)
    &&& r.inner.title@ == e.title@
    &&& content_resolved(e.answer, r.inner.answer)
}

pub open spec fn named_resolved(c: Seq<(String, i32)>, r: Seq<(String, ResourceId)>) -> bool {
    &&& r.len() == c.len()
    &&& forall|i: int| 0 <= i < c.len() ==> (#[trigger] r[i]).0@ == c[i].0@ && r[i].1.id() == c[i].1
}

fn check_id(id: i32) -> (res: Result<(), ConfigError>)
    ensures
        res is Ok <==> id > 0,
{
    if id > 0 { Ok(()) } else { Err(ConfigError::NonPositiveId(id)) }
}

fn check_content(e: &ContentEntryConfig) -> (res: Result<(), ConfigError>)
    ensures
        res is Ok <==> content_entry_ok(*e),
{
    match check_id(grant_id_of(&e.grant)) {
        Ok(()) => {},
        Err(err) => return Err(err),
    }
    match (&e.content, &e.content_file) {
        (Some(_), None) => Ok(()),
        (None, Some(file)) => match content_kind_of(&file.extension) {
            Some(_) => Ok(()),
            None => Err(ConfigError::UnsupportedExtension(clone_opt_string(&file.extension))),
        },
        (None, None) => Err(ConfigError::ContentMissing),
        (Some(_), Some(_)) => Err(ConfigError::ContentConflict),
    }
}

fn clone_opt_string(s: &Option<String>) -> (c: Option<String>)
    ensures
        c == *s,
{
    match s {
        Some(t) => Some(t.clone()),
        None => None,
    }
}

fn grant_id_of(g: &GrantConfig) -> (id: i32)
    ensures
        id == grant_config_id(*g),
{
    match g {
        GrantConfig::Inherit(id) => *id,
        GrantConfig::Independent(id) => *id,
        GrantConfig::Purchase(id) => *id,
    }
}

fn check_named(entries: &Vec<(String, i32)>) -> (res: Result<(), ConfigError>)
    ensures
        res is Ok <==> named_ids_ok(entries@),
{
    let mut i: usize = 0;
    while i < entries.len()
        invariant
            i <= entries@.len(),
            forall|k: int| 0 <= k < i ==> #[trigger] entries@[k].1 > 0,
        decreases entries@.len() - i,
    {
        if entries[i].1 <= 0 {
            return Err(ConfigError::NonPositiveId(entries[i].1));
        }
        i = i + 1;
    }
    Ok(())
}

fn resolve_named_ids(entries: &Vec<(String, i32)>) -> (ids: Vec<(String, ResourceId)>)
    requires
        named_ids_ok(entries@),
    ensures
        named_resolved(entries@, ids@),
{
    let mut ids: Vec<(String, ResourceId)> = Vec::new();
    let mut i: usize = 0;
    while i < entries.len()
        invariant
            i <= entries@.len(),
            named_ids_ok(entries@),
            ids@.len() == i,
            forall|k: int| 0 <= k < i ==> (#[trigger] ids@[k]).0@ == entries@[k].0@ && ids@[k].1.id() == entries@[k].1,
        decreases entries@.len() - i,
    {
        let name = entries[i].0.clone();
        let id = to_resource_id(entries[i].1);
        ids.push((name, id));
        i = i + 1;
    }
    ids
}

impl BaseManifestConfig {
    fn resolve(&self) -> (m: BaseManifest)
        requires
            named_ids_ok(self.content@),
            named_ids_ok(self.data@),
            named_ids_ok(self.hint@),
        ensures
            named_resolved(self.content@, m.content@),
            named_resolved(self.data@, m.data@),
            named_resolved(self.hint@, m.hint@),
    {
        BaseManifest {
            content: resolve_named_ids(&self.content),
            data: resolve_named_ids(&self.data),
            hint: resolve_named_ids(&self.hint),
        }
    }
}

impl ContentEntryConfig {
    fn resolve(&self) -> (r: ContentResource)
        requires
            content_entry_ok(*self),
        ensures
            content_resolved(*self, r),
    {
        Resource { grant: self.grant.resolve(), inner: resolve_content(&self.content, &self.content_file) }
    }
}

impl JsonEntryConfig {
    fn resolve(&self) -> (r: JsonResource)
        requires
            json_entry_ok(*self),
        ensures
            json_resolved(*self, r),
    {
        Resource { grant: self.grant.resolve(), inner: resolve_json(&self.json, &self.json_file) }
    }
}

impl HintEntryConfig {
    fn resolve(&self) -> (r: HintResource)
        requires
            hint_entry_ok(*self),
        ensures
            hint_resolved(*self, r),
    {
        Resource {
            grant: self.grant.resolve(),
            inner: crate::resource::Hint { title: self.title.clone(), answer: self.answer.resolve() },
        }
    }
}

impl PuzzleScopeConfig {
    /// `Ok` exactly when the config resolves: every id positive, every entry
    /// with exactly one source, every file of a supported kind. Checks in the
    /// order resolving visits the config and reports the first problem.
    pub fn check(&self) -> (res: Result<(), ConfigError>)
        ensures
            res is Ok <==> config_ok(*self),
    {
        match check_id(self.id) {
            Ok(()) => {},
            Err(e) => return Err(e),
        }
        match check_id(self.base_resource) {
            Ok(()) => {},
            Err(e) => return Err(e),
        }
        let mut i: usize = 0;
        while i < self.contents.len()
            invariant
                i <= self.contents@.len(),
                forall|k: int| 0 <= k < i ==> content_entry_ok(#[trigger] self.contents@[k]),
            decreases self.contents@.len() - i,
        {
            match check_content(&self.contents[i]) {
                Ok(()) => {},
                Err(e) => return Err(e),
            }
            i = i + 1;
        }
        let mut i: usize = 0;
        while i < self.data.len()
            invariant
                i <= self.data@.len(),
                forall|k: int| 0 <= k < i ==> json_entry_ok(#[trigger] self.data@[k]),
            decreases self.data@.len() - i,
        {
            let e = &self.data[i];
            match check_id(grant_id_of(&e.grant)) {
                Ok(()) => {},
                Err(err) => return Err(err),
            }
            match (&e.json, &e.json_file) {
                (None, None) => return Err(ConfigError::JsonMissing),
                (Some(_), Some(_)) => return Err(ConfigError::JsonConflict),
                (None, Some(text)) => if !json_file_parses(text) {
                    return Err(ConfigError::InvalidJson);
                },
                _ => {},
            }
            i = i + 1;
        }
        let mut i: usize = 0;
        while i < self.hints.len()
            invariant
                i <= self.hints@.len(),
                forall|k: int| 0 <= k < i ==> hint_entry_ok(#[trigger] self.hints@[k]),
            decreases self.hints@.len() - i,
        {
            let e = &self.hints[i];
            match check_id(grant_id_of(&e.grant)) {
                Ok(()) => {},
                Err(err) => return Err(err),
            }
            match check_content(&e.answer) {
                Ok(()) => {},
                Err(err) => return Err(err),
            }
            i = i + 1;
        }
        match check_named(&self.base_manifest.content) {
            Ok(()) => {},
            Err(e) => return Err(e),
        }
        match check_named(&self.base_manifest.data) {
            Ok(()) => {},
            Err(e) => return Err(e),
        }
        check_named(&self.base_manifest.hint)
    }

    /// Resolves every entry: ids to resource ids, grants to grants, content
    /// entries to their text (Markdown rendered), json entries to their value.
    pub fn resolve(&self) -> (scope: PuzzleScope)
        requires
            config_ok(*self),
        ensures
            scope.id.id() == self.id,
            scope.base_resource.id() == self.base_resource,
            scope.title@ == self.title@,
            scope.contents@.len() == self.contents@.len(),
            forall|i: int| 0 <= i < self.contents@.len() ==> content_resolved(self.contents@[i], #[trigger] scope.contents@[i]),
            scope.data@.len() == self.data@.len(),
            forall|i: int| 0 <= i < self.data@.len() ==> json_resolved(self.data@[i], #[trigger] scope.data@[i]),
            scope.hints@.len() == self.hints@.len(),
            forall|i: int| 0 <= i < self.hints@.len() ==> hint_resolved(self.hints@[i], #[trigger] scope.hints@[i]),
            named_resolved(self.base_manifest.content@, scope.base_manifest.content@),
            named_resolved(self.base_manifest.data@, scope.base_manifest.data@),
            named_resolved(self.base_manifest.hint@, scope.base_manifest.hint@),
    {
        let mut contents: Vec<ContentResource> = Vec::new();
        let mut i: usize = 0;
        while i < self.contents.len()
            invariant
                config_ok(*self),
                i <= self.contents@.len(),
                contents@.len() == i,
                forall|k: int| 0 <= k < i ==> content_resolved(self.contents@[k], #[trigger] contents@[k]),
            decreases self.contents@.len() - i,
        {
            contents.push(self.contents[i].resolve());
            i = i + 1;
        }
        let mut data: Vec<JsonResource> = Vec::new();
        let mut i: usize = 0;
        while i < self.data.len()
            invariant
                config_ok(*self),
                i <= self.data@.len(),
                data@.len() == i,
                forall|k: int| 0 <= k < i ==> json_resolved(self.data@[k], #[trigger] data@[k]),
            decreases self.data@.len() - i,
        {
            data.push(self.data[i].resolve());
            i = i + 1;
        }
        let mut hints: Vec<HintResource> = Vec::new();
        let mut i: usize = 0;
        while i < self.hints.len()
            invariant
                config_ok(*self),
                i <= self.hints@.len(),
                hints@.len() == i,
                forall|k: int| 0 <= k < i ==> hint_resolved(self.hints@[k], #[trigger] hints@[k]),
            decreases self.hints@.len() - i,
        {
            hints.push(self.hints[i].resolve());
            i = i + 1;
        }
        PuzzleScope {
            id: to_resource_id(self.id),
            base_resource: to_resource_id(self.base_resource),
            title: self.title.clone(),
            contents,
            data,
            hints,
            base_manifest: self.base_manifest.resolve(),
        }
    }
    /// Checks the config and resolves it: the first problem `check` finds,
    /// or the resolved scope.
    pub fn into_scope(&self) -> (res: Result<PuzzleScope, ConfigError>)
        ensures
            res is Ok <==> config_ok(*self),
            res matches Ok(scope) ==> {
                &&& scope.id.id() == self.id
                &&& scope.base_resource.id() == self.base_resource
                &&& scope.title@ == self.title@
                &&& scope.contents@.len() == self.contents@.len()
                &&& forall|i: int| 0 <= i < self.contents@.len() ==> content_resolved(self.contents@[i], #[trigger] scope.contents@[i])
                &&& scope.data@.len() == self.data@.len()
                &&& forall|i: int| 0 <= i < self.data@.len() ==> json_resolved(self.data@[i], #[trigger] scope.data@[i])
                &&& scope.hints@.len() == self.hints@.len()
                &&& forall|i: int| 0 <= i < self.hints@.len() ==> hint_resolved(self.hints@[i], #[trigger] scope.hints@[i])
                &&& named_resolved(self.base_manifest.content@, scope.base_manifest.content@)
                &&& named_resolved(self.base_manifest.data@, scope.base_manifest.data@)
                &&& named_resolved(self.base_manifest.hint@, scope.base_manifest.hint@)
            },
    {
        match self.check() {
            Ok(()) => Ok(self.resolve()),
            Err(e) => Err(e),
        }
    }
}

} // verus!
