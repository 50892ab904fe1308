//! Resources, their grants, and the key hierarchy they are encrypted under.

use vstd::prelude::*;
use crate::crypto::{derive_key, derive_key_spec, derive_url, derive_url_spec, encrypt, is_base32_char, is_blob_of, MAX_PLAINTEXT_LEN};
use crate::content_gzip::{blake3_hash, gunzip_bytes, gzip_bytes, PrepareToEncrypt};
use crate::json::{json_bytes, json_to_bytes, JsonSpec, JsonValue};
use crate::resource_id::ResourceId;
use crate::text::push_bytes;
use crate::version_registry::{answered_all, lemma_answered_concat, lemma_answered_none, lemma_answered_one, registered_call, RegistryCall, ResourceRegistration, VersionRegistry, VersionRegistryError};

verus! {

/// The `(tag, id)` steps of a derivation path, with each tag as its characters.
pub open spec fn path_view(path: Seq<(&'static str, i32)>) -> Seq<(Seq<char>, i32)> {
    Seq::new(path.len(), |i: int| (path[i].0@, path[i].1))
}

/// The key reached from `base` by deriving along `path`, one `(tag, id)` step at a time.
pub open spec fn chain_key(base: Seq<u8>, path: Seq<(Seq<char>, i32)>) -> Seq<u8>
    decreases path.len(),
{
    if path.len() == 0 {
        base
    } else {
        derive_key_spec(chain_key(base, path.drop_last()), path.last().0, path.last().1 as int)
    }
}

/// A key in the derivation hierarchy, together with the path that produced it.
pub struct DerivedKey {
    path: Vec<(&'static str, i32)>,
    key: [u8; 32],
    base: Ghost<Seq<u8>>,
}

impl DerivedKey {
    #[verifier::type_invariant]
    spec fn derived_along_path(self) -> bool {
        self.key@ == chain_key(self.base@, path_view(self.path@))
    }

    /// The root key this key descends from.
    pub closed spec fn base(self) -> Seq<u8> {
        self.base@
    }

    /// The `(tag, id)` steps from the root to this key.
    pub closed spec fn path(self) -> Seq<(Seq<char>, i32)> {
        path_view(self.path@)
    }

    /// The key itself: the root derived along the path.
    pub open spec fn key(self) -> Seq<u8> {
        chain_key(self.base(), self.path())
    }

    /// The root of a hierarchy: `key` itself, with an empty path.
    pub fn as_base(key: [u8; 32]) -> (k: DerivedKey)
        ensures
            k.base() == key@,
            k.path() == Seq::<(Seq<char>, i32)>::empty(),
    {
        let k = DerivedKey { path: Vec::new(), key, base: Ghost(key@) };
        proof {
            assert(path_view(k.path@) =~= Seq::<(Seq<char>, i32)>::empty());
        }
        k
    }

    /// The child key for `(tag, id)`.
    pub fn derive(&self, tag: &'static str, id: i32) -> (k: DerivedKey)
        ensures
            k.base() == self.base(),
            k.path() == self.path().push((tag@, id)),
    {
        proof {
            use_type_invariant(self);
        }
        let key = derive_key(&self.key, tag, id);
        let mut path = clone_path(&self.path);
        path.push((tag, id));
        proof {
            assert(path_view(path@) =~= path_view(self.path@).push((tag@, id)));
            assert(path_view(path@).drop_last() =~= path_view(self.path@));
            assert(key@ == chain_key(self.base@, path_view(path@)));
        }
        DerivedKey { path, key, base: Ghost(self.base@) }
    }

    /// Seals `plaintext` under this key; returns the blob and the path that
    /// re-derives the key from the root.
    pub fn encrypt(&self, plaintext: &[u8]) -> (sealed: (Vec<u8>, Vec<(&'static str, i32)>))
        requires
            plaintext@.len() <= MAX_PLAINTEXT_LEN,
        ensures
            is_blob_of(self.key(), plaintext@, sealed.0@),
            path_view(sealed.1@) == self.path(),
    {
        proof {
            use_type_invariant(self);
        }
        (encrypt(&self.key, plaintext), clone_path(&self.path))
    }

    /// The object-path prefix of `resource_id` under this key.
    pub fn url_prefix(&self, resource_id: i32) -> (url: String)
        ensures
            url@ == derive_url_spec(self.key(), resource_id as int),
            url@.len() == 26,
            forall|i: int| 0 <= i < url@.len() ==> is_base32_char(#[trigger] url@[i]),
    {
        proof {
            use_type_invariant(self);
        }
        derive_url(&self.key, resource_id)
    }
}

fn clone_path(path: &Vec<(&'static str, i32)>) -> (out: Vec<(&'static str, i32)>)
    ensures
        out@ == path@,
{
    let mut out: Vec<(&'static str, i32)> = Vec::new();
    let mut i: usize = 0;
    while i < path.len()
        invariant
            i <= path@.len(),
            out@ == path@.take(i as int),
        decreases path@.len() - i,
    {
        let (tag, id) = path[i];
        out.push((tag, id));
        i = i + 1;
        proof {
            assert(path@.take(i as int) =~= path@.take(i - 1).push(path@[i - 1]));
        }
    }
    proof {
        assert(path@.take(path@.len() as int) =~= path@);
    }
    out
}

/// The key hierarchy position that resources of one scope are built under.
pub struct EncryptContext {
    derive_root: DerivedKey,
    pub scope_id: ResourceId,
}

impl EncryptContext {
    /// The scope the context builds resources of: its `scope_id` field.
    pub closed spec fn scope(self) -> ResourceId {
        self.scope_id
    }

    /// The root key of the context.
    pub closed spec fn root(self) -> DerivedKey {
        self.derive_root
    }

    /// A context rooted directly at `base`.
    pub fn base(base: [u8; 32], scope_id: ResourceId) -> (ctx: EncryptContext)
        ensures
            ctx.root().base() == base@,
            ctx.root().path() == Seq::<(Seq<char>, i32)>::empty(),
            ctx.scope() == scope_id,
    {
        EncryptContext { derive_root: DerivedKey::as_base(base), scope_id }
    }

    /// The key for `(tag, resource_id)` below this context's root.
    pub fn derive(&self, tag: &'static str, resource_id: i32) -> (k: DerivedKey)
        ensures
            k.base() == self.root().base(),
            k.path() == self.root().path().push((tag@, resource_id)),
    {
        self.derive_root.derive(tag, resource_id)
    }

    /// A context of the same scope rooted at the key for `(tag, resource_id)`.
    pub fn derive_ctx(&self, tag: &'static str, resource_id: i32) -> (ctx: EncryptContext)
        ensures
            ctx.root().base() == self.root().base(),
            ctx.root().path() == self.root().path().push((tag@, resource_id)),
            ctx.scope() == self.scope(),
    {
        let new_root = self.derive(tag, resource_id);
        EncryptContext { derive_root: new_root, scope_id: self.scope_id }
    }
}

/// One independently encrypted resource, ready to upload.
pub struct Encrypted {
    /// The gzip'd content sealed in the blob layout.
    pub encrypted: Vec<u8>,
    /// The `(tag, id)` chain that re-derives the sealing key from the root key.
    pub derive_path: Vec<(&'static str, i32)>,
    /// The object-path prefix (without the `_<version>` suffix).
    pub url_prefix: String,
}

/// Who may see a resource, and whether it gets a key of its own: `Inherit`
/// folds it into its parent's payload; `Independent` and `Purchase` seal it
/// under its own key (the two tags keep their keys apart for the same id).
#[derive(Debug, Clone, Copy, PartialEq, Eq, Structural)]
pub enum Grant {
    Inherit(ResourceId),
    Independent(ResourceId),
    Purchase(ResourceId),
}

/// The resource a grant names.
pub open spec fn grant_id(grant: Grant) -> ResourceId {
    match grant {
        Grant::Inherit(x) => x,
        Grant::Independent(x) => x,
        Grant::Purchase(x) => x,
    }
}

/// The derivation tag of a grant's own key; `None` for `Inherit`, which has none.
pub open spec fn grant_tag(grant: Grant) -> Option<Seq<char>> {
    match grant {
        Grant::Inherit(_) => None,
        Grant::Independent(_) => Some("Indep"@),
        Grant::Purchase(_) => Some("Purchase"@),
    }
}

impl Grant {
    fn derive_key(&self, ctx: &EncryptContext) -> (key: Option<DerivedKey>)
        ensures
            match grant_tag(*self) {
                None => key is None,
                Some(tag) => key matches Some(k) && k.base() == ctx.root().base()
                    && k.path() == ctx.root().path().push((tag, grant_id(*self).id())),
            },
    {
        match self {
            Grant::Inherit(_) => None,
            Grant::Independent(x) => Some(ctx.derive("Indep", x.get())),
            Grant::Purchase(x) => Some(ctx.derive("Purchase", x.get())),
        }
    }

    /// The resource this grant names.
    pub fn get_resource_id(&self) -> (id: ResourceId)
        ensures
            id == grant_id(*self),
    {
        match self {
            Grant::Independent(x) => *x,
            Grant::Inherit(x) => *x,
            Grant::Purchase(x) => *x,
        }
    }
}

/// A hint: its title, and its answer, a resource of its own.
pub struct Hint {
    pub title: String,
    pub answer: ContentResource,
}

/// A piece of content with its grant.
pub struct Resource<T> {
    pub grant: Grant,
    pub inner: T,
}

pub type ContentResource = Resource<String>;
pub type JsonResource = Resource<JsonValue>;
pub type HintResource = Resource<Hint>;

/// Content that is sealed as bytes, or folded into a parent as JSON.
pub trait PlainResource: Sized {
    /// The bytes that are sealed.
    spec fn plain_bytes(&self) -> Seq<u8>;

    /// The JSON value folded into the parent.
    spec fn plain_json(&self) -> JsonSpec;

    fn as_bytes(&self) -> (bytes: Vec<u8>)
        ensures
            bytes@ == self.plain_bytes(),
    ;

    fn to_json(self) -> (json: JsonValue)
        ensures
            json@ == self.plain_json(),
    ;
}

impl PlainResource for String {
    /// Text is sealed as its UTF-8 bytes.
    open spec fn plain_bytes(&self) -> Seq<u8> {
        vstd::utf8::encode_utf8(self@)
    }

    /// Text is folded in as a JSON string.
    open spec fn plain_json(&self) -> JsonSpec {
        JsonSpec::Str(self@)
    }

    fn as_bytes(&self) -> (bytes: Vec<u8>) {
        let mut bytes: Vec<u8> = Vec::new();
        push_bytes(&mut bytes, self.as_str().as_bytes());
        bytes
    }

    fn to_json(self) -> (json: JsonValue) {
        JsonValue::String(self)
    }
}

impl PlainResource for JsonValue {
    /// JSON is sealed as its compact text.
    open spec fn plain_bytes(&self) -> Seq<u8> {
        json_bytes(self@)
    }

    /// JSON is folded in as itself.
    open spec fn plain_json(&self) -> JsonSpec {
        self@
    }

    fn as_bytes(&self) -> (bytes: Vec<u8>) {
        json_to_bytes(self)
    }

    fn to_json(self) -> (json: JsonValue) {
        self
    }
}

/// A built resource: sealed with its registration, or left as plain JSON for
/// its parent to fold in.
pub enum BuiltArtifact {
    Encrypted { reg: ResourceRegistration, enc: Encrypted },
    PlainText { resource_id: ResourceId, scope_id: ResourceId, content: JsonValue },
}

/// The resource a built artifact belongs to.
pub open spec fn artifact_resource_id(a: BuiltArtifact) -> ResourceId {
    match a {
        BuiltArtifact::Encrypted { reg, enc: _ } => reg.resource_id_spec(),
        BuiltArtifact::PlainText { resource_id, scope_id: _, content: _ } => resource_id,
    }
}

/// The scope a built artifact belongs to.
pub open spec fn artifact_scope_id(a: BuiltArtifact) -> ResourceId {
    match a {
        BuiltArtifact::Encrypted { reg, enc: _ } => reg.scope_id_spec(),
        BuiltArtifact::PlainText { resource_id: _, scope_id, content: _ } => scope_id,
    }
}

impl BuiltArtifact {
    pub fn resource_id(&self) -> (id: ResourceId)
        ensures
            id == artifact_resource_id(*self),
    {
        match self {
            BuiltArtifact::Encrypted { reg, enc: _ } => *reg.resource_id(),
            BuiltArtifact::PlainText { resource_id, scope_id: _, content: _ } => *resource_id,
        }
    }

    pub fn scope_id(&self) -> (id: ResourceId)
        ensures
            id == artifact_scope_id(*self),
    {
        match self {
            BuiltArtifact::Encrypted { reg, enc: _ } => *reg.scope_id(),
            BuiltArtifact::PlainText { resource_id: _, scope_id, content: _ } => *scope_id,
        }
    }
}

/// A built resource and the built resources below it.
pub struct BuiltResource {
    pub artifact: BuiltArtifact,
    pub children: Vec<BuiltResource>,
}

impl BuiltResource {
    pub fn resource_id(&self) -> (id: ResourceId)
        ensures
            id == artifact_resource_id(self.artifact),
    {
        self.artifact.resource_id()
    }

    pub fn scope_id(&self) -> (id: ResourceId)
        ensures
            id == artifact_scope_id(self.artifact),
    {
        self.artifact.scope_id()
    }
}

/// Why building failed: the registry refused, or compressed content exceeds
/// what AES-GCM can seal.
#[derive(Debug)]
pub enum BuildError {
    Registry(VersionRegistryError),
    TooLarge(ResourceId),
}

/// What one independently sealed resource must be: its id, the derivation
/// path of its key, and its raw (uncompressed) content.
pub struct PlannedEntry {
    pub id: ResourceId,
    pub path: Seq<(Seq<char>, i32)>,
    pub raw: Seq<u8>,
}

/// `entry` is the resource `plan` sealed in scope `scope` under the root key `base`:
/// the digest is that of the raw content, the blob seals its gzip under the
/// key re-derived along the recorded path, and the object path is the one of
/// the resource under that key.
pub open spec fn entry_matches(base: Seq<u8>, scope: ResourceId, entry: (ResourceRegistration, Encrypted), plan: PlannedEntry) -> bool {
    let key = chain_key(base, plan.path);
    &&& entry.0.resource_id_spec() == plan.id
    &&& entry.0.scope_id_spec() == scope
    &&& entry.0.digest_spec() == blake3_hash(plan.raw)
    &&& path_view(entry.1.derive_path@) == plan.path
    &&& gzip_bytes(plan.raw).len() <= MAX_PLAINTEXT_LEN
    &&& is_blob_of(key, gzip_bytes(plan.raw), entry.1.encrypted@)
    &&& gunzip_bytes(gzip_bytes(plan.raw)) == Some(plan.raw)
    &&& entry.1.url_prefix@ == derive_url_spec(key, plan.id.id() as int)
}

/// A sealed resource round-trips: the key re-derived from the root along the
/// recorded path opens the blob to the compressed content (see `decrypt`),
/// that decompresses to the raw content, and the registered digest is the
/// raw content's.
pub proof fn lemma_sealed_entry_round_trip(base: Seq<u8>, scope: ResourceId, entry: (ResourceRegistration, Encrypted), plan: PlannedEntry)
    requires
        entry_matches(base, scope, entry, plan),
    ensures
        gzip_bytes(plan.raw).len() <= MAX_PLAINTEXT_LEN,
        is_blob_of(chain_key(base, path_view(entry.1.derive_path@)), gzip_bytes(plan.raw), entry.1.encrypted@),
        gunzip_bytes(gzip_bytes(plan.raw)) == Some(plan.raw),
        entry.0.digest_spec() == blake3_hash(plan.raw),
        entry.1.url_prefix@ == derive_url_spec(chain_key(base, path_view(entry.1.derive_path@)), entry.0.resource_id_spec().id() as int),
{
}

/// Every lookup of `calls` was answered with a registration.
pub open spec fn all_ok(calls: Seq<RegistryCall>) -> bool {
    forall|i: int| 0 <= i < calls.len() ==> (#[trigger] calls[i]).3 is Ok
}

/// Building failed with `e` in scope `scope`: the registry, going from
/// `before` to `after`, answered a run of lookups with registrations and then
/// a last one, made for `scope`, which decided the error. Either that lookup
/// itself failed with the registry's error, or it was answered for the
/// resource `id` of a `TooLarge(id)` whose content compresses beyond what
/// AES-GCM seals.
pub open spec fn failed_with<R: VersionRegistry>(before: R, after: R, e: BuildError, scope: ResourceId) -> bool {
    exists|calls: Seq<RegistryCall>, last: RegistryCall| #[trigger] answered_all(before, after, calls.push(last))
        && all_ok(calls) && last.1 == scope && match e {
            BuildError::Registry(err) => last.3 == Err::<ResourceRegistration, VersionRegistryError>(err),
            BuildError::TooLarge(id) => last.0 == id && last.3 is Ok && exists|raw: Seq<u8>|
                last.2 == #[trigger] blake3_hash(raw) && gzip_bytes(raw).len() > MAX_PLAINTEXT_LEN,
        }
}

/// A failure after lookups that were all answered with registrations is a
/// failure of the whole run.
pub proof fn lemma_failed_after<R: VersionRegistry>(r0: R, r1: R, r2: R, pre: Seq<RegistryCall>, e: BuildError, scope: ResourceId)
    requires
        answered_all(r0, r1, pre),
        all_ok(pre),
        failed_with(r1, r2, e, scope),
    ensures
        failed_with(r0, r2, e, scope),
{
    let (calls, last) = choose|calls: Seq<RegistryCall>, last: RegistryCall| #[trigger] answered_all(r1, r2, calls.push(last))
        && all_ok(calls) && last.1 == scope && match e {
            BuildError::Registry(err) => last.3 == Err::<ResourceRegistration, VersionRegistryError>(err),
            BuildError::TooLarge(id) => last.0 == id && last.3 is Ok && exists|raw: Seq<u8>|
                last.2 == #[trigger] blake3_hash(raw) && gzip_bytes(raw).len() > MAX_PLAINTEXT_LEN,
        };
    lemma_answered_concat(r0, r1, r2, pre, calls.push(last));
    assert(pre + calls.push(last) =~= (pre + calls).push(last));
    assert forall|i: int| 0 <= i < (pre + calls).len() implies (#[trigger] (pre + calls)[i]).3 is Ok by {
        if i < pre.len() {
            assert((pre + calls)[i] == pre[i]);
        } else {
            assert((pre + calls)[i] == calls[i - pre.len()]);
        }
    }
    assert(answered_all(r0, r2, (pre + calls).push(last)));
}

/// All lookups of `a + b` were answered with registrations when those of `a` and `b` were.
pub proof fn lemma_all_ok_concat(a: Seq<RegistryCall>, b: Seq<RegistryCall>)
    requires
        all_ok(a),
        all_ok(b),
    ensures
        all_ok(a + b),
{
    assert forall|i: int| 0 <= i < (a + b).len() implies (#[trigger] (a + b)[i]).3 is Ok by {
        if i < a.len() {
            assert((a + b)[i] == a[i]);
        } else {
            assert((a + b)[i] == b[i - a.len()]);
        }
    }
}

/// `entry` round-trips under the root key `base`: the key re-derived along
/// its recorded path opens its blob to the compressed content, which
/// decompresses to the raw content whose digest was registered, and its
/// object path is the one of its resource under that key.
pub open spec fn round_trips(base: Seq<u8>, entry: (ResourceRegistration, Encrypted), plan: PlannedEntry) -> bool {
    let key = chain_key(base, path_view(entry.1.derive_path@));
    &&& gzip_bytes(plan.raw).len() <= MAX_PLAINTEXT_LEN
    &&& is_blob_of(key, gzip_bytes(plan.raw), entry.1.encrypted@)
    &&& gunzip_bytes(gzip_bytes(plan.raw)) == Some(plan.raw)
    &&& entry.0.digest_spec() == blake3_hash(plan.raw)
    &&& entry.1.url_prefix@ == derive_url_spec(key, entry.0.resource_id_spec().id() as int)
}

/// Every sealed resource of a build round-trips.
pub proof fn lemma_sealed_all_round_trip(base: Seq<u8>, scope: ResourceId, sealed: Seq<(ResourceRegistration, Encrypted)>, plan: Seq<PlannedEntry>)
    requires
        sealed_as_planned(base, scope, sealed, plan),
    ensures
        forall|k: int| 0 <= k < sealed.len() ==> #[trigger] round_trips(base, sealed[k], plan[k]),
{
    assert forall|k: int| 0 <= k < sealed.len() implies #[trigger] round_trips(base, sealed[k], plan[k]) by {
        assert(entry_matches(base, scope, sealed[k], plan[k]));
        lemma_sealed_entry_round_trip(base, scope, sealed[k], plan[k]);
    }
}

/// Builds one resource's artifact: seals `raw` under the grant's own key, or,
/// for an `Inherit` grant, keeps `inherited` for the parent to fold in.
pub fn build_artifact<R: VersionRegistry>(
    grant: &Grant,
    ctx: &EncryptContext,
    registry: &mut R,
    raw: &[u8],
    inherited: JsonValue,
) -> (res: Result<BuiltArtifact, BuildError>)
    ensures
        grant_tag(*grant) is None ==> res == Ok::<BuiltArtifact, BuildError>(BuiltArtifact::PlainText {
            resource_id: grant_id(*grant),
            scope_id: ctx.scope(),
            content: inherited,
        }),
        grant_tag(*grant) matches Some(tag) ==> (res matches Ok(a) ==> a matches BuiltArtifact::Encrypted { reg, enc }
            && entry_matches(ctx.root().base(), ctx.scope(), (reg, enc), PlannedEntry {
                id: grant_id(*grant),
                path: ctx.root().path().push((tag, grant_id(*grant).id())),
                raw: raw@,
            })),
        res matches Err(BuildError::TooLarge(id)) ==> id == grant_id(*grant) && gzip_bytes(raw@).len() > MAX_PLAINTEXT_LEN,
        grant_tag(*grant) is Some && gzip_bytes(raw@).len() > MAX_PLAINTEXT_LEN ==> res is Err,
        grant_tag(*grant) is None ==> *final(registry) == *old(registry),
        res matches Ok(BuiltArtifact::Encrypted { reg, enc: _ }) ==> old(registry).answered(*final(registry), registered_call(reg)),
        res matches Err(BuildError::Registry(e)) ==> old(registry).answered(*final(registry),
            (grant_id(*grant), ctx.scope(), blake3_hash(raw@), Err::<ResourceRegistration, VersionRegistryError>(e))),
        res matches Err(BuildError::TooLarge(_)) ==> exists|r: ResourceRegistration|
            #[trigger] old(registry).answered(*final(registry), (grant_id(*grant), ctx.scope(), blake3_hash(raw@), Ok(r))),
        res matches Err(e) ==> failed_with(*old(registry), *final(registry), e, ctx.scope()),
{
    let ghost r0 = *registry;
    let resource_id = grant.get_resource_id();
    match grant.derive_key(ctx) {
        Some(key) => {
            let content = PrepareToEncrypt::new(resource_id, raw);
            let answer = registry.version_for(resource_id, ctx.scope_id, content.digest);
            let ghost answered = answer;
            let ghost last = (resource_id, ctx.scope_id, content.digest@, answered);
            proof {
                lemma_answered_one(r0, *registry, last);
                assert(Seq::<RegistryCall>::empty().push(last) =~= seq![last]);
                assert(all_ok(Seq::<RegistryCall>::empty()));
            }
            let reg = match answer {
                Ok(reg) => reg,
                Err(e) => {
                    proof {
                        assert(answered_all(r0, *registry, Seq::<RegistryCall>::empty().push(last)));
                    }
                    return Err(BuildError::Registry(e));
                },
            };
            proof {
                assert(registered_call(reg) == (resource_id, ctx.scope_id, content.digest@, answered));
            }
            if content.gz.len() as u64 > MAX_PLAINTEXT_LEN {
                proof {
                    assert(last.2 == blake3_hash(raw@));
                    assert(answered_all(r0, *registry, Seq::<RegistryCall>::empty().push(last)));
                }
                return Err(BuildError::TooLarge(resource_id));
            }
            let enc = content.encrypt(&key);
            Ok(BuiltArtifact::Encrypted { reg, enc })
        },
        None => Ok(BuiltArtifact::PlainText { resource_id, scope_id: ctx.scope_id, content: inherited }),
    }
}

/// The registration and blob of a built artifact, if it was sealed.
pub open spec fn own_sealed(a: BuiltArtifact) -> Seq<(ResourceRegistration, Encrypted)> {
    match a {
        BuiltArtifact::Encrypted { reg, enc } => seq![(reg, enc)],
        BuiltArtifact::PlainText { .. } => seq![],
    }
}

/// The id and JSON of a built artifact, if it is left for its parent.
pub open spec fn own_plain(a: BuiltArtifact) -> Seq<(ResourceId, JsonSpec)> {
    match a {
        BuiltArtifact::Encrypted { .. } => seq![],
        BuiltArtifact::PlainText { resource_id, scope_id: _, content } => seq![(resource_id, content@)],
    }
}

/// The sealed artifacts of a built resource, itself first, then its children in order.
pub open spec fn flat_sealed(b: BuiltResource) -> Seq<(ResourceRegistration, Encrypted)>
    decreases b,
{
    own_sealed(b.artifact) + flat_sealed_list(b.children@)
}

pub open spec fn flat_sealed_list(bs: Seq<BuiltResource>) -> Seq<(ResourceRegistration, Encrypted)>
    decreases bs,
{
    if bs.len() == 0 {
        seq![]
    } else {
        flat_sealed_list(bs.drop_last()) + flat_sealed(bs.last())
    }
}

/// The plain artifacts of a built resource, in the same order.
pub open spec fn flat_plain(b: BuiltResource) -> Seq<(ResourceId, JsonSpec)>
    decreases b,
{
    own_plain(b.artifact) + flat_plain_list(b.children@)
}

pub open spec fn flat_plain_list(bs: Seq<BuiltResource>) -> Seq<(ResourceId, JsonSpec)>
    decreases bs,
{
    if bs.len() == 0 {
        seq![]
    } else {
        flat_plain_list(bs.drop_last()) + flat_plain(bs.last())
    }
}

/// The versions the registry assigned to sealed entries, in order.
pub open spec fn versions_of(entries: Seq<(ResourceRegistration, Encrypted)>) -> Seq<i64> {
    Seq::new(entries.len(), |i: int| entries[i].0.version_spec())
}

/// Every sealed entry is the one planned at its position, the plain entries
/// are the planned ones, and the ids are the claimed ones.
pub open spec fn sealed_as_planned(base: Seq<u8>, scope: ResourceId, sealed: Seq<(ResourceRegistration, Encrypted)>, plan: Seq<PlannedEntry>) -> bool {
    &&& sealed.len() == plan.len()
    &&& forall|k: int| 0 <= k < sealed.len() ==> #[trigger] entry_matches(base, scope, sealed[k], plan[k])
}

/// The sealed entry a grant plans for `raw` below `path`: none for `Inherit`.
pub open spec fn grant_entry(grant: Grant, path: Seq<(Seq<char>, i32)>, raw: Seq<u8>) -> Seq<PlannedEntry> {
    match grant_tag(grant) {
        None => seq![],
        Some(tag) => seq![PlannedEntry { id: grant_id(grant), path: path.push((tag, grant_id(grant).id())), raw }],
    }
}

/// The plain entry a grant leaves for its parent: only for `Inherit`.
pub open spec fn grant_plain(grant: Grant, json: JsonSpec) -> Seq<(ResourceId, JsonSpec)> {
    match grant_tag(grant) {
        None => seq![(grant_id(grant), json)],
        Some(_) => seq![],
    }
}

/// The lookups that registered `sealed`, in the same order.
pub open spec fn calls_of(sealed: Seq<(ResourceRegistration, Encrypted)>) -> Seq<RegistryCall> {
    Seq::new(sealed.len(), |i: int| registered_call(sealed[i].0))
}

proof fn lemma_calls_of_ok(sealed: Seq<(ResourceRegistration, Encrypted)>)
    ensures
        all_ok(calls_of(sealed)),
{
    assert forall|i: int| 0 <= i < calls_of(sealed).len() implies (#[trigger] calls_of(sealed)[i]).3 is Ok by {
        assert(calls_of(sealed)[i] == registered_call(sealed[i].0));
    }
}

/// Building a resource: what it seals, what it leaves to its parent, and the
/// ids it claims, in the order they are collected.
pub trait ResourceEncrypt: Sized {
    /// The ids the resource claims, itself first, then a hint's answer
    /// (whatever its grant): every id of the manifest shares one namespace.
    spec fn claim_ids(&self) -> Seq<ResourceId>;

    /// How many entries are sealed.
    spec fn sealed_count(&self) -> nat;

    /// The sealed entries below the key path `path`, given the versions the
    /// registry assigns to them in order.
    spec fn planned(&self, path: Seq<(Seq<char>, i32)>, versions: Seq<i64>) -> Seq<PlannedEntry>;

    /// The entries left for the parent, given the versions of the sealed ones.
    spec fn plain(&self, versions: Seq<i64>) -> Seq<(ResourceId, JsonSpec)>;

    proof fn lemma_planned_len(&self, path: Seq<(Seq<char>, i32)>, versions: Seq<i64>)
        ensures
            self.planned(path, versions).len() == self.sealed_count(),
    ;

    /// The ids building will claim, in order.
    fn claimed_ids(&self) -> (ids: Vec<ResourceId>)
        ensures
            ids@ == self.claim_ids(),
    ;

    /// The lookups building makes, in the order it makes them, given the
    /// entries it sealed.
    spec fn registry_calls(&self, sealed: Seq<(ResourceRegistration, Encrypted)>) -> Seq<RegistryCall>;

    fn build<R: VersionRegistry>(self, ctx: &EncryptContext, registry: &mut R) -> (res: Result<BuiltResource, BuildError>)
        ensures
            res matches Ok(b) ==> answered_all(*old(registry), *final(registry), self.registry_calls(flat_sealed(b)))
                && all_ok(self.registry_calls(flat_sealed(b))),
            res matches Err(e) ==> failed_with(*old(registry), *final(registry), e, ctx.scope()),
            res matches Err(BuildError::TooLarge(id)) ==> self.claim_ids().contains(id),
            res matches Ok(b) ==> {
                &&& sealed_as_planned(ctx.root().base(), ctx.scope(), flat_sealed(b),
                    self.planned(ctx.root().path(), versions_of(flat_sealed(b))))
                &&& flat_plain(b) == self.plain(versions_of(flat_sealed(b)))
            },
            self.sealed_count() == 0 ==> res is Ok,
    ;
}

proof fn lemma_single(b: BuiltResource)
    requires
        b.children@.len() == 0,
    ensures
        flat_sealed(b) == own_sealed(b.artifact),
        flat_plain(b) == own_plain(b.artifact),
{
    assert(flat_sealed(b) =~= own_sealed(b.artifact));
    assert(flat_plain(b) =~= own_plain(b.artifact));
}

proof fn lemma_with_child(b: BuiltResource)
    requires
        b.children@.len() == 1,
    ensures
        flat_sealed(b) == own_sealed(b.artifact) + flat_sealed(b.children@[0]),
        flat_plain(b) == own_plain(b.artifact) + flat_plain(b.children@[0]),
{
    let c = b.children@;
    assert(c.drop_last() =~= Seq::<BuiltResource>::empty());
    assert(c.last() == c[0]);
    assert(flat_sealed_list(c.drop_last()) =~= Seq::<(ResourceRegistration, Encrypted)>::empty());
    assert(flat_plain_list(c.drop_last()) =~= Seq::<(ResourceId, JsonSpec)>::empty());
    assert(flat_sealed_list(c) =~= flat_sealed(c[0]));
    assert(flat_plain_list(c) =~= flat_plain(c[0]));
}

impl<T: PlainResource> ResourceEncrypt for Resource<T> {
    open spec fn claim_ids(&self) -> Seq<ResourceId> {
        seq![grant_id(self.grant)]
    }

    open spec fn sealed_count(&self) -> nat {
        grant_entry(self.grant, seq![], seq![]).len()
    }

    open spec fn planned(&self, path: Seq<(Seq<char>, i32)>, versions: Seq<i64>) -> Seq<PlannedEntry> {
        grant_entry(self.grant, path, self.inner.plain_bytes())
    }

    open spec fn plain(&self, versions: Seq<i64>) -> Seq<(ResourceId, JsonSpec)> {
        grant_plain(self.grant, self.inner.plain_json())
    }

    open spec fn registry_calls(&self, sealed: Seq<(ResourceRegistration, Encrypted)>) -> Seq<RegistryCall> {
        calls_of(sealed)
    }

    proof fn lemma_planned_len(&self, path: Seq<(Seq<char>, i32)>, versions: Seq<i64>) {
    }

    fn claimed_ids(&self) -> (ids: Vec<ResourceId>) {
        let mut ids: Vec<ResourceId> = Vec::new();
        ids.push(self.grant.get_resource_id());
        proof {
            assert(ids@ =~= self.claim_ids());
        }
        ids
    }

    /// Seals the content under the grant's key, or leaves its JSON for the parent.
    fn build<R: VersionRegistry>(self, ctx: &EncryptContext, registry: &mut R) -> (res: Result<BuiltResource, BuildError>)
        ensures
            res matches Ok(b) ==> b.children@.len() == 0,
    {
        let ghost r0 = *registry;
        let raw = self.inner.as_bytes();
        let ghost inner_json = self.inner.plain_json();
        let json = self.inner.to_json();
        let artifact = match build_artifact(&self.grant, ctx, registry, raw.as_slice(), json) {
            Ok(a) => a,
            Err(e) => {
                proof {
                    assert(self.claim_ids()[0] == grant_id(self.grant));
                }
                return Err(e);
            },
        };
        let b = BuiltResource { artifact, children: Vec::new() };
        proof {
            lemma_single(b);
            lemma_calls_of_ok(flat_sealed(b));
            if b.artifact is Encrypted {
                let reg = b.artifact->reg;
                lemma_answered_one(r0, *registry, registered_call(reg));
                assert(calls_of(flat_sealed(b)) =~= seq![registered_call(reg)]);
            } else {
                lemma_answered_none(r0);
                assert(calls_of(flat_sealed(b)) =~= Seq::<RegistryCall>::empty());
            }
            let plan = self.planned(ctx.root().path(), versions_of(flat_sealed(b)));
            if grant_tag(self.grant) is Some {
                assert(entry_matches(ctx.root().base(), ctx.scope(), flat_sealed(b)[0], plan[0]));
            }
            assert(flat_plain(b) =~= self.plain(versions_of(flat_sealed(b))));
        }
        Ok(b)
    }
}

/// The JSON that points at a sealed hint answer: its id and version.
pub open spec fn answer_ref(answer_id: ResourceId, version: i64) -> JsonSpec {
    JsonSpec::Object(seq![("resource_id"@, JsonSpec::Int(answer_id.id() as int)), ("version"@, JsonSpec::Int(version as int))])
}

/// The JSON of a hint's metadata: its answer (or a pointer to it) and its title.
pub open spec fn hint_meta(title: Seq<char>, answer: JsonSpec) -> JsonSpec {
    JsonSpec::Object(seq![("answer"@, answer), ("title"@, JsonSpec::Str(title))])
}

/// What a hint's metadata holds for its answer: the answer text itself when
/// it is inherited, else a pointer with the version the answer was given.
pub open spec fn hint_answer_json(hint: Resource<Hint>, versions: Seq<i64>) -> JsonSpec {
    let answer = hint.inner.answer;
    match grant_tag(answer.grant) {
        None => JsonSpec::Str(answer.inner@),
        Some(_) => answer_ref(grant_id(answer.grant), versions[if grant_tag(hint.grant) is None { 0int } else { 1int }]),
    }
}

/// What a hint's metadata holds, whatever the hint's own grant: an inherited
/// answer's text as a JSON string, or a sealed answer's id and the version it
/// was given (the version of the answer's entry among the sealed ones). The
/// metadata is sealed when the hint has a key of its own, else left for the
/// parent; a sealed answer is sealed after the hint's own entry.
pub proof fn lemma_hint_metadata(h: Resource<Hint>, path: Seq<(Seq<char>, i32)>, versions: Seq<i64>)
    ensures ({
        let answer = h.inner.answer;
        let hint_sealed = grant_tag(h.grant) is Some;
        let k: int = if hint_sealed { 1 } else { 0 };
        let answer_value = if grant_tag(answer.grant) is None {
            JsonSpec::Str(answer.inner@)
        } else {
            JsonSpec::Object(seq![("resource_id"@, JsonSpec::Int(grant_id(answer.grant).id() as int)),
                ("version"@, JsonSpec::Int(versions[k] as int))])
        };
        let meta = JsonSpec::Object(seq![("answer"@, answer_value), ("title"@, JsonSpec::Str(h.inner.title@))]);
        let planned = h.planned(path, versions);
        &&& hint_sealed ==> planned[0].id == grant_id(h.grant) && planned[0].raw == json_bytes(meta)
            && h.plain(versions) == Seq::<(ResourceId, JsonSpec)>::empty()
        &&& !hint_sealed ==> h.plain(versions) == seq![(grant_id(h.grant), meta)]
        &&& grant_tag(answer.grant) is Some ==> planned.len() == k + 1 && planned[k].id == grant_id(answer.grant)
            && planned[k].raw == answer.inner.plain_bytes()
        &&& grant_tag(answer.grant) is None ==> planned.len() == k
    }),
{
}

impl ResourceEncrypt for Resource<Hint> {
    open spec fn claim_ids(&self) -> Seq<ResourceId> {
        seq![grant_id(self.grant), grant_id(self.inner.answer.grant)]
    }

    open spec fn sealed_count(&self) -> nat {
        grant_entry(self.grant, seq![], seq![]).len() + grant_entry(self.inner.answer.grant, seq![], seq![]).len()
    }

    open spec fn planned(&self, path: Seq<(Seq<char>, i32)>, versions: Seq<i64>) -> Seq<PlannedEntry> {
        grant_entry(self.grant, path, json_bytes(hint_meta(self.inner.title@, hint_answer_json(*self, versions))))
            + grant_entry(self.inner.answer.grant, path, self.inner.answer.inner.plain_bytes())
    }

    open spec fn plain(&self, versions: Seq<i64>) -> Seq<(ResourceId, JsonSpec)> {
        grant_plain(self.grant, hint_meta(self.inner.title@, hint_answer_json(*self, versions)))
    }

    /// The answer is looked up before the metadata, which embeds its version.
    open spec fn registry_calls(&self, sealed: Seq<(ResourceRegistration, Encrypted)>) -> Seq<RegistryCall> {
        if sealed.len() == 2 {
            seq![registered_call(sealed[1].0), registered_call(sealed[0].0)]
        } else {
            calls_of(sealed)
        }
    }

    proof fn lemma_planned_len(&self, path: Seq<(Seq<char>, i32)>, versions: Seq<i64>) {
    }

    fn claimed_ids(&self) -> (ids: Vec<ResourceId>) {
        let mut ids: Vec<ResourceId> = Vec::new();
        ids.push(self.grant.get_resource_id());
        ids.push(self.inner.answer.grant.get_resource_id());
        proof {
            assert(ids@ =~= self.claim_ids());
        }
        ids
    }

    /// Builds the answer first; the metadata embeds the answer (if inherited)
    /// or its id and version (if sealed), and is then built itself.
    fn build<R: VersionRegistry>(self, ctx: &EncryptContext, registry: &mut R) -> (res: Result<BuiltResource, BuildError>)
        ensures
            res matches Ok(b) ==> {
                &&& artifact_resource_id(b.artifact) == grant_id(self.grant)
                &&& grant_tag(self.inner.answer.grant) is Some ==> b.children@.len() == 1
                    && artifact_resource_id(b.children@[0].artifact) == grant_id(self.inner.answer.grant)
                    && b.children@[0].children@.len() == 0
                &&& grant_tag(self.inner.answer.grant) is None ==> b.children@.len() == 0
            },
    {
        let ghost this = self;
        let Resource { grant, inner } = self;
        let Hint { title, answer } = inner;
        let ghost path = ctx.root().path();
        let ghost base = ctx.root().base();
        let ghost answer_plan = grant_entry(answer.grant, path, answer.inner.plain_bytes());
        let ghost r0 = *registry;
        let built_answer = match answer.build(ctx, registry) {
            Ok(b) => b,
            Err(e) => {
                proof {
                    assert(answer.claim_ids()[0] == this.claim_ids()[1]);
                }
                return Err(e);
            },
        };
        let ghost r1 = *registry;
        proof {
            lemma_single(built_answer);
            lemma_calls_of_ok(flat_sealed(built_answer));
            let ap = answer.planned(path, versions_of(flat_sealed(built_answer)));
            if grant_tag(answer.grant) is Some {
                assert(entry_matches(base, ctx.scope(), flat_sealed(built_answer)[0], ap[0]));
                assert(built_answer.artifact is Encrypted);
            } else {
                assert(flat_sealed(built_answer).len() == 0);
                assert(built_answer.artifact is PlainText);
                assert(flat_plain(built_answer)[0] == answer.plain(versions_of(flat_sealed(built_answer)))[0]);
            }
        }
        let ghost answer_flat = flat_sealed(built_answer);
        let ghost answer_artifact = built_answer.artifact;
        let ghost answer_plain = flat_plain(built_answer);
        let sealed_version: Option<(ResourceId, i64)> = match &built_answer.artifact {
            BuiltArtifact::Encrypted { reg, enc: _ } => Some((*reg.resource_id(), *reg.version())),
            BuiltArtifact::PlainText { .. } => None,
        };
        let mut children: Vec<BuiltResource> = Vec::new();
        let answer_json = match sealed_version {
            Some((aid, v)) => {
                children.push(built_answer);
                ref_json(aid, v)
            },
            None => match built_answer.artifact {
                BuiltArtifact::PlainText { resource_id: _, scope_id: _, content } => content,
                BuiltArtifact::Encrypted { .. } => JsonValue::Null,
            },
        };
        let ghost answer_model = answer_json@;
        let mut fields: Vec<(String, JsonValue)> = Vec::new();
        fields.push(("answer".to_owned(), answer_json));
        fields.push(("title".to_owned(), JsonValue::String(title)));
        proof {
            lemma_entry_models_two(fields@);
        }
        let meta = JsonValue::Object(fields);
        let ghost meta_model = meta@;
        let raw = json_to_bytes(&meta);
        let artifact = match build_artifact(&grant, ctx, registry, raw.as_slice(), meta) {
            Ok(a) => a,
            Err(e) => {
                proof {
                    lemma_failed_after(r0, r1, *registry, calls_of(answer_flat), e, ctx.scope());
                    assert(this.claim_ids()[0] == grant_id(grant));
                }
                return Err(e);
            },
        };
        let b = BuiltResource { artifact, children };
        proof {
            let own_calls = calls_of(own_sealed(b.artifact));
            if b.artifact is Encrypted {
                let reg = b.artifact->reg;
                lemma_answered_one(r1, *registry, registered_call(reg));
                assert(own_calls =~= seq![registered_call(reg)]);
            } else {
                lemma_answered_none(r1);
                assert(own_calls =~= Seq::<RegistryCall>::empty());
            }
            lemma_answered_concat(r0, r1, *registry, calls_of(answer_flat), own_calls);
            lemma_calls_of_ok(own_sealed(b.artifact));
            lemma_all_ok_concat(calls_of(answer_flat), own_calls);
            if grant_tag(grant) is Some {
                assert(entry_matches(base, ctx.scope(), own_sealed(b.artifact)[0], grant_entry(grant, path, raw@)[0]));
            }
        }
        proof {
            if children@.len() == 0 {
                lemma_single(b);
            } else {
                lemma_with_child(b);
            }
            let vers = versions_of(flat_sealed(b));
            let own = own_sealed(b.artifact);
            assert(flat_sealed(b) =~= own + answer_flat);
            assert(own.len() == grant_entry(grant, path, raw@).len());
            if grant_tag(this.inner.answer.grant) is Some {
                assert(answer_flat.len() == 1);
                assert(flat_sealed(b)[own.len() as int] == answer_flat[0]);
                assert(vers[own.len() as int] == answer_flat[0].0.version_spec());
            }
            if grant_tag(this.inner.answer.grant) is Some {
                assert(answer_artifact is Encrypted);
                assert(entry_matches(base, ctx.scope(), answer_flat[0], answer_plan[0]));
                assert(answer_flat[0].0.resource_id_spec() == grant_id(this.inner.answer.grant));
                assert(own.len() == if grant_tag(this.grant) is None { 0int } else { 1int });
            } else {
                assert(answer_flat.len() == 0);
                assert(answer_artifact is PlainText);
                assert(answer_plain == grant_plain(this.inner.answer.grant, JsonSpec::Str(this.inner.answer.inner@)));
                assert(answer_plain[0].1 == JsonSpec::Str(this.inner.answer.inner@));
            }
            assert(answer_model == hint_answer_json(this, vers));
            assert(meta_model == hint_meta(this.inner.title@, hint_answer_json(this, vers)));
            let plan = this.planned(path, vers);
            assert(plan =~= grant_entry(grant, path, raw@) + answer_plan);
            assert forall|k: int| 0 <= k < flat_sealed(b).len() implies #[trigger] entry_matches(base, ctx.scope(), flat_sealed(b)[k], plan[k]) by {
                if k < own.len() {
                    assert(flat_sealed(b)[k] == own[k]);
                    assert(plan[k] == grant_entry(grant, path, raw@)[k]);
                } else {
                    assert(flat_sealed(b)[k] == answer_flat[k - own.len()]);
                    assert(plan[k] == answer_plan[k - own.len()]);
                    assert(entry_matches(base, ctx.scope(), answer_flat[k - own.len()], answer_plan[k - own.len()]));
                }
            }
            assert(flat_plain(b) =~= this.plain(vers));
            assert(this.registry_calls(flat_sealed(b)) =~= calls_of(answer_flat) + calls_of(own));
        }
        Ok(b)
    }
}

proof fn lemma_entry_models_two(fields: Seq<(String, JsonValue)>)
    requires
        fields.len() == 2,
    ensures
        crate::json::entry_models(fields) == seq![(fields[0].0@, fields[0].1@), (fields[1].0@, fields[1].1@)],
{
    let one = fields.drop_last();
    assert(one.drop_last() =~= Seq::<(String, JsonValue)>::empty());
    assert(crate::json::entry_models(one.drop_last()) =~= Seq::<(Seq<char>, JsonSpec)>::empty());
    assert(one.last() == fields[0]);
    assert(crate::json::entry_models(one) =~= seq![(fields[0].0@, fields[0].1@)]);
    assert(fields.last() == fields[1]);
}

/// `{"resource_id": <id>, "version": <version>}`.
fn ref_json(answer_id: ResourceId, version: i64) -> (json: JsonValue)
    ensures
        json@ == answer_ref(answer_id, version),
{
    let mut fields: Vec<(String, JsonValue)> = Vec::new();
    fields.push(("resource_id".to_owned(), JsonValue::Int(answer_id.get() as i64)));
    fields.push(("version".to_owned(), JsonValue::Int(version)));
    proof {
        lemma_entry_models_two(fields@);
    }
    JsonValue::Object(fields)
}

} // verus!
