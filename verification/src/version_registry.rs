//! Looks up the backend-assigned `version` of a resource's content.
//!
//! A version is allocated the first time `(resource_id, scope_id, digest)` is
//! submitted; this library never invents one itself. [`VersionRegistry`] is
//! the seam through which building a resource asks for it, so the building
//! code never has to know whether it talks to the backend or to the in-memory
//! [`MockVersionRegistry`].

use vstd::prelude::*;
use crate::resource_id::ResourceId;
use crate::text::{decimal, digits, push_char, push_digits, push_str};

verus! {

/// A failed version lookup, with the registry's message.
#[derive(Debug)]
pub struct VersionRegistryError(pub String);

impl VersionRegistryError {
    /// The human-readable message for this error.
    pub fn to_message(&self) -> (msg: String)
        ensures
            msg@ == "version registry error: "@ + self.0@,
    {
        let mut msg = String::new();
        push_str(&mut msg, "version registry error: ");
        push_str(&mut msg, self.0.as_str());
        msg
    }
}

/// The backend's answer for one resource's content.
#[derive(Debug)]
pub struct ResourceRegistration {
    resource_id: ResourceId,
    scope_id: ResourceId,
    digest: [u8; 32],
    version: i64,
    confirmed: bool,
}

impl ResourceRegistration {
    pub closed spec fn resource_id_spec(self) -> ResourceId {
        self.resource_id
    }

    pub closed spec fn scope_id_spec(self) -> ResourceId {
        self.scope_id
    }

    pub closed spec fn digest_spec(self) -> Seq<u8> {
        self.digest@
    }

    pub closed spec fn version_spec(self) -> i64 {
        self.version
    }

    pub closed spec fn confirmed_spec(self) -> bool {
        self.confirmed
    }

    pub fn new(resource_id: ResourceId, scope_id: ResourceId, digest: [u8; 32], version: i64, confirmed: bool) -> (reg: Self)
        ensures
            reg.resource_id_spec() == resource_id,
            reg.scope_id_spec() == scope_id,
            reg.digest_spec() == digest@,
            reg.version_spec() == version,
            reg.confirmed_spec() == confirmed,
    {
        ResourceRegistration { resource_id, scope_id, digest, version, confirmed }
    }

    pub fn resource_id(&self) -> (r: &ResourceId)
        ensures
            *r == self.resource_id_spec(),
    {
        &self.resource_id
    }

    pub fn scope_id(&self) -> (r: &ResourceId)
        ensures
            *r == self.scope_id_spec(),
    {
        &self.scope_id
    }

    pub fn digest(&self) -> (r: &[u8; 32])
        ensures
            r@ == self.digest_spec(),
    {
        &self.digest
    }

    pub fn version(&self) -> (r: &i64)
        ensures
            *r == self.version_spec(),
    {
        &self.version
    }

    pub fn confirmed(&self) -> (r: &bool)
        ensures
            *r == self.confirmed_spec(),
    {
        &self.confirmed
    }

    /// One line describing the registration:
    /// `<scope:03>/<resource:05>_<version:05> <first 16 hex digits of digest> confirmed=[<bool>]`.
    pub fn to_display_string(&self) -> (s: String)
        ensures
            s@ == padded_decimal(self.scope_id_spec().id() as int, 3) + seq!['/']
                + padded_decimal(self.resource_id_spec().id() as int, 5) + seq!['_']
                + padded_decimal(self.version_spec() as int, 5) + seq![' ']
                + hex_prefix(self.digest_spec(), 8) + " confirmed=["@
                + (if self.confirmed_spec() { "true"@ } else { "false"@ }) + seq![']'],
    {
        let mut s = String::new();
        push_padded_decimal(&mut s, self.scope_id.get() as i64, 3);
        push_char(&mut s, '/');
        push_padded_decimal(&mut s, self.resource_id.get() as i64, 5);
        push_char(&mut s, '_');
        push_padded_decimal(&mut s, self.version, 5);
        push_char(&mut s, ' ');
        push_hex_prefix(&mut s, &self.digest, 8);
        push_str(&mut s, " confirmed=[");
        if self.confirmed {
            push_str(&mut s, "true");
        } else {
            push_str(&mut s, "false");
        }
        push_char(&mut s, ']');
        s
    }
}

/// `n` zero characters.
pub open spec fn zeros(n: int) -> Seq<char> {
    Seq::new(if n > 0 { n as nat } else { 0 }, |i: int| '0')
}

/// `i` in decimal, zero-padded after any sign to at least `width` characters.
pub open spec fn padded_decimal(i: int, width: int) -> Seq<char> {
    if i < 0 {
        seq!['-'] + zeros(width - 1 - digits((-i) as nat).len()) + digits((-i) as nat)
    } else {
        zeros(width - digits(i as nat).len()) + digits(i as nat)
    }
}

/// Lowercase hexadecimal digit for a value below 16.
pub open spec fn hex_digit(v: nat) -> char {
    if v < 10 { (('0' as nat) + v) as char } else { (('a' as nat) + (v - 10)) as char }
}

/// Lowercase hexadecimal of the first `n` bytes, two digits per byte.
pub open spec fn hex_prefix(bytes: Seq<u8>, n: nat) -> Seq<char>
    decreases n,
{
    if n == 0 {
        seq![]
    } else {
        hex_prefix(bytes, (n - 1) as nat) + seq![hex_digit(bytes[n - 1] as nat / 16), hex_digit(bytes[n - 1] as nat % 16)]
    }
}

fn hex_digit_exec(v: u8) -> (c: char)
    requires
        v < 16,
    ensures
        c == hex_digit(v as nat),
{
    if v < 10 {
        let b: u8 = 48 + v;
        b as char
    } else {
        let b: u8 = 87 + v;
        b as char
    }
}

fn push_hex_prefix(out: &mut String, bytes: &[u8; 32], n: usize)
    requires
        n <= 32,
    ensures
        final(out)@ == old(out)@ + hex_prefix(bytes@, n as nat),
{
    let mut i: usize = 0;
    while i < n
        invariant
            i <= n <= 32,
            out@ == old(out)@ + hex_prefix(bytes@, i as nat),
        decreases n - i,
    {
        let b = bytes[i];
        push_char(out, hex_digit_exec(b / 16));
        push_char(out, hex_digit_exec(b % 16));
        i = i + 1;
    }
}

spec fn pow10(k: nat) -> nat
    decreases k,
{
    if k == 0 { 1 } else { 10 * pow10((k - 1) as nat) }
}

proof fn lemma_digits_len(n: nat, k: nat)
    requires
        1 <= k,
        n < pow10(k),
    ensures
        digits(n).len() <= k,
    decreases k,
{
    if n >= 10 {
        let p = pow10((k - 1) as nat);
        assert(pow10(k) == 10 * p);
        if k == 1 {
            assert(pow10(0) == 1);
        } else {
            assert(n / 10 < p) by (nonlinear_arith)
                requires
                    n < 10 * p,
            ;
            lemma_digits_len(n / 10, (k - 1) as nat);
        }
    }
}

fn digit_count(n: u64) -> (count: usize)
    ensures
        count == digits(n as nat).len(),
        count <= 20,
    decreases n,
{
    proof {
        reveal_with_fuel(pow10, 21);
        assert(pow10(20) == 100000000000000000000nat);
        lemma_digits_len(n as nat, 20);
    }
    if n < 10 {
        1
    } else {
        let c = digit_count(n / 10);
        proof {
            assert(digits(n as nat) == digits((n / 10) as nat).push(crate::text::digit_char((n % 10) as nat)));
        }
        c + 1
    }
}

fn push_zeros(out: &mut String, n: usize)
    ensures
        final(out)@ == old(out)@ + zeros(n as int),
{
    let mut i: usize = 0;
    while i < n
        invariant
            i <= n,
            out@ == old(out)@ + zeros(i as int),
        decreases n - i,
    {
        push_char(out, '0');
        i = i + 1;
        proof {
            assert(zeros(i as int) =~= zeros(i - 1).push('0'));
        }
    }
}

fn push_padded_decimal(out: &mut String, i: i64, width: usize)
    requires
        1 <= width <= 20,
    ensures
        final(out)@ == old(out)@ + padded_decimal(i as int, width as int),
{
    if i < 0 {
        let wide: i128 = i as i128;
        let magnitude: u64 = (-wide) as u64;
        push_char(out, '-');
        let count = digit_count(magnitude);
        if count < width - 1 {
            push_zeros(out, width - 1 - count);
        } else {
            push_zeros(out, 0);
        }
        push_digits(out, magnitude);
        proof {
            assert(out@ =~= old(out)@ + padded_decimal(i as int, width as int));
        }
    } else {
        let count = digit_count(i as u64);
        if count < width {
            push_zeros(out, width - count);
        } else {
            push_zeros(out, 0);
        }
        push_digits(out, i as u64);
        proof {
            assert(out@ =~= old(out)@ + padded_decimal(i as int, width as int));
        }
    }
}

/// One lookup a registry answered: the resource id, scope id and digest it
/// was asked about, and what it answered.
pub type RegistryCall = (ResourceId, ResourceId, Seq<u8>, Result<ResourceRegistration, VersionRegistryError>);

/// The lookup a successful registration answers.
pub open spec fn registered_call(reg: ResourceRegistration) -> RegistryCall {
    (reg.resource_id_spec(), reg.scope_id_spec(), reg.digest_spec(), Ok(reg))
}

/// An idempotent `(resource_id, scope_id, digest) -> version` lookup, backed by
/// whatever actually assigns versions. Implementations must answer the same
/// triple with the same version every time.
pub trait VersionRegistry: Sized {
    /// `after` is this registry once it has answered `call` (the lookup of
    /// its resource id, scope id and digest, and the answer given). A
    /// registry that does not describe its answers keeps this default, which
    /// admits any answer: then the lookups recorded by the build functions
    /// still say what was asked, but nothing of what such a registry answers.
    open spec fn answered(self, after: Self, call: RegistryCall) -> bool {
        true
    }

    fn version_for(&mut self, resource_id: ResourceId, scope_id: ResourceId, digest: [u8; 32]) -> (reg: Result<ResourceRegistration, VersionRegistryError>)
        ensures
            reg matches Ok(r) ==> r.resource_id_spec() == resource_id && r.scope_id_spec() == scope_id
                && r.digest_spec() == digest@,
            old(self).answered(*final(self), (resource_id, scope_id, digest@, reg)),
    ;
}

/// `states` runs from a registry through the registries it became by
/// answering `calls`, one state per answer.
pub open spec fn answered_along<R: VersionRegistry>(states: Seq<R>, calls: Seq<RegistryCall>) -> bool {
    &&& states.len() == calls.len() + 1
    &&& forall|i: int| 0 <= i < calls.len() ==> #[trigger] states[i].answered(states[i + 1], calls[i])
}

/// `after` is `before` once it has answered `calls`, in order.
pub open spec fn answered_all<R: VersionRegistry>(before: R, after: R, calls: Seq<RegistryCall>) -> bool {
    exists|states: Seq<R>| #[trigger] answered_along(states, calls) && states[0] == before && states.last() == after
}

/// Answering nothing leaves a registry as it is.
pub proof fn lemma_answered_none<R: VersionRegistry>(r: R)
    ensures
        answered_all(r, r, Seq::<RegistryCall>::empty()),
{
    assert(answered_along(seq![r], Seq::<RegistryCall>::empty()));
}

/// A single answered lookup.
pub proof fn lemma_answered_one<R: VersionRegistry>(before: R, after: R, call: RegistryCall)
    requires
        before.answered(after, call),
    ensures
        answered_all(before, after, seq![call]),
{
    let states = seq![before, after];
    assert(states[0].answered(states[1], seq![call][0]));
    assert(answered_along(states, seq![call]));
}

/// Answering `a` and then `b` is answering `a + b`.
pub proof fn lemma_answered_concat<R: VersionRegistry>(r0: R, r1: R, r2: R, a: Seq<RegistryCall>, b: Seq<RegistryCall>)
    requires
        answered_all(r0, r1, a),
        answered_all(r1, r2, b),
    ensures
        answered_all(r0, r2, a + b),
{
    let s1 = choose|states: Seq<R>| #[trigger] answered_along(states, a) && states[0] == r0 && states.last() == r1;
    let s2 = choose|states: Seq<R>| #[trigger] answered_along(states, b) && states[0] == r1 && states.last() == r2;
    let s = s1 + s2.skip(1);
    assert forall|i: int| 0 <= i < (a + b).len() implies #[trigger] s[i].answered(s[i + 1], (a + b)[i]) by {
        if i < a.len() {
            assert(s[i] == s1[i]);
            if i + 1 < s1.len() {
                assert(s[i + 1] == s1[i + 1]);
            } else {
                assert(s[i + 1] == s2[1]);
                assert(s1[i + 1] == r1);
            }
            assert((a + b)[i] == a[i]);
            assert(s1[i].answered(s1[i + 1], a[i]));
        } else {
            let j = i - a.len();
            assert((a + b)[i] == b[j]);
            assert(s2[j].answered(s2[j + 1], b[j]));
            assert(s[i + 1] == s2[j + 1]);
            if j == 0 {
                assert(s[i] == s1[a.len() as int]);
            } else {
                assert(s[i] == s2[j]);
            }
        }
    }
    assert(answered_along(s, a + b));
    if b.len() == 0 {
        assert(s.last() == s1.last());
    }
}

/// An in-memory registry that never touches the network: the first time a
/// `(resource_id, digest)` pair is seen it is handed the next never-used
/// version number.
pub struct MockVersionRegistry {
    versions: Vec<(i32, [u8; 32], i64)>,
    next_version: i64,
}

/// The lookup table of a mock registry: `(resource id, digest)` to version.
pub open spec fn version_table(entries: Seq<(i32, [u8; 32], i64)>) -> Map<(int, Seq<u8>), i64>
    decreases entries.len(),
{
    if entries.len() == 0 {
        Map::empty()
    } else {
        let e = entries.last();
        version_table(entries.drop_last()).insert((e.0 as int, e.1@), e.2)
    }
}

/// Versions are never reused: every version handed out is below the next one,
/// and two pairs never share a version.
pub open spec fn allocation_ok(table: Map<(int, Seq<u8>), i64>, next: i64) -> bool {
    &&& forall|k: (int, Seq<u8>)| #[trigger] table.contains_key(k) ==> table[k] < next
    &&& forall|k1: (int, Seq<u8>), k2: (int, Seq<u8>)|
        #[trigger] table.contains_key(k1) && #[trigger] table.contains_key(k2) && k1 != k2 ==> table[k1] != table[k2]
}

impl MockVersionRegistry {
    #[verifier::type_invariant]
    spec fn consistent(self) -> bool {
        &&& forall|i: int, j: int| 0 <= i < j < self.versions@.len() ==>
            (self.versions@[i].0, self.versions@[i].1@) != (self.versions@[j].0, self.versions@[j].1@)
        &&& forall|i: int| 0 <= i < self.versions@.len() ==> #[trigger] self.versions@[i].2 < self.next_version
        &&& forall|i: int, j: int| 0 <= i < j < self.versions@.len() ==> self.versions@[i].2 != self.versions@[j].2
    }

    /// The versions handed out so far, by `(resource id, digest)`.
    pub closed spec fn table(self) -> Map<(int, Seq<u8>), i64> {
        version_table(self.versions@)
    }

    /// The version the next new pair will be handed.
    pub closed spec fn next(self) -> i64 {
        self.next_version
    }

    /// An empty registry whose first version is 1.
    pub fn new() -> (r: Self)
        ensures
            r.table() == Map::<(int, Seq<u8>), i64>::empty(),
            r.next() == 1,
            allocation_ok(r.table(), r.next()),
    {
        MockVersionRegistry { versions: Vec::new(), next_version: 1 }
    }
}

impl Default for MockVersionRegistry {
    fn default() -> (r: Self)
        ensures
            r.table() == Map::<(int, Seq<u8>), i64>::empty(),
            r.next() == 0,
            allocation_ok(r.table(), r.next()),
    {
        MockVersionRegistry { versions: Vec::new(), next_version: 0 }
    }
}

fn same_digest(a: &[u8; 32], b: &[u8; 32]) -> (same: bool)
    ensures
        same == (a@ == b@),
{
    let mut i: usize = 0;
    while i < 32
        invariant
            i <= 32,
            forall|k: int| 0 <= k < i ==> a@[k] == b@[k],
        decreases 32 - i,
    {
        if a[i] != b[i] {
            return false;
        }
        i = i + 1;
    }
    proof {
        assert(a@ =~= b@);
    }
    true
}

proof fn lemma_table_lookup(entries: Seq<(i32, [u8; 32], i64)>, k: int)
    requires
        0 <= k < entries.len(),
        forall|i: int, j: int| 0 <= i < j < entries.len() ==>
            (entries[i].0, entries[i].1@) != (entries[j].0, entries[j].1@),
    ensures
        version_table(entries).contains_key((entries[k].0 as int, entries[k].1@)),
        version_table(entries)[(entries[k].0 as int, entries[k].1@)] == entries[k].2,
    decreases entries.len(),
{
    if k < entries.len() - 1 {
        lemma_table_lookup(entries.drop_last(), k);
    }
}

proof fn lemma_table_absent(entries: Seq<(i32, [u8; 32], i64)>, key: (int, Seq<u8>))
    requires
        forall|i: int| 0 <= i < entries.len() ==> (entries[i].0 as int, entries[i].1@) != key,
    ensures
        !version_table(entries).contains_key(key),
    decreases entries.len(),
{
    if entries.len() > 0 {
        lemma_table_absent(entries.drop_last(), key);
    }
}

proof fn lemma_table_member(entries: Seq<(i32, [u8; 32], i64)>, key: (int, Seq<u8>))
    requires
        version_table(entries).contains_key(key),
    ensures
        exists|j: int| 0 <= j < entries.len() && (entries[j].0 as int, entries[j].1@) == key
            && #[trigger] entries[j].2 == version_table(entries)[key],
    decreases entries.len(),
{
    let last = entries.last();
    if (last.0 as int, last.1@) != key {
        lemma_table_member(entries.drop_last(), key);
        let j = choose|j: int| 0 <= j < entries.drop_last().len() && (entries.drop_last()[j].0 as int, entries.drop_last()[j].1@) == key
            && #[trigger] entries.drop_last()[j].2 == version_table(entries.drop_last())[key];
        assert(entries[j] == entries.drop_last()[j]);
    } else {
        assert(entries[entries.len() - 1] == last);
    }
}

proof fn lemma_allocation(entries: Seq<(i32, [u8; 32], i64)>, next: i64)
    requires
        forall|i: int| 0 <= i < entries.len() ==> #[trigger] entries[i].2 < next,
        forall|i: int, j: int| 0 <= i < j < entries.len() ==> entries[i].2 != entries[j].2,
    ensures
        allocation_ok(version_table(entries), next),
{
    let t = version_table(entries);
    assert forall|k: (int, Seq<u8>)| #[trigger] t.contains_key(k) implies t[k] < next by {
        lemma_table_member(entries, k);
    }
    assert forall|k1: (int, Seq<u8>), k2: (int, Seq<u8>)|
        #[trigger] t.contains_key(k1) && #[trigger] t.contains_key(k2) && k1 != k2 implies t[k1] != t[k2] by {
        lemma_table_member(entries, k1);
        lemma_table_member(entries, k2);
        let j1 = choose|j: int| 0 <= j < entries.len() && (entries[j].0 as int, entries[j].1@) == k1
            && #[trigger] entries[j].2 == t[k1];
        let j2 = choose|j: int| 0 <= j < entries.len() && (entries[j].0 as int, entries[j].1@) == k2
            && #[trigger] entries[j].2 == t[k2];
        assert(j1 != j2);
        if j1 < j2 {
            assert(entries[j1].2 != entries[j2].2);
        } else {
            assert(entries[j2].2 != entries[j1].2);
        }
    }
}

impl MockVersionRegistry {
    /// Looks a pair up, allocating the next version for a pair never seen.
    /// Fails only once the version numbers are exhausted.
    fn lookup(&mut self, resource_id: i32, digest: &[u8; 32]) -> (version: Option<i64>)
        ensures
            old(self).table().contains_key((resource_id as int, digest@)) ==> {
                &&& version == Some(old(self).table()[(resource_id as int, digest@)])
                &&& final(self).table() == old(self).table()
                &&& final(self).next() == old(self).next()
            },
            !old(self).table().contains_key((resource_id as int, digest@)) ==> {
                &&& old(self).next() < i64::MAX ==> {
                    &&& version == Some(old(self).next())
                    &&& final(self).table() == old(self).table().insert((resource_id as int, digest@), old(self).next())
                    &&& final(self).next() == old(self).next() + 1
                }
                &&& old(self).next() == i64::MAX ==> version is None && final(self).table() == old(self).table()
                    && final(self).next() == old(self).next()
            },
    {
        proof {
            use_type_invariant(&*self);
        }
        let mut i: usize = 0;
        while i < self.versions.len()
            invariant
                i <= self.versions@.len(),
                forall|k: int| 0 <= k < i ==> (self.versions@[k].0 as int, self.versions@[k].1@) != (resource_id as int, digest@),
                forall|a: int, b: int| 0 <= a < b < self.versions@.len() ==>
                    (self.versions@[a].0, self.versions@[a].1@) != (self.versions@[b].0, self.versions@[b].1@),
            decreases self.versions@.len() - i,
        {
            if self.versions[i].0 == resource_id && same_digest(&self.versions[i].1, digest) {
                proof {
                    lemma_table_lookup(self.versions@, i as int);
                }
                return Some(self.versions[i].2);
            }
            i = i + 1;
        }
        proof {
            lemma_table_absent(self.versions@, (resource_id as int, digest@));
        }
        if self.next_version == i64::MAX {
            return None;
        }
        let version = self.next_version;
        let ghost before = self.versions@;
        let mut versions: Vec<(i32, [u8; 32], i64)> = Vec::new();
        std::mem::swap(&mut versions, &mut self.versions);
        versions.push((resource_id, *digest, version));
        proof {
            assert(versions@.drop_last() =~= before);
            assert forall|i: int, j: int| 0 <= i < j < versions@.len() implies
                (versions@[i].0, versions@[i].1@) != (versions@[j].0, versions@[j].1@) by {
                if j == versions@.len() - 1 {
                    assert((versions@[i].0 as int, versions@[i].1@) != (resource_id as int, digest@));
                }
            }
        }
        *self = MockVersionRegistry { versions, next_version: version + 1 };
        Some(version)
    }
}

impl VersionRegistry for MockVersionRegistry {
    /// A pair seen before gets its earlier version back and changes nothing;
    /// a new pair gets the next version, which is then used up; once the
    /// numbers are exhausted the lookup fails and changes nothing.
    open spec fn answered(self, after: Self, call: RegistryCall) -> bool {
        let (id, scope, digest, r) = call;
        let key = (id.id() as int, digest);
        let version = if self.table().contains_key(key) { self.table()[key] } else { self.next() };
        if self.table().contains_key(key) || self.next() < i64::MAX {
            &&& r matches Ok(g) && g.resource_id_spec() == id && g.scope_id_spec() == scope && g.digest_spec() == digest
                && g.version_spec() == version && !g.confirmed_spec()
            &&& after.table() == self.table().insert(key, version)
            &&& after.next() == if self.table().contains_key(key) { self.next() } else { (self.next() + 1) as i64 }
        } else {
            &&& r is Err
            &&& after.table() == self.table()
            &&& after.next() == self.next()
        }
    }

    /// A pair seen before gets its earlier version back and changes nothing;
    /// a new pair gets the next version, which is then used up.
    fn version_for(&mut self, resource_id: ResourceId, scope_id: ResourceId, digest: [u8; 32]) -> (reg: Result<ResourceRegistration, VersionRegistryError>)
        ensures
            old(self).table().contains_key((resource_id.id() as int, digest@)) ==> {
                &&& reg matches Ok(r) && r.version_spec() == old(self).table()[(resource_id.id() as int, digest@)]
                    && !r.confirmed_spec()
                &&& final(self).table() == old(self).table()
                &&& final(self).next() == old(self).next()
            },
            !old(self).table().contains_key((resource_id.id() as int, digest@)) && old(self).next() < i64::MAX ==> {
                &&& reg matches Ok(r) && r.version_spec() == old(self).next() && !r.confirmed_spec()
                &&& final(self).table() == old(self).table().insert((resource_id.id() as int, digest@), old(self).next())
                &&& final(self).next() == old(self).next() + 1
            },
            !old(self).table().contains_key((resource_id.id() as int, digest@)) && old(self).next() == i64::MAX ==> {
                &&& reg is Err
                &&& final(self).table() == old(self).table()
                &&& final(self).next() == old(self).next()
            },
            allocation_ok(final(self).table(), final(self).next()),
    {
        let res = match self.lookup(resource_id.get(), &digest) {
            Some(version) => Ok(ResourceRegistration { resource_id, scope_id, digest, version, confirmed: false }),
            None => {
                let mut msg = String::new();
                push_str(&mut msg, "version numbers exhausted");
                Err(VersionRegistryError(msg))
            },
        };
        proof {
            let key = (resource_id.id() as int, digest@);
            if old(self).table().contains_key(key) {
                assert(old(self).table().insert(key, old(self).table()[key]) =~= old(self).table());
            }
            use_type_invariant(&*self);
            lemma_allocation(self.versions@, self.next_version);
        }
        res
    }
}

/// The first `n` answers a mock registry gave along `states` kept every
/// version it had handed out before them.
proof fn lemma_mock_kept_prefix(states: Seq<MockVersionRegistry>, calls: Seq<RegistryCall>, n: int)
    requires
        answered_along(states, calls),
        0 <= n <= calls.len(),
    ensures
        forall|k: (int, Seq<u8>)| #[trigger] states[0].table().contains_key(k) ==>
            states[n].table().contains_key(k) && states[n].table()[k] == states[0].table()[k],
    decreases n,
{
    if n > 0 {
        lemma_mock_kept_prefix(states, calls, n - 1);
        let i = n - 1;
        assert(states[i].answered(states[i + 1], calls[i]));
    }
}

/// A mock registry never changes a version it has handed out: after any run
/// of lookups, every pair it knew before maps to the same version, so a
/// later lookup of that pair answers it again.
pub proof fn lemma_mock_versions_kept(before: MockVersionRegistry, after: MockVersionRegistry, calls: Seq<RegistryCall>)
    requires
        answered_all(before, after, calls),
    ensures
        forall|k: (int, Seq<u8>)| #[trigger] before.table().contains_key(k) ==>
            after.table().contains_key(k) && after.table()[k] == before.table()[k],
{
    let states = choose|states: Seq<MockVersionRegistry>| #[trigger] answered_along(states, calls)
        && states[0] == before && states.last() == after;
    lemma_mock_kept_prefix(states, calls, calls.len() as int);
}

} // verus!
