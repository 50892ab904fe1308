//! Key and object-path derivation and the sealed blob format.
//!
//! The object path and the content key are both derived from the same
//! per-resource secret through BLAKE3's keyed `derive_key` mode, each under its
//! own hardcoded context string, so a public object path never coincides with
//! a key.
//!
//! Blob layout:
//!
//! ```text
//! "HU&T"       4 bytes   magic
//! nonce       12 bytes   random, fresh per encryption
//! ciphertext   N bytes
//! tag         16 bytes   AES-GCM tag, appended
//! ```

use vstd::prelude::*;
use vstd::arithmetic::power2::*;
use vstd::bits::*;
use aes_gcm::aead::{Aead, Generate, KeyInit};
use aes_gcm::{Aes256Gcm, Nonce};
use crate::text::{push_char, push_str, push_digits, decimal, push_bytes};

verus! {

/// BLAKE3 `derive_key` context of the root key.
pub const CTX_BASE: &'static str = "thunt.top 4724-07-18 resource base_key v1";
/// BLAKE3 `derive_key` context of every content key.
pub const CTX_KEY: &'static str = "thunt.top 4724-07-18 resource content_key v1";
/// BLAKE3 `derive_key` context of object-path prefixes.
pub const CTX_PATH: &'static str = "thunt.top 4724-07-18 resource url path v1";

/// Length of the random nonce stored in a blob.
pub const NONCE_LEN: usize = 12;
/// Length of the AES-GCM tag at the end of a blob.
pub const TAG_LEN: usize = 16;
/// Number of digest bytes that make up an object-path prefix (26 base32 characters).
pub const PATH_BYTES: usize = 16;
/// Shortest blob that can hold magic, nonce and tag.
pub const MIN_BLOB_LEN: usize = 32;
/// Longest plaintext AES-GCM seals, in bytes.
pub const MAX_PLAINTEXT_LEN: u64 = 68719476704;

/// The four magic bytes `"HU&T"` every blob starts with.
pub open spec fn magic() -> Seq<u8> {
    seq![0x48u8, 0x55u8, 0x26u8, 0x54u8]
}

// ---------------------------------------------------------------------------
// Outside primitives.

/// What BLAKE3's `derive_key` returns for a context string and key material.
pub uninterp spec fn blake3_derive_key(context: Seq<char>, material: Seq<u8>) -> Seq<u8>;

/// What AES-256-GCM (96-bit nonce, no associated data) returns when it seals
/// `plaintext` under `key` and `nonce`: the ciphertext followed by the tag.
pub uninterp spec fn aes256gcm_seal(key: Seq<u8>, nonce: Seq<u8>, plaintext: Seq<u8>) -> Seq<u8>;

/// Calls `blake3::derive_key`; its result is named `blake3_derive_key`.
#[verifier::external_body]
fn blake3_derive(context: &str, material: &[u8]) -> (out: [u8; 32])
    ensures
        out@ == blake3_derive_key(context@, material@),
{
    blake3::derive_key(context, material)
}

/// Calls `aes_gcm::Nonce::generate` (the system's secure random source).
/// Nothing is claimed of the nonce beyond its length, which its type fixes;
/// the outside function panics only if the operating system's random source fails.
#[verifier::external_body]
fn random_nonce() -> (nonce: [u8; 12]) {
    let nonce: aes_gcm::aead::Nonce<Aes256Gcm> = Nonce::generate();
    nonce.into()
}

/// Calls `Aead::encrypt` of `aes_gcm::Aes256Gcm` with no associated data.
/// Claims that the result is the named seal of the arguments, and that it is
/// the plaintext's length plus the 16-byte tag long. The call fails only for
/// plaintexts longer than `MAX_PLAINTEXT_LEN`, which `requires` leaves out.
#[verifier::external_body]
fn aes256gcm_encrypt(key: &[u8; 32], nonce: &[u8; 12], plaintext: &[u8]) -> (sealed: Vec<u8>)
    requires
        plaintext@.len() <= MAX_PLAINTEXT_LEN,
    ensures
        sealed@ == aes256gcm_seal(key@, nonce@, plaintext@),
        sealed@.len() == plaintext@.len() + TAG_LEN,
{
    let cipher = Aes256Gcm::new(key.into());
    cipher.encrypt(&aes_gcm::aead::Nonce::<Aes256Gcm>::from(*nonce), plaintext).expect("plaintext within the AES-GCM limit")
}

/// Calls `Aead::decrypt` of `aes_gcm::Aes256Gcm` with no associated data,
/// turning its error into `None`. Claims the two halves of AEAD correctness:
/// a sealed plaintext opens to itself, and whatever opens is a plaintext that
/// seals to exactly the given bytes.
#[verifier::external_body]
fn aes256gcm_decrypt(key: &[u8; 32], nonce: &[u8; 12], sealed: &[u8]) -> (opened: Option<Vec<u8>>)
    ensures
        opened matches Some(p) ==> p@.len() <= MAX_PLAINTEXT_LEN && sealed@ == aes256gcm_seal(key@, nonce@, p@),
        forall|p: Seq<u8>| p.len() <= MAX_PLAINTEXT_LEN && sealed@ == #[trigger] aes256gcm_seal(key@, nonce@, p) ==> opened is Some && opened.unwrap()@ == p,
{
    let cipher = Aes256Gcm::new(key.into());
    cipher.decrypt(&aes_gcm::aead::Nonce::<Aes256Gcm>::from(*nonce), sealed).ok()
}

// ---------------------------------------------------------------------------
// Base32.

/// Bit `k` of `bytes` read most significant bit first; zero past the end.
pub open spec fn bit_at(bytes: Seq<u8>, k: int) -> nat {
    if 0 <= k < 8 * bytes.len() {
        (bytes[k / 8] as nat / pow2((7 - k % 8) as nat)) % 2
    } else {
        0
    }
}

/// The unsigned integer spelled by bits `s .. e` of `bytes` (zero bits past the end).
pub open spec fn bits_value(bytes: Seq<u8>, s: int, e: int) -> nat
    decreases e - s,
{
    if e <= s {
        0
    } else {
        2 * bits_value(bytes, s, e - 1) + bit_at(bytes, e - 1)
    }
}

/// The base32 digit (RFC 4648 alphabet, lowercased) for a value below 32.
pub open spec fn base32_digit(v: nat) -> char {
    if v < 26 {
        (('a' as nat) + v) as char
    } else {
        (('2' as nat) + (v - 26)) as char
    }
}

/// A character of the lowercase base32 alphabet: `a`-`z` or `2`-`7`.
pub open spec fn is_base32_char(c: char) -> bool {
    ||| ('a' as nat) <= (c as nat) <= ('z' as nat)
    ||| ('2' as nat) <= (c as nat) <= ('7' as nat)
}

/// Base32 text uses the lowercase base32 alphabet only.
pub proof fn lemma_base32_alphabet(bytes: Seq<u8>)
    ensures
        forall|i: int| 0 <= i < base32_spec(bytes).len() ==> is_base32_char(#[trigger] base32_spec(bytes)[i]),
{
    assert forall|i: int| 0 <= i < base32_spec(bytes).len() implies is_base32_char(#[trigger] base32_spec(bytes)[i]) by {
        lemma_bits_bound(bytes, 5 * i, 5 * i + 5);
        lemma2_to64();
        let v = bits_value(bytes, 5 * i, 5 * i + 5);
        assert(v < 32);
    }
}

/// Number of base32 digits for `n` bytes, without padding.
pub open spec fn base32_len(n: nat) -> nat {
    (8 * n + 4) / 5
}

/// Unpadded lowercase base32 of `bytes`: digit `i` encodes bits `5i .. 5i+5`,
/// the last group filled up with zero bits.
pub open spec fn base32_spec(bytes: Seq<u8>) -> Seq<char> {
    Seq::new(base32_len(bytes.len()), |i: int| base32_digit(bits_value(bytes, 5 * i, 5 * i + 5)))
}

proof fn lemma_bits_split(bytes: Seq<u8>, s: int, t: int, e: int)
    requires
        s <= t <= e,
    ensures
        bits_value(bytes, s, e) == bits_value(bytes, s, t) * pow2((e - t) as nat) + bits_value(bytes, t, e),
    decreases e - t,
{
    if e == t {
        lemma2_to64();
        assert(pow2(0) == 1);
        assert(bits_value(bytes, t, e) == 0);
        assert(bits_value(bytes, s, t) * 1 == bits_value(bytes, s, t));
    } else {
        lemma_bits_split(bytes, s, t, e - 1);
        lemma_pow2_unfold((e - t) as nat);
        let a = bits_value(bytes, s, t);
        let p = pow2((e - 1 - t) as nat);
        assert(pow2((e - t) as nat) == 2 * p);
        assert(bits_value(bytes, s, e) == 2 * bits_value(bytes, s, e - 1) + bit_at(bytes, e - 1));
        assert(bits_value(bytes, t, e) == 2 * bits_value(bytes, t, e - 1) + bit_at(bytes, e - 1));
        assert(2 * (a * p) == a * (2 * p)) by (nonlinear_arith);
        assert(bits_value(bytes, s, e - 1) == a * p + bits_value(bytes, t, e - 1));
    }
}

proof fn lemma_bits_bound(bytes: Seq<u8>, s: int, e: int)
    requires
        s <= e,
    ensures
        bits_value(bytes, s, e) < pow2((e - s) as nat),
    decreases e - s,
{
    if e == s {
        lemma2_to64();
    } else {
        lemma_bits_bound(bytes, s, e - 1);
        lemma_pow2_unfold((e - s) as nat);
    }
}

proof fn lemma_bits_past_end(bytes: Seq<u8>, s: int, e: int)
    requires
        8 * bytes.len() <= s,
    ensures
        bits_value(bytes, s, e) == 0,
    decreases e - s,
{
    if e > s {
        lemma_bits_past_end(bytes, s, e - 1);
    }
}

proof fn lemma_bits_byte(bytes: Seq<u8>, k: int)
    requires
        0 <= k < bytes.len(),
    ensures
        bits_value(bytes, 8 * k, 8 * k + 8) == bytes[k] as nat,
{
    let b = bytes[k];
    lemma2_to64();
    let s = 8 * k;
    assert(bits_value(bytes, s, s) == 0);
    assert forall|j: int| 0 <= j < 8 implies #[trigger] bit_at(bytes, s + j) == (b as nat / pow2((7 - j) as nat)) % 2 by {
        assert((s + j) / 8 == k);
        assert((s + j) % 8 == j);
    }
    assert(bit_at(bytes, s + 0) == (b as nat / 128) % 2);
    assert(bit_at(bytes, s + 1) == (b as nat / 64) % 2);
    assert(bit_at(bytes, s + 2) == (b as nat / 32) % 2);
    assert(bit_at(bytes, s + 3) == (b as nat / 16) % 2);
    assert(bit_at(bytes, s + 4) == (b as nat / 8) % 2);
    assert(bit_at(bytes, s + 5) == (b as nat / 4) % 2);
    assert(bit_at(bytes, s + 6) == (b as nat / 2) % 2);
    assert(bit_at(bytes, s + 7) == (b as nat / 1) % 2);
    assert(b as nat == 2 * (2 * (2 * (2 * (2 * (2 * (2 * ((b as nat / 128) % 2) + (b as nat / 64) % 2)
        + (b as nat / 32) % 2) + (b as nat / 16) % 2) + (b as nat / 8) % 2) + (b as nat / 4) % 2)
        + (b as nat / 2) % 2) + (b as nat / 1) % 2) by (nonlinear_arith)
        requires b < 256;
    assert(bits_value(bytes, s, s + 1) == bit_at(bytes, s + 0));
    assert(bits_value(bytes, s, s + 2) == 2 * bits_value(bytes, s, s + 1) + bit_at(bytes, s + 1));
    assert(bits_value(bytes, s, s + 3) == 2 * bits_value(bytes, s, s + 2) + bit_at(bytes, s + 2));
    assert(bits_value(bytes, s, s + 4) == 2 * bits_value(bytes, s, s + 3) + bit_at(bytes, s + 3));
    assert(bits_value(bytes, s, s + 5) == 2 * bits_value(bytes, s, s + 4) + bit_at(bytes, s + 4));
    assert(bits_value(bytes, s, s + 6) == 2 * bits_value(bytes, s, s + 5) + bit_at(bytes, s + 5));
    assert(bits_value(bytes, s, s + 7) == 2 * bits_value(bytes, s, s + 6) + bit_at(bytes, s + 6));
    assert(bits_value(bytes, s, s + 8) == 2 * bits_value(bytes, s, s + 7) + bit_at(bytes, s + 7));
}

fn base32_digit_exec(v: u32) -> (c: char)
    requires
        v < 32,
    ensures
        c == base32_digit(v as nat),
{
    if v < 26 {
        let b: u8 = (97 + v) as u8;
        b as char
    } else {
        let b: u8 = (24 + v) as u8;
        b as char
    }
}

/// Unpadded lowercase RFC 4648 base32, as object stores are often
/// case-insensitive about keys.
pub fn base32(bytes: &[u8]) -> (out: String)
    ensures
        out@ == base32_spec(bytes@),
{
    let mut out = String::new();
    let mut buf: u32 = 0;
    let mut bits: u32 = 0;
    let mut k: usize = 0;
    let ghost b = bytes@;
    proof {
        lemma2_to64();
    }
    while k < bytes.len()
        invariant
            b == bytes@,
            k <= b.len(),
            bits < 5,
            8 * k == 5 * (out@.len() as int) + bits,
            buf == bits_value(b, 5 * (out@.len() as int), 8 * k),
            out@ == Seq::new(out@.len(), |i: int| base32_digit(bits_value(b, 5 * i, 5 * i + 5))),
        decreases b.len() - k,
    {
        proof {
            lemma_bits_bound(b, 5 * (out@.len() as int), 8 * k);
            lemma_pow2_strictly_increases(bits as nat, 5);
            lemma2_to64();
            lemma_bits_split(b, 5 * (out@.len() as int), 8 * k, 8 * k + 8);
            lemma_bits_byte(b, k as int);
        }
        buf = buf * 256 + (bytes[k] as u32);
        bits = bits + 8;
        k = k + 1;
        while bits >= 5
            invariant
                b == bytes@,
                k <= b.len(),
                bits < 13,
                8 * k == 5 * (out@.len() as int) + bits,
                buf == bits_value(b, 5 * (out@.len() as int), 8 * k),
                out@ == Seq::new(out@.len(), |i: int| base32_digit(bits_value(b, 5 * i, 5 * i + 5))),
            decreases bits,
        {
            bits = bits - 5;
            let ghost m: int = out@.len() as int;
            proof {
                lemma_u32_pow2_no_overflow(bits as nat);
                lemma_u32_shl_is_mul(1, bits);
                lemma_bits_split(b, 5 * m, 5 * m + 5, 8 * k);
                lemma_bits_bound(b, 5 * m, 5 * m + 5);
                lemma_bits_bound(b, 5 * m + 5, 8 * k);
                lemma2_to64();
            }
            let scale: u32 = 1u32 << bits;
            let v: u32 = buf / scale;
            proof {
                let g = bits_value(b, 5 * m, 5 * m + 5);
                let r = bits_value(b, 5 * m + 5, 8 * k);
                vstd::arithmetic::div_mod::lemma_fundamental_div_mod_converse(
                    buf as int, scale as int, g as int, r as int);
            }
            push_char(&mut out, base32_digit_exec(v));
            buf = buf % scale;
            proof {
                assert(out@ =~= Seq::new(out@.len(), |i: int| base32_digit(bits_value(b, 5 * i, 5 * i + 5))));
            }
        }
    }
    if bits > 0 {
        let ghost m: int = out@.len() as int;
        proof {
            lemma_u32_pow2_no_overflow((5 - bits) as nat);
            lemma_u32_shl_is_mul(1, (5 - bits) as u32);
            lemma_bits_split(b, 5 * m, 8 * k, 5 * m + 5);
            lemma_bits_past_end(b, 8 * k, 5 * m + 5);
            lemma_bits_bound(b, 5 * m, 5 * m + 5);
            lemma2_to64();
        }
        let scale: u32 = 1u32 << (5 - bits);
        let v: u32 = buf * scale;
        push_char(&mut out, base32_digit_exec(v));
    }
    proof {
        assert(out@ =~= base32_spec(b));
    }
    out
}

// ---------------------------------------------------------------------------
// Key material.

/// The four big-endian bytes of `v` taken modulo 2^32 (two's complement for negatives).
pub open spec fn be32(v: int) -> Seq<u8> {
    let u = v % 0x1_0000_0000;
    seq![(u / 0x100_0000) as u8, ((u / 0x1_0000) % 0x100) as u8, ((u / 0x100) % 0x100) as u8, (u % 0x100) as u8]
}

fn push_be32(out: &mut Vec<u8>, u: u64)
    requires
        u < 0x1_0000_0000,
    ensures
        final(out)@ == old(out)@ + be32(u as int),
{
    out.push((u / 0x100_0000) as u8);
    out.push(((u / 0x1_0000) % 0x100) as u8);
    out.push(((u / 0x100) % 0x100) as u8);
    out.push((u % 0x100) as u8);
    proof {
        assert(out@ =~= old(out)@ + be32(u as int));
    }
}

fn push_i32_be(out: &mut Vec<u8>, v: i32)
    ensures
        final(out)@ == old(out)@ + be32(v as int),
{
    let u: u64 = if v < 0 { (v as i64 + 0x1_0000_0000) as u64 } else { v as u64 };
    proof {
        assert(u as int == (v as int) % 0x1_0000_0000);
    }
    push_be32(out, u);
}

/// The length of `field` as four big-endian bytes, then `field` itself. The
/// prefix keeps the split between consecutive variable-length fields unambiguous.
pub open spec fn len_prefixed(field: Seq<u8>) -> Seq<u8> {
    be32(field.len() as int) + field
}

proof fn lemma_be32_injective(u: int, v: int)
    requires
        0 <= u < 0x1_0000_0000,
        0 <= v < 0x1_0000_0000,
        be32(u) == be32(v),
    ensures
        u == v,
{
    assert(be32(u)[0] == be32(v)[0]);
    assert(be32(u)[1] == be32(v)[1]);
    assert(be32(u)[2] == be32(v)[2]);
    assert(be32(u)[3] == be32(v)[3]);
    assert(u == 0x100_0000 * (u / 0x100_0000) + 0x1_0000 * ((u / 0x1_0000) % 0x100) + 0x100 * ((u / 0x100) % 0x100) + u % 0x100)
        by (nonlinear_arith)
        requires
            0 <= u < 0x1_0000_0000,
    ;
    assert(v == 0x100_0000 * (v / 0x100_0000) + 0x1_0000 * ((v / 0x1_0000) % 0x100) + 0x100 * ((v / 0x100) % 0x100) + v % 0x100)
        by (nonlinear_arith)
        requires
            0 <= v < 0x1_0000_0000,
    ;
}

/// A length-prefixed field can be read back unambiguously: the prefix gives
/// the field's length, so the field and whatever follows it are recovered.
pub proof fn lemma_len_prefixed_unambiguous(a: Seq<u8>, b: Seq<u8>, rest_a: Seq<u8>, rest_b: Seq<u8>)
    requires
        a.len() < 0x1_0000_0000,
        b.len() < 0x1_0000_0000,
        len_prefixed(a) + rest_a == len_prefixed(b) + rest_b,
    ensures
        a == b,
        rest_a == rest_b,
{
    let x = len_prefixed(a) + rest_a;
    let y = len_prefixed(b) + rest_b;
    assert(x.take(4) =~= be32(a.len() as int));
    assert(y.take(4) =~= be32(b.len() as int));
    lemma_be32_injective(a.len() as int, b.len() as int);
    assert(x.subrange(4, 4 + a.len() as int) =~= a);
    assert(y.subrange(4, 4 + b.len() as int) =~= b);
    assert(x.skip(4 + a.len() as int) =~= rest_a);
    assert(y.skip(4 + b.len() as int) =~= rest_b);
}

/// Appends `field` to `out` behind its length prefix.
pub fn push_len_prefixed(out: &mut Vec<u8>, field: &[u8])
    ensures
        final(out)@ == old(out)@ + len_prefixed(field@),
{
    let n: u64 = (field.len() as u64) % 0x1_0000_0000;
    push_be32(out, n);
    push_bytes(out, field);
    proof {
        assert(be32(n as int) == be32(field@.len() as int));
        assert(out@ =~= old(out)@ + len_prefixed(field@));
    }
}

/// The key material from which the key for `(tag, id)` below `secret` is derived.
pub open spec fn key_material(secret: Seq<u8>, tag: Seq<char>, id: int) -> Seq<u8> {
    secret + len_prefixed(vstd::utf8::encode_utf8(tag)) + be32(id)
}

/// The four bytes of `v` (modulo 2^32), most significant first.
pub proof fn lemma_be32_bytes(v: int)
    ensures
        be32(v).len() == 4,
        be32(v)[0] * 0x100_0000 + be32(v)[1] * 0x1_0000 + be32(v)[2] * 0x100 + be32(v)[3] == v % 0x1_0000_0000,
{
    let u = v % 0x1_0000_0000;
    assert(u == 0x100_0000 * (u / 0x100_0000) + 0x1_0000 * ((u / 0x1_0000) % 0x100) + 0x100 * ((u / 0x100) % 0x100) + u % 0x100)
        by (nonlinear_arith)
        requires
            0 <= u < 0x1_0000_0000,
    ;
}

/// The material a content key is derived from: the secret, then the tag's
/// UTF-8 length as four big-endian bytes, then the tag's bytes, then the id
/// as four big-endian bytes (its two's-complement bits), always four.
pub proof fn lemma_key_material_layout(secret: Seq<u8>, tag: Seq<char>, id: i32)
    ensures ({
        let m = key_material(secret, tag, id as int);
        let t = vstd::utf8::encode_utf8(tag);
        let n = secret.len() as int;
        let e = n + 4 + t.len();
        &&& m.len() == n + 4 + t.len() + 4
        &&& m.take(n) == secret
        &&& m[n] * 0x100_0000 + m[n + 1] * 0x1_0000 + m[n + 2] * 0x100 + m[n + 3] == t.len() % 0x1_0000_0000
        &&& m.subrange(n + 4, e) == t
        &&& m[e] * 0x100_0000 + m[e + 1] * 0x1_0000 + m[e + 2] * 0x100 + m[e + 3] == (id as int) % 0x1_0000_0000
        &&& derive_key_spec(secret, tag, id as int) == blake3_derive_key(CTX_KEY@, m)
    }),
{
    let m = key_material(secret, tag, id as int);
    let t = vstd::utf8::encode_utf8(tag);
    let n = secret.len() as int;
    let e = n + 4 + t.len();
    lemma_be32_bytes(t.len() as int);
    lemma_be32_bytes(id as int);
    let lt = be32(t.len() as int);
    let bi = be32(id as int);
    assert(m =~= secret + lt + t + bi);
    assert(m.take(n) =~= secret);
    assert(m[n] == lt[0] && m[n + 1] == lt[1] && m[n + 2] == lt[2] && m[n + 3] == lt[3]);
    assert(m.subrange(n + 4, e) =~= t);
    assert(m[e] == bi[0] && m[e + 1] == bi[1] && m[e + 2] == bi[2] && m[e + 3] == bi[3]);
}

/// The key derived below `secret` for `(tag, id)`.
pub open spec fn derive_key_spec(secret: Seq<u8>, tag: Seq<char>, id: int) -> Seq<u8> {
    blake3_derive_key(CTX_KEY@, key_material(secret, tag, id))
}

/// The object-path prefix of resource `id` under `secret`: the first sixteen
/// bytes of a digest derived from the secret and the id, in base32.
pub open spec fn derive_url_spec(secret: Seq<u8>, id: int) -> Seq<char> {
    base32_spec(blake3_derive_key(CTX_PATH@, secret + be32(id)).take(PATH_BYTES as int))
}

/// The material an object-path prefix is derived from: the secret, then the
/// id as four big-endian bytes (its two's-complement bits), always four.
pub proof fn lemma_url_material_layout(secret: Seq<u8>, id: i32)
    ensures
        exists|m: Seq<u8>| {
            let n = secret.len() as int;
            &&& m.len() == n + 4
            &&& m.take(n) == secret
            &&& m[n] * 0x100_0000 + m[n + 1] * 0x1_0000 + m[n + 2] * 0x100 + m[n + 3] == (id as int) % 0x1_0000_0000
            &&& derive_url_spec(secret, id as int) == base32_spec(#[trigger] blake3_derive_key(CTX_PATH@, m).take(PATH_BYTES as int))
        },
{
    let n = secret.len() as int;
    let b = be32(id as int);
    lemma_be32_bytes(id as int);
    let m = secret + b;
    assert(m.take(n) =~= secret);
    assert(m[n] == b[0] && m[n + 1] == b[1] && m[n + 2] == b[2] && m[n + 3] == b[3]);
    assert(derive_url_spec(secret, id as int) == base32_spec(blake3_derive_key(CTX_PATH@, m).take(PATH_BYTES as int)));
}

/// The root key derived from caller-supplied secret material.
pub open spec fn base_key_spec(secret: Seq<u8>) -> Seq<u8> {
    blake3_derive_key(CTX_BASE@, secret)
}

/// Object-path prefix for `resource_id`; the stored object is `<prefix>_<version>`.
pub fn derive_url(secret: &[u8; 32], resource_id: i32) -> (url: String)
    ensures
        url@ == derive_url_spec(secret@, resource_id as int),
        url@.len() == 26,
        forall|i: int| 0 <= i < url@.len() ==> is_base32_char(#[trigger] url@[i]),
{
    let mut material: Vec<u8> = Vec::new();
    push_bytes(&mut material, secret);
    push_i32_be(&mut material, resource_id);
    let digest = blake3_derive(CTX_PATH, material.as_slice());
    let head = take_prefix(&digest, PATH_BYTES);
    proof {
        lemma_base32_alphabet(head@);
    }
    base32(head.as_slice())
}

fn take_prefix(bytes: &[u8], n: usize) -> (out: Vec<u8>)
    requires
        n <= bytes@.len(),
    ensures
        out@ == bytes@.take(n as int),
{
    let mut out: Vec<u8> = Vec::new();
    let mut i: usize = 0;
    while i < n
        invariant
            i <= n <= bytes@.len(),
            out@ == bytes@.take(i as int),
        decreases n - i,
    {
        out.push(bytes[i]);
        i = i + 1;
        proof {
            assert(bytes@.take(i as int) =~= bytes@.take(i - 1).push(bytes@[i - 1]));
        }
    }
    out
}

/// The content key below `secret` for the grant step `(tag, id)`.
pub fn derive_key(secret: &[u8; 32], tag: &str, id: i32) -> (key: [u8; 32])
    ensures
        key@ == derive_key_spec(secret@, tag@, id as int),
{
    let mut material: Vec<u8> = Vec::new();
    push_bytes(&mut material, secret);
    push_len_prefixed(&mut material, tag.as_bytes());
    push_i32_be(&mut material, id);
    proof {
        assert(material@ =~= key_material(secret@, tag@, id as int));
    }
    blake3_derive(CTX_KEY, material.as_slice())
}

/// Separates arbitrary caller-supplied secret material into the root key;
/// where that material comes from is the caller's business.
pub fn base_key(secret: &[u8]) -> (key: [u8; 32])
    ensures
        key@ == base_key_spec(secret@),
{
    blake3_derive(CTX_BASE, secret)
}

// ---------------------------------------------------------------------------
// Blobs.

/// `blob` is `plaintext` sealed under `key` with the given 12-byte `nonce`.
pub open spec fn blob_with_nonce(key: Seq<u8>, nonce: Seq<u8>, plaintext: Seq<u8>) -> Seq<u8> {
    magic() + nonce + aes256gcm_seal(key, nonce, plaintext)
}

/// `blob` is `plaintext` sealed under `key` with some nonce, and is as long
/// as a blob of that plaintext is.
pub open spec fn is_blob_of(key: Seq<u8>, plaintext: Seq<u8>, blob: Seq<u8>) -> bool {
    &&& blob.len() == plaintext.len() + MIN_BLOB_LEN
    &&& exists|nonce: Seq<u8>| nonce.len() == NONCE_LEN && blob == #[trigger] blob_with_nonce(key, nonce, plaintext)
}

/// Seals `plaintext` under `key` with the given nonce into the blob layout.
pub fn encrypt_with_nonce(key: &[u8; 32], nonce: &[u8; 12], plaintext: &[u8]) -> (blob: Vec<u8>)
    requires
        plaintext@.len() <= MAX_PLAINTEXT_LEN,
    ensures
        blob@ == blob_with_nonce(key@, nonce@, plaintext@),
        blob@.len() == plaintext@.len() + MIN_BLOB_LEN,
{
    let sealed = aes256gcm_encrypt(key, nonce, plaintext);
    let mut blob: Vec<u8> = Vec::new();
    blob.push(0x48u8);
    blob.push(0x55u8);
    blob.push(0x26u8);
    blob.push(0x54u8);
    push_bytes(&mut blob, nonce);
    push_bytes(&mut blob, sealed.as_slice());
    proof {
        assert(blob@ =~= blob_with_nonce(key@, nonce@, plaintext@));
    }
    blob
}

/// Encrypts one version's plaintext under a fresh random nonce. Compress
/// before calling this: ciphertext does not compress.
pub fn encrypt(key: &[u8; 32], plaintext: &[u8]) -> (blob: Vec<u8>)
    requires
        plaintext@.len() <= MAX_PLAINTEXT_LEN,
    ensures
        is_blob_of(key@, plaintext@, blob@),
        blob@.len() == plaintext@.len() + MIN_BLOB_LEN,
{
    let nonce = random_nonce();
    let blob = encrypt_with_nonce(key, &nonce, plaintext);
    proof {
        assert(blob@ == blob_with_nonce(key@, nonce@, plaintext@));
    }
    blob
}

/// Why a blob could not be opened.
#[derive(Debug, PartialEq, Eq, Structural)]
pub enum DecryptError {
    TooShort { len: usize, min: usize },
    BadMagic,
    /// Wrong secret, wrong version, or a corrupt blob: GCM cannot tell which.
    Decrypt,
}

impl DecryptError {
    /// The human-readable message for this error.
    pub fn to_message(&self) -> (msg: String)
        ensures
            msg@ == match self {
                DecryptError::TooShort { len, min } => "blob too short: "@ + decimal(*len as int) + " < "@ + decimal(*min as int),
                DecryptError::BadMagic => "bad magic: not a content blob"@,
                DecryptError::Decrypt => "decryption failed: wrong secret, wrong version, or corrupt blob"@,
            },
    {
        let mut msg = String::new();
        match self {
            DecryptError::TooShort { len, min } => {
                push_str(&mut msg, "blob too short: ");
                push_digits(&mut msg, *len as u64);
                push_str(&mut msg, " < ");
                push_digits(&mut msg, *min as u64);
            },
            DecryptError::BadMagic => {
                push_str(&mut msg, "bad magic: not a content blob");
            },
            DecryptError::Decrypt => {
                push_str(&mut msg, "decryption failed: wrong secret, wrong version, or corrupt blob");
            },
        }
        msg
    }
}

/// The outcome of opening `blob` under `key`, apart from the plaintext itself:
/// which error comes, or `None` where the blob is well-formed.
pub open spec fn blob_shape_error(blob: Seq<u8>) -> Option<DecryptError> {
    if blob.len() < MIN_BLOB_LEN {
        Some(DecryptError::TooShort { len: blob.len() as usize, min: MIN_BLOB_LEN })
    } else if blob.take(4) != magic() {
        Some(DecryptError::BadMagic)
    } else {
        None
    }
}

/// Decrypts a blob. A wrong key fails as loudly as a corrupt blob.
pub fn decrypt(key: &[u8; 32], blob: &[u8]) -> (res: Result<Vec<u8>, DecryptError>)
    ensures
        blob_shape_error(blob@) matches Some(e) ==> res == Err::<Vec<u8>, DecryptError>(e),
        blob_shape_error(blob@) is None ==> match res {
            Ok(p) => blob@ == blob_with_nonce(key@, blob@.subrange(4, 16), p@) && p@.len() <= MAX_PLAINTEXT_LEN,
            Err(e) => e == DecryptError::Decrypt
                && forall|p: Seq<u8>| p.len() <= MAX_PLAINTEXT_LEN ==> !is_blob_of(key@, p, blob@),
        },
        forall|p: Seq<u8>| p.len() <= MAX_PLAINTEXT_LEN && is_blob_of(key@, p, blob@) ==> (res matches Ok(q) && q@ == p),
{
    if blob.len() < MIN_BLOB_LEN {
        proof {
            assert forall|p: Seq<u8>| !is_blob_of(key@, p, blob@) by {}
        }
        return Err(DecryptError::TooShort { len: blob.len(), min: MIN_BLOB_LEN });
    }
    if !(blob[0] == 0x48u8 && blob[1] == 0x55u8 && blob[2] == 0x26u8 && blob[3] == 0x54u8) {
        proof {
            assert forall|p: Seq<u8>| !is_blob_of(key@, p, blob@) by {
                if is_blob_of(key@, p, blob@) {
                    let n = choose|n: Seq<u8>| n.len() == NONCE_LEN && blob@ == #[trigger] blob_with_nonce(key@, n, p);
                    assert(blob@[0] == 0x48u8);
                    assert(blob@[1] == 0x55u8);
                    assert(blob@[2] == 0x26u8);
                    assert(blob@[3] == 0x54u8);
                }
            }
            assert(blob@.take(4) != magic()) by {
                if blob@.take(4) == magic() {
                    assert(blob@.take(4)[0] == blob@[0]);
                    assert(blob@.take(4)[1] == blob@[1]);
                    assert(blob@.take(4)[2] == blob@[2]);
                    assert(blob@.take(4)[3] == blob@[3]);
                }
            }
        }
        return Err(DecryptError::BadMagic);
    }
    proof {
        assert(blob@.take(4) =~= magic());
    }
    let nonce: [u8; 12] = [blob[4], blob[5], blob[6], blob[7], blob[8], blob[9], blob[10], blob[11],
        blob[12], blob[13], blob[14], blob[15]];
    let sealed = skip_prefix(blob, MAGIC_NONCE_LEN);
    proof {
        assert(nonce@ =~= blob@.subrange(4, 16));
        assert(blob@ =~= magic() + nonce@ + sealed@);
        assert forall|n: Seq<u8>, p: Seq<u8>| n.len() == NONCE_LEN && blob@ == blob_with_nonce(key@, n, p)
            implies n == nonce@ && sealed@ == aes256gcm_seal(key@, nonce@, p) by {
            assert(n =~= blob@.subrange(4, 16));
            assert(sealed@ =~= blob@.skip(16));
            assert(blob_with_nonce(key@, n, p).skip(16) =~= aes256gcm_seal(key@, n, p));
        }
    }
    match aes256gcm_decrypt(key, &nonce, sealed.as_slice()) {
        Some(p) => Ok(p),
        None => Err(DecryptError::Decrypt),
    }
}

const MAGIC_NONCE_LEN: usize = 16;

fn skip_prefix(bytes: &[u8], n: usize) -> (out: Vec<u8>)
    requires
        n <= bytes@.len(),
    ensures
        out@ == bytes@.skip(n as int),
{
    let mut out: Vec<u8> = Vec::new();
    let mut i: usize = n;
    while i < bytes.len()
        invariant
            n <= i <= bytes@.len(),
            out@ == bytes@.subrange(n as int, i as int),
        decreases bytes.len() - i,
    {
        out.push(bytes[i]);
        i = i + 1;
        proof {
            assert(bytes@.subrange(n as int, i as int) =~= bytes@.subrange(n as int, i - 1).push(bytes@[i - 1]));
        }
    }
    proof {
        assert(bytes@.subrange(n as int, bytes@.len() as int) =~= bytes@.skip(n as int));
    }
    out
}

} // verus!
