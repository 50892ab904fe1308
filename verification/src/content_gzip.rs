//! Compression of plaintext before it is sealed (ciphertext does not compress),
//! and the digest of a resource's raw content.

use vstd::prelude::*;
use std::io::{Read, Write};
use flate2::{Compression, read::GzDecoder, write::GzEncoder};
use crate::crypto::{is_blob_of, derive_url_spec, MAX_PLAINTEXT_LEN};
use crate::resource::{path_view, DerivedKey, Encrypted};
use crate::resource_id::ResourceId;

verus! {

/// Declares `std::io::Error`, the error of a failed decompression.
#[verifier::external_type_specification]
#[verifier::external_body]
pub struct ExIoError(std::io::Error);

/// What `flate2::write::GzEncoder` at the best compression level writes for `data`.
pub uninterp spec fn gzip_bytes(data: Seq<u8>) -> Seq<u8>;

/// What `flate2::read::GzDecoder` reads out of `data`, or `None` where it fails.
pub uninterp spec fn gunzip_bytes(data: Seq<u8>) -> Option<Seq<u8>>;

/// What `blake3::hash` returns for `data`, as its 32 bytes.
pub uninterp spec fn blake3_hash(data: Seq<u8>) -> Seq<u8>;

/// Compresses `input` into one gzip member at the best compression level
/// (`flate2::write::GzEncoder`); the result is named `gzip_bytes` (the encoder
/// is deterministic and writes a fixed header without a timestamp). Also
/// claims that decompressing the result gives back `input`, the round trip
/// the gzip format guarantees. Writing into a `Vec` cannot fail.
#[verifier::external_body]
pub fn gzip(input: &[u8]) -> (gz: Vec<u8>)
    ensures
        gz@ == gzip_bytes(input@),
        gunzip_bytes(gz@) == Some(input@),
{
    let mut encoder = GzEncoder::new(Vec::new(), Compression::best());
    encoder.write_all(input).expect("write to a Vec does not fail");
    encoder.finish().expect("write to a Vec does not fail")
}

/// Decompresses a gzip member with `flate2::read::GzDecoder`; its result is
/// named `gunzip_bytes`.
#[verifier::external_body]
pub fn ungzip(input: &[u8]) -> (raw: std::io::Result<Vec<u8>>)
    ensures
        raw is Ok <==> gunzip_bytes(input@) is Some,
        raw matches Ok(v) ==> gunzip_bytes(input@) == Some(v@),
{
    let mut decoder = GzDecoder::new(input);
    let mut output = Vec::new();
    decoder.read_to_end(&mut output)?;
    Ok(output)
}

/// Hashes `data` with `blake3::hash`; its result is named `blake3_hash`.
#[verifier::external_body]
pub(crate) fn blake3_digest(data: &[u8]) -> (digest: [u8; 32])
    ensures
        digest@ == blake3_hash(data@),
{
    *blake3::hash(data).as_bytes()
}

/// Content of one resource, compressed and digested, waiting for its key.
pub struct PrepareToEncrypt {
    pub resource_id: ResourceId,
    pub gz: Vec<u8>,
    pub digest: [u8; 32],
}

impl PrepareToEncrypt {
    /// Compresses `raw` and records the digest of the uncompressed content.
    pub fn new(resource_id: ResourceId, raw: &[u8]) -> (p: Self)
        ensures
            p.resource_id == resource_id,
            p.gz@ == gzip_bytes(raw@),
            gunzip_bytes(p.gz@) == Some(raw@),
            p.digest@ == blake3_hash(raw@),
    {
        let gz = gzip(raw);
        PrepareToEncrypt { resource_id, gz, digest: blake3_digest(raw) }
    }

    /// Seals the compressed content under `key`, with the object-path prefix
    /// of the resource under that key.
    pub fn encrypt(self, key: &DerivedKey) -> (e: Encrypted)
        requires
            self.gz@.len() <= MAX_PLAINTEXT_LEN,
        ensures
            is_blob_of(key.key(), self.gz@, e.encrypted@),
            path_view(e.derive_path@) == key.path(),
            e.url_prefix@ == derive_url_spec(key.key(), self.resource_id.id() as int),
    {
        let (encrypted, derive_path) = key.encrypt(self.gz.as_slice());
        let url_prefix = key.url_prefix(self.resource_id.get());
        Encrypted { encrypted, derive_path, url_prefix }
    }
}

} // verus!
