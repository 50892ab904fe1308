use hut_content_schema::crypto::{
    base32, base_key, decrypt, derive_key, derive_url, encrypt, encrypt_with_nonce, push_len_prefixed, DecryptError,
    CTX_BASE, CTX_KEY, CTX_PATH, MIN_BLOB_LEN,
};

#[test]
fn base32_matches_rfc4648_vectors_lowercased_unpadded() {
    assert_eq!(base32(b""), "");
    assert_eq!(base32(b"f"), "my");
    assert_eq!(base32(b"fo"), "mzxq");
    assert_eq!(base32(b"foo"), "mzxw6");
    assert_eq!(base32(b"foob"), "mzxw6yq");
    assert_eq!(base32(b"fooba"), "mzxw6ytb");
    assert_eq!(base32(b"foobar"), "mzxw6ytboi");
    assert_eq!(base32(&[0xff; 5]), "77777777");
    assert_eq!(base32(&[0u8; 16]).len(), 26);
}

#[test]
fn length_prefix_is_big_endian_u32() {
    let mut out = vec![9u8];
    push_len_prefixed(&mut out, b"abc");
    assert_eq!(out, vec![9, 0, 0, 0, 3, b'a', b'b', b'c']);
    let mut empty = Vec::new();
    push_len_prefixed(&mut empty, b"");
    assert_eq!(empty, vec![0, 0, 0, 0]);
}

#[test]
fn derive_key_hashes_secret_tag_and_id_under_the_key_context() {
    let secret = [7u8; 32];
    let mut material = secret.to_vec();
    material.extend_from_slice(&5u32.to_be_bytes());
    material.extend_from_slice(b"Indep");
    material.extend_from_slice(&(-3i32).to_be_bytes());
    assert_eq!(derive_key(&secret, "Indep", -3), blake3::derive_key(CTX_KEY, &material));
    assert_ne!(derive_key(&secret, "Indep", 1), derive_key(&secret, "Purchase", 1));
    assert_ne!(derive_key(&secret, "Indep", 1), secret);
}

#[test]
fn derive_url_is_base32_of_a_path_digest_prefix() {
    let secret = [1u8; 32];
    let mut material = secret.to_vec();
    material.extend_from_slice(&902i32.to_be_bytes());
    let digest = blake3::derive_key(CTX_PATH, &material);
    let url = derive_url(&secret, 902);
    assert_eq!(url, base32(&digest[..16]));
    assert_eq!(url.len(), 26);
    assert_ne!(derive_url(&secret, 902), derive_url(&secret, 903));
}

#[test]
fn base_key_separates_secret_material() {
    assert_eq!(base_key(b"secret"), blake3::derive_key(CTX_BASE, b"secret"));
    assert_ne!(base_key(b"secret").to_vec(), b"secret".to_vec());
}

#[test]
fn encrypt_then_decrypt_gives_back_the_plaintext() {
    let key = [3u8; 32];
    let blob = encrypt(&key, b"hello puzzle");
    assert_eq!(&blob[..4], b"HU&T");
    assert_eq!(blob.len(), b"hello puzzle".len() + MIN_BLOB_LEN);
    assert_eq!(decrypt(&key, &blob), Ok(b"hello puzzle".to_vec()));
    let empty = encrypt(&key, b"");
    assert_eq!(decrypt(&key, &empty), Ok(Vec::new()));
}

#[test]
fn encryption_with_a_fixed_nonce_is_deterministic_and_not_the_plaintext() {
    let key = [4u8; 32];
    let nonce = [9u8; 12];
    let a = encrypt_with_nonce(&key, &nonce, b"abc");
    let b = encrypt_with_nonce(&key, &nonce, b"abc");
    assert_eq!(a, b);
    assert_eq!(&a[4..16], &nonce);
    assert_ne!(&a[16..19], b"abc");
    assert_eq!(decrypt(&key, &a), Ok(b"abc".to_vec()));
}

#[test]
fn decrypt_reports_each_kind_of_failure() {
    let key = [5u8; 32];
    assert_eq!(decrypt(&key, b"HU&T"), Err(DecryptError::TooShort { len: 4, min: 32 }));
    let mut blob = encrypt(&key, b"content");
    assert_eq!(decrypt(&[6u8; 32], &blob), Err(DecryptError::Decrypt));
    let last = blob.len() - 1;
    blob[last] ^= 1;
    assert_eq!(decrypt(&key, &blob), Err(DecryptError::Decrypt));
    blob[0] = b'X';
    assert_eq!(decrypt(&key, &blob), Err(DecryptError::BadMagic));
}

#[test]
fn decrypt_error_messages() {
    assert_eq!(DecryptError::TooShort { len: 4, min: 32 }.to_message(), "blob too short: 4 < 32");
    assert_eq!(DecryptError::BadMagic.to_message(), "bad magic: not a content blob");
    assert_eq!(
        DecryptError::Decrypt.to_message(),
        "decryption failed: wrong secret, wrong version, or corrupt blob"
    );
}
