//! Encryption of shards and derivation of keys.
use arkel::client::encrypt::{
    decrypt_shard, derive_key, encrypt_shard, encrypt_with_nonce, DecryptError, NONCE_LEN, TAG_LEN,
};
use chacha20poly1305::aead::AeadInPlace;
use chacha20poly1305::{KeyInit, XChaCha20Poly1305};

#[test]
fn roundtrip() {
    let key = [0u8; 32];
    let data = b"hello world";
    let enc = encrypt_shard(data, &key);
    let dec = decrypt_shard(&enc, &key).unwrap();
    assert_eq!(dec, data);
}

#[test]
fn wrong_key_fails() {
    let key1 = [1u8; 32];
    let key2 = [2u8; 32];
    let data = b"test";
    let enc = encrypt_shard(data, &key1);
    assert!(decrypt_shard(&enc, &key2).is_err());
}

#[test]
fn ciphertext_is_nonce_then_sealed_data() {
    let key = [7u8; 32];
    let nonce = [9u8; 24];
    let enc = encrypt_with_nonce(b"abc", &key, &nonce);
    assert_eq!(enc.len(), 3 + NONCE_LEN + TAG_LEN);
    assert_eq!(&enc[..24], &nonce[..]);
    let mut buf = b"abc".to_vec();
    XChaCha20Poly1305::new((&key).into())
        .encrypt_in_place((&nonce).into(), &[], &mut buf)
        .unwrap();
    assert_eq!(&enc[24..], &buf[..]);
    assert_ne!(&enc[24..27], &b"abc"[..]);
    assert_eq!(decrypt_shard(&enc, &key).unwrap(), b"abc");
}

#[test]
fn fresh_nonces_differ() {
    let key = [3u8; 32];
    let a = encrypt_shard(b"same", &key);
    let b = encrypt_shard(b"same", &key);
    assert_ne!(a[..24], b[..24]);
    assert_eq!(decrypt_shard(&a, &key).unwrap(), decrypt_shard(&b, &key).unwrap());
}

#[test]
fn empty_data_is_encrypted() {
    let key = [3u8; 32];
    let enc = encrypt_shard(b"", &key);
    assert_eq!(enc.len(), 40);
    assert_eq!(decrypt_shard(&enc, &key).unwrap(), Vec::<u8>::new());
}

#[test]
fn short_and_damaged_shards_are_refused() {
    let key = [4u8; 32];
    let short = decrypt_shard(&[0u8; 23], &key).unwrap_err();
    assert_eq!(short, DecryptError::TooShort);
    assert_eq!(short.message(), "encrypted shard too short (missing nonce)");
    let tagless = decrypt_shard(&[0u8; 24], &key).unwrap_err();
    assert_eq!(tagless, DecryptError::Failed);
    let mut enc = encrypt_shard(b"data", &key);
    let last = enc.len() - 1;
    enc[last] ^= 1;
    let damaged = decrypt_shard(&enc, &key).unwrap_err();
    assert_eq!(damaged, DecryptError::Failed);
    assert_eq!(damaged.message(), "decryption failed: wrong key or corrupted data");
}

#[test]
fn keys_are_derived_per_object() {
    let master = [5u8; 32];
    let hash = [6u8; 32];
    let derived = derive_key(&master, &hash);
    let mut expected = [0u8; 32];
    hkdf::Hkdf::<sha2::Sha256>::new(Some(&hash), &master)
        .expand(b"arkel-shard-key", &mut expected)
        .unwrap();
    assert_eq!(derived, expected);
    assert_ne!(derived, master);
    assert_ne!(derived, derive_key(&master, &[7u8; 32]));
    assert_ne!(derived, derive_key(&[8u8; 32], &hash));
}
