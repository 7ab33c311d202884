//! Authenticated encryption of shards under keys derived per object.
use chacha20poly1305::aead::{AeadInPlace, KeyInit, OsRng};
use chacha20poly1305::XChaCha20Poly1305;
use hkdf::Hkdf;
use rand::RngCore;
use sha2::Sha256;
use vstd::prelude::*;

use crate::bytes;
use crate::text;

verus! {

/// Length of a nonce.
pub const NONCE_LEN: usize = 24;

/// Length of an authentication tag.
pub const TAG_LEN: usize = 16;

/// 32 bytes of HKDF-SHA256 output for a salt, a secret and a purpose.
pub uninterp spec fn hkdf_of(salt: Seq<u8>, secret: Seq<u8>, purpose: Seq<u8>) -> Seq<u8>;

/// Some data sealed by XChaCha20-Poly1305: ciphertext and tag.
pub uninterp spec fn sealed_of(key: Seq<u8>, nonce: Seq<u8>, data: Seq<u8>) -> Seq<u8>;

/// What a sealed text opens to; none where its tag does not fit.
pub uninterp spec fn opened_of(key: Seq<u8>, nonce: Seq<u8>, sealed: Seq<u8>) -> Option<Seq<u8>>;

/// The data that one key and nonce can seal: the cipher numbers its 64-byte blocks
/// with 32 bits, and the first number and the last are not for data.
pub open spec fn sealable(len: nat) -> bool {
    len <= 64 * (u32::MAX - 1)
}

/// The one block too many: at these lengths the keystream ends within the data. No
/// text of such a length was ever sealed.
pub open spec fn runs_out(len: int) -> bool {
    64 * (u32::MAX - 1) < len < 64 * u32::MAX
}

/// `hkdf::Hkdf::<Sha256>::new` and `expand` to 32 bytes: a function of salt, secret
/// and purpose.
#[verifier::external_body]
fn hkdf_expand(salt: &[u8], secret: &[u8], purpose: &[u8]) -> (r: [u8; 32])
    ensures
        r@ == hkdf_of(salt@, secret@, purpose@),
{
    let mut output = [0u8; 32];
    Hkdf::<Sha256>::new(Some(salt), secret).expand(purpose, &mut output).unwrap();
    output
}

/// `chacha20poly1305::XChaCha20Poly1305::encrypt_in_place` without associated data:
/// a function of key, nonce and data. The tag adds 16 bytes, and opening the result
/// gives the data back.
#[verifier::external_body]
fn seal(key: &[u8; 32], nonce: &[u8; 24], data: &[u8]) -> (r: Vec<u8>)
    requires
        sealable(data@.len()),
    ensures
        r@ == sealed_of(key@, nonce@, data@),
        r@.len() == data@.len() + TAG_LEN,
        opened_of(key@, nonce@, r@) == Some(data@),
{
    let mut buf = data.to_vec();
    XChaCha20Poly1305::new(key.into()).encrypt_in_place(nonce.into(), &[], &mut buf).unwrap();
    buf
}

/// `chacha20poly1305::XChaCha20Poly1305::decrypt_in_place` without associated data:
/// a function of key, nonce and sealed text. What opens is 16 bytes shorter.
#[verifier::external_body]
fn open(key: &[u8; 32], nonce: &[u8; 24], sealed: &[u8]) -> (r: Option<Vec<u8>>)
    requires
        !runs_out(sealed@.len() - TAG_LEN),
    ensures
        r is Some <==> opened_of(key@, nonce@, sealed@) is Some,
        r matches Some(data) ==> opened_of(key@, nonce@, sealed@) == Some(data@) && sealed@.len()
            == data@.len() + TAG_LEN,
{
    let mut buf = sealed.to_vec();
    let cipher = XChaCha20Poly1305::new(key.into());
    cipher.decrypt_in_place(nonce.into(), &[], &mut buf).ok().map(|_| buf)
}

/// `OsRng::fill_bytes`: 24 bytes from the operating system's generator. Nothing is
/// said of them.
#[verifier::external_body]
fn random_nonce() -> (r: [u8; 24]) {
    let mut nonce = [0u8; 24];
    OsRng.fill_bytes(&mut nonce);
    nonce
}

/// What the derived keys are for.
pub open spec fn purpose() -> Seq<u8> {
    vstd::utf8::encode_utf8("arkel-shard-key"@)
}

/// The key of an object: derived from the master key, salted with the object's hash.
pub open spec fn object_key(master: Seq<u8>, object_hash: Seq<u8>) -> Seq<u8> {
    hkdf_of(object_hash, master, purpose())
}

/// Derives the key of an object.
pub fn derive_key(master_key: &[u8; 32], object_hash: &[u8; 32]) -> (r: [u8; 32])
    ensures
        r@ == object_key(master_key@, object_hash@),
{
    hkdf_expand(
        vstd::array::array_as_slice(object_hash),
        vstd::array::array_as_slice(master_key),
        "arkel-shard-key".as_bytes(),
    )
}

/// Why a shard could not be decrypted.
#[derive(Debug, Clone, Copy, PartialEq, Eq, Structural)]
pub enum DecryptError {
    /// There is not even a nonce.
    TooShort,
    /// The tag does not fit.
    Failed,
}

impl DecryptError {
    /// What went wrong, in words.
    pub open spec fn words(&self) -> Seq<char> {
        match *self {
            DecryptError::TooShort => "encrypted shard too short (missing nonce)"@,
            DecryptError::Failed => "decryption failed: wrong key or corrupted data"@,
        }
    }

    /// What went wrong, in words.
    pub fn message(&self) -> (r: String)
        ensures
            r@ == self.words(),
    {
        match self {
            DecryptError::TooShort => text::owned("encrypted shard too short (missing nonce)"),
            DecryptError::Failed => text::owned("decryption failed: wrong key or corrupted data"),
        }
    }
}

/// An encrypted shard: the nonce, then the sealed data.
pub open spec fn encrypted_with(data: Seq<u8>, key: Seq<u8>, nonce: Seq<u8>) -> Seq<u8> {
    nonce + sealed_of(key, nonce, data)
}

/// What an encrypted shard holds.
pub open spec fn decrypted(encrypted: Seq<u8>, key: Seq<u8>) -> Result<Seq<u8>, DecryptError> {
    if encrypted.len() < NONCE_LEN {
        Err(DecryptError::TooShort)
    } else if runs_out(encrypted.len() - NONCE_LEN - TAG_LEN) {
        Err(DecryptError::Failed)
    } else {
        match opened_of(key, encrypted.take(24), encrypted.skip(24)) {
            Some(data) => Ok(data),
            None => Err(DecryptError::Failed),
        }
    }
}

/// Encrypts a shard under a given nonce.
pub fn encrypt_with_nonce(data: &[u8], key: &[u8; 32], nonce: &[u8; 24]) -> (r: Vec<u8>)
    requires
        sealable(data@.len()),
    ensures
        r@ == encrypted_with(data@, key@, nonce@),
        r@.len() == data@.len() + NONCE_LEN + TAG_LEN,
        decrypted(r@, key@) == Ok::<Seq<u8>, DecryptError>(data@),
{
    let sealed = seal(key, nonce, data);
    let mut out: Vec<u8> = bytes::to_vec(vstd::array::array_as_slice(nonce));
    out.extend_from_slice(sealed.as_slice());
    assert(out@ =~= nonce@ + sealed@);
    assert(out@.take(24) =~= nonce@);
    assert(out@.skip(24) =~= sealed@);
    out
}

/// Encrypts a shard under a fresh nonce. What comes out decrypts to the shard.
pub fn encrypt_shard(data: &[u8], key: &[u8; 32]) -> (r: Vec<u8>)
    requires
        sealable(data@.len()),
    ensures
        r@.len() == data@.len() + NONCE_LEN + TAG_LEN,
        r@ == encrypted_with(data@, key@, r@.take(24)),
        decrypted(r@, key@) == Ok::<Seq<u8>, DecryptError>(data@),
{
    let nonce = random_nonce();
    let r = encrypt_with_nonce(data, key, &nonce);
    assert(r@.take(24) =~= nonce@);
    r
}

/// Decrypts a shard: the first 24 bytes are the nonce, the rest is sealed.
pub fn decrypt_shard(encrypted: &[u8], key: &[u8; 32]) -> (r: Result<Vec<u8>, DecryptError>)
    ensures
        match decrypted(encrypted@, key@) {
            Ok(data) => r is Ok && r->Ok_0@ == data && encrypted@.len() == data.len() + NONCE_LEN
                + TAG_LEN,
            Err(e) => r == Err::<Vec<u8>, DecryptError>(e),
        },
{
    if encrypted.len() < NONCE_LEN {
        return Err(DecryptError::TooShort);
    }
    let len: u64 = encrypted.len() as u64;
    if 64 * (u32::MAX as u64 - 1) + 40 < len && len < 64 * (u32::MAX as u64) + 40 {
        return Err(DecryptError::Failed);
    }
    let mut nonce: [u8; 24] = [0u8; 24];
    let mut i: usize = 0;
    while i < 24
        invariant
            i <= 24 <= encrypted@.len(),
            nonce@.len() == 24,
            forall|j: int| 0 <= j < i ==> nonce@[j] == encrypted@[j],
        decreases 24 - i,
    {
        nonce[i] = encrypted[i];
        i = i + 1;
    }
    assert(nonce@ =~= encrypted@.take(24));
    let sealed = vstd::slice::slice_subrange(encrypted, 24, encrypted.len());
    assert(sealed@ =~= encrypted@.skip(24));
    match open(key, &nonce, sealed) {
        Some(data) => Ok(data),
        None => Err(DecryptError::Failed),
    }
}

} // verus!
