//! Keys, signatures and digests.
//!
//! A key is its 32 bytes, a signature its 64 bytes, a digest its 32 bytes.
use vstd::prelude::*;

use crate::codec;

verus! {

/// The public key that belongs to a secret key.
pub uninterp spec fn public_of(secret: Seq<u8>) -> Seq<u8>;

/// Whether 32 bytes are the encoding of a public key.
pub uninterp spec fn valid_key(key: Seq<u8>) -> bool;

/// The signature of a message under a secret key.
pub uninterp spec fn signature_of(secret: Seq<u8>, message: Seq<u8>) -> Seq<u8>;

/// Whether a signature of a message is accepted under a public key.
pub uninterp spec fn verifies(key: Seq<u8>, message: Seq<u8>, signature: Seq<u8>) -> bool;

/// The public key that a text denotes.
pub uninterp spec fn parsed_key(s: Seq<char>) -> Option<Seq<u8>>;

/// The BLAKE3 digest of some data.
pub uninterp spec fn digest_of(data: Seq<u8>) -> Seq<u8>;

/// Whether the first half of a signature encodes the neutral point of the curve.
/// A signature comes out so only where its secret nonce is zero, and strict
/// verification then turns it down.
pub open spec fn degenerate(signature: Seq<u8>) -> bool {
    signature.take(32) == Seq::new(
        32,
        |i: int|
            if i == 0 {
                1u8
            } else {
                0u8
            },
    )
}

/// `iroh::SecretKey::public`: a function of the secret key, whose bytes
/// `iroh::PublicKey::from_bytes` takes.
#[verifier::external_body]
pub(crate) fn public_key(secret: &[u8; 32]) -> (r: [u8; 32])
    ensures
        r@ == public_of(secret@),
        valid_key(r@),
{
    *iroh::SecretKey::from_bytes(secret).public().as_bytes()
}

/// `iroh::SecretKey::generate`: a fresh secret key. Nothing is said of its bytes.
#[verifier::external_body]
pub(crate) fn random_secret() -> (r: [u8; 32]) {
    iroh::SecretKey::generate().to_bytes()
}

/// `iroh::PublicKey::from_bytes`: whether it takes the bytes.
#[verifier::external_body]
pub(crate) fn is_key(key: &[u8; 32]) -> (r: bool)
    ensures
        r == valid_key(key@),
{
    iroh::PublicKey::from_bytes(key).is_ok()
}

/// `iroh::PublicKey`'s `FromStr`: a function of the text. What comes out is a
/// public key, and 64 lower-case hexadecimal digits that spell the bytes of a
/// public key give that key.
#[verifier::external_body]
pub(crate) fn key_from_text(s: &str) -> (r: Option<[u8; 32]>)
    ensures
        r is Some <==> parsed_key(s@) is Some,
        r matches Some(k) ==> parsed_key(s@) == Some(k@) && valid_key(k@),
        forall|k: Seq<u8>|
            k.len() == 32 && valid_key(k) && s@ == #[trigger] codec::hex_text(k) ==> r is Some
                && r->0@ == k,
{
    s.parse::<iroh::PublicKey>().ok().map(|k| *k.as_bytes())
}

/// `iroh::PublicKey`'s `Display`: the bytes in lower-case hexadecimal.
#[verifier::external_body]
pub(crate) fn key_text(key: &[u8; 32]) -> (r: String)
    requires
        valid_key(key@),
    ensures
        r@ == codec::hex_text(key@),
{
    iroh::PublicKey::from_bytes(key).unwrap().to_string()
}

/// `iroh::SecretKey::sign`: a function of key and message. The signature is
/// accepted under the key's public half, save for the degenerate one.
#[verifier::external_body]
pub(crate) fn sign(secret: &[u8; 32], message: &[u8]) -> (r: [u8; 64])
    ensures
        r@ == signature_of(secret@, message@),
        !degenerate(r@) ==> verifies(public_of(secret@), message@, r@),
{
    iroh::SecretKey::from_bytes(secret).sign(message).to_bytes()
}

/// `iroh::PublicKey::verify`: a function of key, message and signature; bytes
/// that are no public key accept nothing.
#[verifier::external_body]
pub(crate) fn verify(key: &[u8; 32], message: &[u8], signature: &[u8; 64]) -> (r: bool)
    ensures
        r == verifies(key@, message@, signature@),
        r ==> valid_key(key@),
{
    let signature = iroh::Signature::from_bytes(signature);
    iroh::PublicKey::from_bytes(key).is_ok_and(|k| k.verify(message, &signature).is_ok())
}

/// `blake3::hash`: a function of the data.
#[verifier::external_body]
pub(crate) fn digest(data: &[u8]) -> (r: [u8; 32])
    ensures
        r@ == digest_of(data@),
{
    *blake3::hash(data).as_bytes()
}

} // verus!
