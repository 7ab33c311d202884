//! Manifests: what an object consists of and where its shards are.
use vstd::prelude::*;

use crate::bytes;
use crate::codec;
use crate::keys;

verus! {

/// Where one shard of an object is kept.
#[derive(Debug, Clone, Copy, PartialEq, Eq)]
pub struct ShardPlacement {
    pub shard_index: u8,
    pub node_id: [u8; 32],
    pub blob_hash: [u8; 32],
}

/// What an object consists of.
#[derive(Debug, Clone, PartialEq, Eq)]
pub struct Manifest {
    pub bucket: String,
    pub key: String,
    pub object_hash: [u8; 32],
    pub original_size: u64,
    pub ciphertext_size: u64,
    pub k: u8,
    pub m: u8,
    pub shards: Vec<ShardPlacement>,
}

/// The blob hashes of some placements.
pub open spec fn blobs_of(shards: Seq<ShardPlacement>) -> Seq<Seq<u8>> {
    shards.map_values(|p: ShardPlacement| p.blob_hash@)
}

impl Manifest {
    /// The blob hashes of the shards, in their order.
    pub fn blobs(&self) -> (r: Vec<Vec<u8>>)
        ensures
            bytes::contents(r@) == blobs_of(self.shards@),
    {
        let mut out: Vec<Vec<u8>> = Vec::new();
        let mut i: usize = 0;
        while i < self.shards.len()
            invariant
                i <= self.shards@.len(),
                out@.len() == i,
                forall|j: int| 0 <= j < i ==> (#[trigger] out@[j])@ == self.shards@[j].blob_hash@,
            decreases self.shards@.len() - i,
        {
            out.push(bytes::array_to_vec(&self.shards[i].blob_hash));
            i = i + 1;
        }
        assert(bytes::contents(out@) =~= blobs_of(self.shards@));
        out
    }
}

/// Whether a signature of a manifest's bytes is the one that a secret key makes. It
/// is accepted under the key's public half, save for the degenerate one.
pub open spec fn signed_by(secret: Seq<u8>, manifest_bytes: Seq<u8>, signature: Seq<u8>) -> bool {
    &&& signature.len() == 64
    &&& signature == keys::signature_of(secret, manifest_bytes)
    &&& !keys::degenerate(signature) ==> keys::verifies(
        keys::public_of(secret),
        manifest_bytes,
        signature,
    )
}

/// Signs the bytes of a manifest. The signature is accepted under the signer's
/// public key, save for the degenerate one.
pub fn sign_manifest(manifest_bytes: &[u8], secret_key: &[u8; 32]) -> (r: [u8; 64])
    ensures
        signed_by(secret_key@, manifest_bytes@, r@),
{
    keys::sign(secret_key, manifest_bytes)
}

/// Whether a signature of a manifest's bytes is accepted under a public key.
pub fn verify_manifest(manifest_bytes: &[u8], signature: &[u8; 64], public_key: &[u8; 32]) -> (r:
    bool)
    ensures
        r == keys::verifies(public_key@, manifest_bytes@, signature@),
{
    keys::verify(public_key, manifest_bytes, signature)
}

/// The ETag of an object: its hash in hexadecimal.
pub fn etag_from_hash(hash: &[u8; 32]) -> (r: String)
    ensures
        r@ == codec::hex_text(hash@),
{
    codec::hex_encode(vstd::array::array_as_slice(hash))
}

/// The ETag of an object with the given contents.
pub fn etag_from_data(data: &[u8]) -> (r: String)
    ensures
        r@ == codec::hex_text(keys::digest_of(data@)),
{
    let hash = keys::digest(data);
    codec::hex_encode(vstd::array::array_as_slice(&hash))
}

} // verus!
