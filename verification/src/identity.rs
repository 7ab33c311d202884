//! The identity of a node: a secret key and what derives from it.
use std::collections::hash_map::DefaultHasher;
use std::hash::Hasher;
use vstd::prelude::*;
use vstd::std_specs::hash::DefaultHasherAdditionalSpecFns;

use crate::bytes;
use crate::codec;
use crate::keys;
use crate::text;

verus! {

/// The number that a consensus group knows a public key by: its first eight bytes,
/// least significant first.
pub open spec fn raft_id(key: Seq<u8>) -> int {
    key[0] + 0x100 * key[1] + 0x1_0000 * key[2] + 0x100_0000 * key[3] + 0x1_0000_0000 * key[4]
        + 0x100_0000_0000 * key[5] + 0x1_0000_0000_0000 * key[6] + 0x100_0000_0000_0000 * key[7]
}

/// The part of a full address that names the key: what stands before the first `@`,
/// or all of it.
pub open spec fn key_part(addr: Seq<char>) -> Seq<char> {
    match text::split_once(addr, '@') {
        Some((key, _)) => key,
        None => addr,
    }
}

/// The number for an address whose key cannot be read: a hash of its text.
pub open spec fn fallback_id(addr: Seq<char>) -> u64 {
    DefaultHasher::spec_finish(seq![vstd::utf8::encode_utf8(addr), seq![0xffu8]])
}

/// The secret key of a node.
pub struct NodeIdentity {
    secret: [u8; 32],
}

/// A stored key that does not have 32 bytes.
#[derive(Debug, Clone, Copy, PartialEq, Eq, Structural)]
pub struct CorruptKey;

impl CorruptKey {
    /// What went wrong, in words.
    pub fn message(&self) -> (r: String)
        ensures
            r@ == "Identity key on disk is corrupted (must be exactly 32 bytes)"@,
    {
        text::owned("Identity key on disk is corrupted (must be exactly 32 bytes)")
    }
}

impl NodeIdentity {
    /// The bytes of the secret key.
    pub closed spec fn secret(&self) -> Seq<u8> {
        self.secret@
    }

    /// A new identity, with a random key.
    pub fn generate() -> (r: Self)
        ensures
            r.secret().len() == 32,
    {
        NodeIdentity { secret: keys::random_secret() }
    }

    /// The identity with a stored key.
    pub fn from_stored(stored: &[u8]) -> (r: Result<Self, CorruptKey>)
        ensures
            r is Ok <==> stored@.len() == 32,
            r matches Ok(id) ==> id.secret() == stored@,
    {
        match bytes::to_array32(stored) {
            Some(secret) => Ok(NodeIdentity { secret }),
            None => Err(CorruptKey),
        }
    }

    /// The secret key, as it is stored.
    pub fn secret_key(&self) -> (r: &[u8; 32])
        ensures
            r@ == self.secret(),
    {
        &self.secret
    }

    /// The public key, by which others know the node.
    pub fn node_id(&self) -> (r: [u8; 32])
        ensures
            r@ == keys::public_of(self.secret()),
            keys::valid_key(r@),
    {
        keys::public_key(&self.secret)
    }

    /// The number that the consensus group knows the node by.
    pub fn raft_node_id(&self) -> (r: u64)
        ensures
            r == raft_id(keys::public_of(self.secret())),
    {
        raft_node_id_from_pubkey(&self.node_id())
    }

    /// The node's full address: `<public key>@<ip>:<port>`.
    pub fn raft_full_addr(&self, addr: &str) -> (r: String)
        ensures
            r@ == codec::hex_text(keys::public_of(self.secret())) + "@"@ + addr@,
    {
        let key = self.node_id();
        text::join3(keys::key_text(&key).as_str(), "@", addr)
    }
}

/// The number that the consensus group knows a public key by.
pub fn raft_node_id_from_pubkey(pubkey: &[u8; 32]) -> (r: u64)
    ensures
        r == raft_id(pubkey@),
{
    pubkey[0] as u64 + 0x100 * (pubkey[1] as u64) + 0x1_0000 * (pubkey[2] as u64) + 0x100_0000 * (
    pubkey[3] as u64) + 0x1_0000_0000 * (pubkey[4] as u64) + 0x100_0000_0000 * (pubkey[5] as u64)
        + 0x1_0000_0000_0000 * (pubkey[6] as u64) + 0x100_0000_0000_0000 * (pubkey[7] as u64)
}

/// The number that a full address denotes.
pub open spec fn raft_id_of_addr(addr: Seq<char>) -> int {
    match keys::parsed_key(key_part(addr)) {
        Some(key) => raft_id(key),
        None => fallback_id(addr) as int,
    }
}

/// The number that a full address (`<public key>@<ip>:<port>`) denotes. For the full
/// address of a node it is the number of that node.
pub fn raft_node_id_from_addr(addr: &str) -> (r: u64)
    ensures
        r == raft_id_of_addr(addr@),
        forall|key: Seq<u8>, host: Seq<char>|
            key.len() == 32 && keys::valid_key(key) && addr@ == #[trigger] (codec::hex_text(key)
                + "@"@ + host) ==> r == raft_id(key),
{
    let id_text = match text::split_at_char(addr, '@') {
        Some((key, _)) => key,
        None => text::owned(addr),
    };
    let found = keys::key_from_text(id_text.as_str());
    proof {
        reveal_strlit("@");
        assert forall|key: Seq<u8>, host: Seq<char>|
            key.len() == 32 && keys::valid_key(key) && addr@ == #[trigger] (codec::hex_text(key)
                + "@"@ + host) implies found is Some && found->0@ == key by {
            let h = codec::hex_text(key);
            assert("@"@ =~= seq!['@']);
            assert(!h.contains('@')) by {
                if h.contains('@') {
                    let i = choose|i: int| 0 <= i < h.len() && h[i] == '@';
                    codec::lemma_hex_chars(key, i);
                }
            }
            text::lemma_split_once(h, '@', host);
            assert(id_text@ == h);
        }
    }
    match found {
        Some(key) => raft_node_id_from_pubkey(&key),
        None => {
            let mut hasher = DefaultHasher::new();
            let end: [u8; 1] = [0xffu8];
            hasher.write(addr.as_bytes());
            hasher.write(vstd::array::array_as_slice(&end));
            proof {
                assert(end@ =~= seq![0xffu8]);
                assert(hasher@ =~= seq![vstd::utf8::encode_utf8(addr@), seq![0xffu8]]);
            }
            hasher.finish()
        },
    }
}

} // verus!
