//! The gateway's pipeline: an object is cut into shards first, and each shard is
//! encrypted for itself.
use vstd::prelude::*;

use crate::bytes;
use crate::client::encrypt;
use crate::client::encrypt::DecryptError;
use crate::dataplane;
use crate::dataplane::erasure;
use crate::dataplane::erasure::{CodecError, ErasureConfig, Pieces};
use crate::dataplane::PipelineError;
use crate::keys;

verus! {

/// An object made ready for upload.
#[derive(Debug)]
pub struct PreparedUpload {
    pub encrypted_shards: Vec<Vec<u8>>,
    pub shard_hashes: Vec<[u8; 32]>,
    pub erasure_config: ErasureConfig,
}

/// The shards that some encrypted shards hold; the first that does not decrypt is an
/// error.
pub open spec fn opened(pieces: Pieces, key: Seq<u8>) -> Result<Pieces, DecryptError>
    decreases pieces.len(),
{
    if pieces.len() == 0 {
        Ok(seq![])
    } else {
        match opened(pieces.drop_last(), key) {
            Err(e) => Err(e),
            Ok(before) => match pieces.last() {
                None => Ok(before.push(None)),
                Some(s) => match encrypt::decrypted(s, key) {
                    Err(e) => Err(e),
                    Ok(plain) => Ok(before.push(Some(plain))),
                },
            },
        }
    }
}

/// The object that some encrypted shards give back.
pub open spec fn reconstructed(
    pieces: Pieces,
    config: ErasureConfig,
    master: Seq<u8>,
    object_hash: Seq<u8>,
    original_len: nat,
) -> Result<Seq<u8>, PipelineError> {
    match opened(pieces, encrypt::object_key(master, object_hash)) {
        Err(e) => Err(PipelineError::Decrypt(e)),
        Ok(plain) => match erasure::decoded(plain, config, original_len) {
            Err(e) => Err(PipelineError::Decode(e)),
            Ok(data) => if keys::digest_of(data) == object_hash {
                Ok(data)
            } else {
                Err(PipelineError::Integrity)
            },
        },
    }
}

/// Whether each encrypted shard decrypts to the plain one in its place.
pub open spec fn decrypt_to(encrypted: Seq<Seq<u8>>, plain: Seq<Seq<u8>>, key: Seq<u8>) -> bool {
    encrypted.len() == plain.len() && forall|i: int|
        0 <= i < plain.len() ==> encrypt::decrypted(#[trigger] encrypted[i], key) == Ok::<
            Seq<u8>,
            DecryptError,
        >(plain[i])
}

/// Whether each encrypted shard is the plain one in its place, encrypted under the
/// nonce that it begins with.
pub open spec fn encrypted_from(encrypted: Seq<Seq<u8>>, plain: Seq<Seq<u8>>, key: Seq<u8>) -> bool {
    encrypted.len() == plain.len() && forall|i: int|
        0 <= i < plain.len() ==> (#[trigger] encrypted[i]) == encrypt::encrypted_with(
            plain[i],
            key,
            encrypted[i].take(24),
        )
}

/// Encrypted shards that are there open to the plain shards in their places.
proof fn lemma_opened(pieces: Pieces, encrypted: Seq<Seq<u8>>, plain: Seq<Seq<u8>>, key: Seq<u8>)
    requires
        erasure::taken_from(pieces, encrypted),
        decrypt_to(encrypted, plain, key),
    ensures
        opened(pieces, key) is Ok,
        erasure::taken_from(opened(pieces, key)->Ok_0, plain),
        erasure::present(opened(pieces, key)->Ok_0) == erasure::present(pieces),
    decreases pieces.len(),
{
    if pieces.len() > 0 {
        let p = pieces.drop_last();
        let e = encrypted.drop_last();
        let q = plain.drop_last();
        assert forall|i: int| 0 <= i < p.len() && (#[trigger] p[i]) is Some implies p[i]->0
            == e[i] by {
            assert(pieces[i] is Some);
        }
        assert forall|i: int| 0 <= i < q.len() implies encrypt::decrypted(#[trigger] e[i], key)
            == Ok::<Seq<u8>, DecryptError>(q[i]) by {
            assert(encrypted[i] == e[i]);
        }
        lemma_opened(p, e, q, key);
        let before = opened(p, key)->Ok_0;
        let n = (pieces.len() - 1) as int;
        assert(encrypt::decrypted(encrypted[n], key) == Ok::<Seq<u8>, DecryptError>(plain[n]));
        if pieces.last() is Some {
            assert(pieces[n] is Some);
        }
        let all = opened(pieces, key)->Ok_0;
        assert(all.drop_last() =~= before);
        assert forall|i: int| 0 <= i < all.len() && (#[trigger] all[i]) is Some implies all[i]->0
            == plain[i] by {
            if i < n {
                assert(before[i] is Some);
            }
        }
    }
}

/// Cuts an object into shards and encrypts each. Any `k` of them give it back.
pub fn prepare_upload(data: &[u8], ec_config: ErasureConfig, master_key: &[u8; 32]) -> (r: Result<
    PreparedUpload,
    CodecError,
>)
    requires
        ec_config.k >= 1,
        ec_config.k + ec_config.m <= usize::MAX,
        data@.len() + ec_config.k <= usize::MAX,
        encrypt::sealable(erasure::shard_size(data@.len(), ec_config.k as nat)),
    ensures
        match erasure::encoded(data@, ec_config.k as nat, ec_config.m as nat) {
            Err(e) => r == Err::<PreparedUpload, CodecError>(e),
            Ok(plain) => {
                let key = encrypt::object_key(master_key@, keys::digest_of(data@));
                &&& r is Ok
                &&& r->Ok_0.erasure_config == ec_config
                &&& dataplane::hashed(r->Ok_0.encrypted_shards@, r->Ok_0.shard_hashes@)
                &&& encrypted_from(bytes::contents(r->Ok_0.encrypted_shards@), plain, key)
                &&& decrypt_to(bytes::contents(r->Ok_0.encrypted_shards@), plain, key)
                &&& forall|pieces: Pieces|
                    #![trigger erasure::taken_from(pieces, bytes::contents(r->Ok_0.encrypted_shards@))]
                    erasure::taken_from(pieces, bytes::contents(r->Ok_0.encrypted_shards@))
                        && erasure::present(pieces) >= ec_config.k ==> reconstructed(
                        pieces,
                        ec_config,
                        master_key@,
                        keys::digest_of(data@),
                        data@.len(),
                    ) == Ok::<Seq<u8>, PipelineError>(data@)
            },
        },
{
    let object_hash = keys::digest(data);
    let derived_key = encrypt::derive_key(master_key, &object_hash);
    let ghost key = encrypt::object_key(master_key@, keys::digest_of(data@));
    let plain = match erasure::encode(data, &ec_config) {
        Ok(shards) => shards,
        Err(e) => {
            return Err(e);
        },
    };
    let ghost size = erasure::shard_size(data@.len(), ec_config.k as nat);
    let mut encrypted: Vec<Vec<u8>> = Vec::new();
    let mut i: usize = 0;
    while i < plain.len()
        invariant
            i <= plain@.len(),
            encrypt::sealable(size),
            forall|j: int| 0 <= j < plain@.len() ==> (#[trigger] plain@[j])@.len() == size,
            encrypted@.len() == i,
            derived_key@ == key,
            forall|j: int|
                0 <= j < i ==> encrypt::decrypted((#[trigger] encrypted@[j])@, key) == Ok::<
                    Seq<u8>,
                    DecryptError,
                >(plain@[j]@) && encrypted@[j]@ == encrypt::encrypted_with(
                    plain@[j]@,
                    key,
                    encrypted@[j]@.take(24),
                ),
        decreases plain@.len() - i,
    {
        encrypted.push(encrypt::encrypt_shard(plain[i].as_slice(), &derived_key));
        i = i + 1;
    }
    let shard_hashes = dataplane::hash_all(&encrypted);
    proof {
        let e = bytes::contents(encrypted@);
        let q = bytes::contents(plain@);
        assert(decrypt_to(e, q, key)) by {
            assert forall|j: int| 0 <= j < q.len() implies encrypt::decrypted(
                #[trigger] e[j],
                key,
            ) == Ok::<Seq<u8>, DecryptError>(q[j]) by {
                assert(e[j] == encrypted@[j]@);
            }
        }
        assert(encrypted_from(e, q, key)) by {
            assert forall|j: int| 0 <= j < q.len() implies (#[trigger] e[j])
                == encrypt::encrypted_with(q[j], key, e[j].take(24)) by {
                assert(e[j] == encrypted@[j]@);
            }
        }
        assert forall|pieces: Pieces|
            #![trigger erasure::taken_from(pieces, e)]
            erasure::taken_from(pieces, e) && erasure::present(pieces)
                >= ec_config.k implies reconstructed(
            pieces,
            ec_config,
            master_key@,
            keys::digest_of(data@),
            data@.len(),
        ) == Ok::<Seq<u8>, PipelineError>(data@) by {
            lemma_opened(pieces, e, q, key);
            assert(erasure::taken_from(opened(pieces, key)->Ok_0, q));
        }
    }
    Ok(PreparedUpload { encrypted_shards: encrypted, shard_hashes, erasure_config: ec_config })
}

/// Gives an object back from its encrypted shards and checks its hash.
pub fn reconstruct_object(
    encrypted_shards: &[Option<&[u8]>],
    ec_config: ErasureConfig,
    master_key: &[u8; 32],
    expected_object_hash: &[u8; 32],
    original_len: usize,
) -> (r: Result<Vec<u8>, PipelineError>)
    requires
        ec_config.k + ec_config.m <= usize::MAX,
    ensures
        match reconstructed(
            erasure::pieces_of(encrypted_shards@),
            ec_config,
            master_key@,
            expected_object_hash@,
            original_len as nat,
        ) {
            Ok(data) => r is Ok && r->Ok_0@ == data,
            Err(e) => r == Err::<Vec<u8>, PipelineError>(e),
        },
{
    let derived_key = encrypt::derive_key(master_key, expected_object_hash);
    let ghost key = encrypt::object_key(master_key@, expected_object_hash@);
    let ghost pieces = erasure::pieces_of(encrypted_shards@);
    let mut plain: Vec<Option<Vec<u8>>> = Vec::new();
    let mut i: usize = 0;
    assert(erasure::owned_pieces(plain@) =~= seq![]);
    while i < encrypted_shards.len()
        invariant
            i <= encrypted_shards@.len(),
            pieces == erasure::pieces_of(encrypted_shards@),
            derived_key@ == key,
            key == encrypt::object_key(master_key@, expected_object_hash@),
            opened(pieces.take(i as int), key) == Ok::<Pieces, DecryptError>(
                erasure::owned_pieces(plain@),
            ),
        decreases encrypted_shards@.len() - i,
    {
        let ghost before = erasure::owned_pieces(plain@);
        assert(pieces.take(i + 1).drop_last() =~= pieces.take(i as int));
        assert(pieces.take(i + 1).last() == pieces[i as int]);
        match encrypted_shards[i] {
            Some(s) => match encrypt::decrypt_shard(s, &derived_key) {
                Ok(p) => {
                    let ghost q = p@;
                    plain.push(Some(p));
                    assert(erasure::owned_pieces(plain@) =~= before.push(Some(q)));
                },
                Err(e) => {
                    proof {
                        lemma_opened_stops(pieces, i + 1, key, e);
                    }
                    return Err(PipelineError::Decrypt(e));
                },
            },
            None => {
                plain.push(None);
                assert(erasure::owned_pieces(plain@) =~= before.push(None));
            },
        }
        i = i + 1;
    }
    assert(pieces.take(i as int) =~= pieces);
    let refs = dataplane::borrow_all(&plain);
    let recovered = match erasure::decode(refs.as_slice(), &ec_config, original_len) {
        Ok(d) => d,
        Err(e) => {
            return Err(PipelineError::Decode(e));
        },
    };
    let computed = keys::digest(recovered.as_slice());
    if !bytes::same_bytes(
        vstd::array::array_as_slice(&computed),
        vstd::array::array_as_slice(expected_object_hash),
    ) {
        return Err(PipelineError::Integrity);
    }
    Ok(recovered)
}

proof fn lemma_opened_stops(pieces: Pieces, i: int, key: Seq<u8>, e: DecryptError)
    requires
        0 <= i <= pieces.len(),
        opened(pieces.take(i), key) == Err::<Pieces, DecryptError>(e),
    ensures
        opened(pieces, key) == Err::<Pieces, DecryptError>(e),
    decreases pieces.len() - i,
{
    if i < pieces.len() {
        assert(pieces.drop_last().take(i) =~= pieces.take(i));
        lemma_opened_stops(pieces.drop_last(), i, key, e);
    } else {
        assert(pieces.take(i) =~= pieces);
    }
}

} // verus!
