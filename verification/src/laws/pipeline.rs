//! Laws of upload and download, from call to call.
//!
//! `call_ensures(f, args, r)` says that a call of `f` with `args` may return `r`.
use vstd::prelude::*;

use crate::bytes;
use crate::client::encrypt;
use crate::client::encrypt::DecryptError;
use crate::client::manifest;
use crate::client::manifest::{Manifest, ShardPlacement};
use crate::codec;
use crate::dataplane;
use crate::dataplane::erasure;
use crate::dataplane::erasure::{CodecError, DecodeError, ErasureConfig};
use crate::dataplane::laws;
use crate::dataplane::{ManifestError, PipelineError, PlanError, PreparedUpload, StorageTarget};
use crate::gateway;
use crate::keys;

verus! {

/// The manifest of an upload says what it was made of, and places each shard: the first
/// on the first node, the next on the next, and so on in turn.
pub proof fn manifests_place_shards_in_turn(
    bucket: &str,
    key: &str,
    object_hash: &[u8; 32],
    original_size: u64,
    ciphertext_size: u64,
    config: ErasureConfig,
    hashes: &Vec<[u8; 32]>,
    targets: &Vec<StorageTarget>,
    placed: Vec<ShardPlacement>,
    r: Manifest,
    i: int,
)
    requires
        targets@.len() > 0,
        call_ensures(dataplane::place_shards, (hashes, targets), placed),
        call_ensures(
            dataplane::build_manifest,
            (
                bucket,
                key,
                object_hash,
                original_size,
                ciphertext_size,
                config,
                hashes,
                targets,
            ),
            r,
        ),
        0 <= i < hashes@.len(),
    ensures
        r.bucket@ == bucket@,
        r.key@ == key@,
        r.object_hash@ == object_hash@,
        r.original_size == original_size,
        r.ciphertext_size == ciphertext_size,
        r.k == config.k,
        r.m == config.m,
        r.shards@.len() == hashes@.len(),
        r.shards@[i].shard_index == i,
        r.shards@[i].blob_hash@ == hashes@[i]@,
        r.shards@[i].node_id@ == targets@[i % targets@.len() as int].node_id@,
        placed@.len() == hashes@.len(),
        placed@[i].shard_index == i,
        placed@[i].blob_hash@ == hashes@[i]@,
        placed@[i].node_id@ == targets@[i % targets@.len() as int].node_id@,
{
    assert(r.shards@[i].shard_index == i);
    assert(placed@[i].shard_index == i);
}

/// What to fetch next: the placement behind those tried so far, until `k` shards are
/// there or none is left.
pub proof fn downloads_go_on_until_k_shards_are_there(
    m: &Manifest,
    fetched: &Vec<Option<Vec<u8>>>,
    r: Option<ShardPlacement>,
)
    requires
        m.shards@.len() == m.k + m.m,
        forall|i: int| 0 <= i < m.shards@.len() ==> (#[trigger] m.shards@[i]).shard_index == i,
        fetched@.len() <= m.shards@.len(),
        call_ensures(dataplane::next_fetch, (m, fetched), r),
    ensures
        r is None <==> fetched@.filter(|s: Option<Vec<u8>>| s is Some).len() >= m.k
            || fetched@.len() == m.shards@.len(),
        r is Some ==> r->0 == m.shards@[fetched@.len() as int],
{
    let f = erasure::owned_pieces(fetched@);
    laws::downloads_take_k_shards(*m, f);
    lemma_counts(fetched@);
}

proof fn lemma_counts(fetched: Seq<Option<Vec<u8>>>)
    ensures
        laws::fetched_count(erasure::owned_pieces(fetched)) == fetched.filter(
            |s: Option<Vec<u8>>| s is Some,
        ).len(),
    decreases fetched.len(),
{
    let pred = |s: Option<Vec<u8>>| s is Some;
    let there = |s: Option<Seq<u8>>| s is Some;
    let f = erasure::owned_pieces(fetched);
    if fetched.len() > 0 {
        let front = fetched.drop_last();
        lemma_counts(front);
        front.lemma_filter_push(fetched.last(), pred);
        assert(front.push(fetched.last()) =~= fetched);
        let g = erasure::owned_pieces(front);
        g.lemma_filter_push(f.last(), there);
        assert(g.push(f.last()) =~= f);
    } else {
        fetched.lemma_filter_len(pred);
        f.lemma_filter_len(there);
    }
}

/// An object comes back as it went up: prepared, with its manifest built over any nodes,
/// and put together from shards of which at least `k` came as they were.
pub proof fn objects_come_back(
    data: &[u8],
    config: ErasureConfig,
    master: &[u8; 32],
    upload: PreparedUpload,
    bucket: &str,
    key: &str,
    targets: &Vec<StorageTarget>,
    m: Manifest,
    fetched: Vec<Option<Vec<u8>>>,
    r: Result<Vec<u8>, PipelineError>,
)
    requires
        call_ensures(
            dataplane::prepare_upload,
            (data, config, master),
            Ok::<PreparedUpload, CodecError>(upload),
        ),
        targets@.len() > 0,
        config.k < 256,
        config.m < 256,
        call_ensures(
            dataplane::build_manifest,
            (
                bucket,
                key,
                &upload.object_hash,
                data@.len() as u64,
                upload.ciphertext_size as u64,
                config,
                &upload.shard_hashes,
                targets,
            ),
            m,
        ),
        call_ensures(dataplane::assemble, (&m, fetched, master), r),
        fetched@.len() == m.shards@.len(),
        forall|i: int|
            0 <= i < fetched@.len() && (#[trigger] fetched@[i]) is Some ==> fetched@[i]->0@
                == upload.shards@[i]@,
        fetched@.filter(|s: Option<Vec<u8>>| s is Some).len() >= config.k,
        upload.ciphertext_size <= u64::MAX,
    ensures
        r is Ok,
        r->Ok_0@ == data@,
{
    let f = erasure::owned_pieces(fetched@);
    assert(dataplane::holds(upload, data@, config, master@));
    assert(erasure::taken_from(f, bytes::contents(upload.shards@))) by {
        assert forall|i: int| 0 <= i < f.len() && (#[trigger] f[i]) is Some implies f[i]->0
            == bytes::contents(upload.shards@)[i] by {
            assert(fetched@[i] is Some);
        }
    }
    lemma_counts(fetched@);
    laws::enough_means_decodable(m, f, 0);
    laws::downloads_take_k_shards(m, f);
    assert(m.shards@.take(f.len() as int) =~= m.shards@);
    dataplane::fetched_in_order(m.shards@, f);
    dataplane::download_gives_back_upload(upload, data@, config, master@, m, f);
}

/// An upload is refused just where there is no such scheme; else it has a shard for each
/// part of the scheme, and a hash for each shard.
pub proof fn uploads_need_a_scheme(
    data: &[u8],
    config: ErasureConfig,
    master: &[u8; 32],
    r: Result<PreparedUpload, CodecError>,
)
    requires
        call_ensures(dataplane::prepare_upload, (data, config, master), r),
    ensures
        r is Ok <==> config.k >= 1 && config.m >= 1 && config.k + config.m <= 256,
        config.k == 0 ==> r->Err_0 == CodecError::TooFewDataShards,
        config.k >= 1 && config.m == 0 ==> r->Err_0 == CodecError::TooFewParityShards,
        config.k >= 1 && config.m >= 1 && config.k + config.m > 256 ==> r->Err_0
            == CodecError::TooManyShards,
        r is Ok ==> {
            let p = r->Ok_0;
            &&& p.object_hash@ == keys::digest_of(data@)
            &&& p.ciphertext_size == data@.len() + 40
            &&& p.shards@.len() == config.k + config.m
            &&& p.shard_hashes@.len() == config.k + config.m
            &&& forall|i: int|
                0 <= i < p.shards@.len() ==> (#[trigger] p.shard_hashes@[i])@ == keys::digest_of(
                    p.shards@[i]@,
                )
        },
{
}

/// The scheme that a pool of nodes can carry.
pub proof fn pools_carry_a_scheme(target: ErasureConfig, pool: usize, r: ErasureConfig)
    requires
        pool >= 1,
        call_ensures(dataplane::degrade, (target, pool), r),
    ensures
        pool >= target.k + target.m ==> r.k == target.k && r.m == target.m,
        pool < target.k + target.m ==> {
            &&& r.k + r.m == pool
            &&& r.k <= target.k
            &&& r.k < target.k && pool >= 2 ==> r.m == 1
            &&& pool >= 2 ==> r.m >= 1
            &&& pool == 1 && target.k >= 1 ==> r.k == 1
        },
{
    laws::pools_carry_what_they_can(target, pool as nat);
}

/// Where an upload goes. Nodes that were asked for are taken as they are, with the wanted
/// scheme. Else there have to be nodes online, and as many different ones are taken as
/// the scheme that they can carry has shards.
pub proof fn uploads_go_to_different_nodes(
    given: &Vec<StorageTarget>,
    pool: &Vec<StorageTarget>,
    target: ErasureConfig,
    r: Result<(ErasureConfig, Vec<StorageTarget>), PlanError>,
)
    requires
        call_ensures(dataplane::plan_upload, (given, pool, target), r),
        target.k + target.m > 0,
        forall|i: int, j: int|
            0 <= i < j < pool@.len() ==> (#[trigger] pool@[i]).node_id@ != (
            #[trigger] pool@[j]).node_id@,
    ensures
        r is Err <==> given@.len() == 0 && pool@.len() == 0,
        r is Err ==> r->Err_0 == PlanError::NoHealthyNodes,
        r matches Ok((config, targets)) ==> {
            &&& given@.len() > 0 ==> config == target && targets@.len() == given@.len()
                && forall|i: int|
                0 <= i < given@.len() ==> (#[trigger] targets@[i])@ == given@[i]@
            &&& given@.len() == 0 ==> {
                &&& targets@.len() == config.k + config.m
                &&& pool@.len() >= target.k + target.m ==> config.k == target.k && config.m
                    == target.m
                &&& pool@.len() < target.k + target.m ==> config.k + config.m == pool@.len()
                &&& pool@.len() >= 2 && target.m >= 1 ==> config.m >= 1
                &&& target.k >= 1 ==> config.k >= 1
                &&& forall|i: int|
                    0 <= i < targets@.len() ==> pool@.map_values(|t: StorageTarget| t@).contains(
                        (#[trigger] targets@[i])@,
                    )
                &&& forall|i: int, j: int|
                    0 <= i < j < targets@.len() ==> (#[trigger] targets@[i]).node_id@ != (
                    #[trigger] targets@[j]).node_id@
            }
        },
{
    if given@.len() > 0 {
        let targets = r->Ok_0.1;
        let a = dataplane::target_views(targets@);
        let b = dataplane::target_views(given@);
        assert(a.len() == b.len());
        assert forall|i: int| 0 <= i < given@.len() implies (#[trigger] targets@[i])@
            == given@[i]@ by {
            assert(a[i] == b[i]);
        }
    } else if pool@.len() > 0 {
        let config = r->Ok_0.0;
        let targets = r->Ok_0.1;
        laws::pools_carry_what_they_can(target, pool@.len());
        let order = choose|order: Seq<usize>| #[trigger]
            dataplane::distinct_places(order, pool@.len()) && order.len() == targets@.len()
                && forall|i: int|
                0 <= i < order.len() ==> (#[trigger] targets@[i])@ == pool@[order[i] as int]@;
        let views = pool@.map_values(|t: StorageTarget| t@);
        assert forall|i: int| 0 <= i < targets@.len() implies views.contains(
            (#[trigger] targets@[i])@,
        ) by {
            assert(order[i] < pool@.len());
            assert(views[order[i] as int] == targets@[i]@);
        }
        assert forall|i: int, j: int| 0 <= i < j < targets@.len() implies (
        #[trigger] targets@[i]).node_id@ != (#[trigger] targets@[j]).node_id@ by {
            assert(order[i] < pool@.len() && order[j] < pool@.len());
            assert(order[i] != order[j]);
            let a = order[i] as int;
            let b = order[j] as int;
            assert(targets@[i]@.node_id == pool@[a]@.node_id);
            assert(targets@[j]@.node_id == pool@[b]@.node_id);
            if a < b {
                assert(pool@[a].node_id@ != pool@[b].node_id@);
            } else {
                assert(pool@[b].node_id@ != pool@[a].node_id@);
            }
        }
    }
}

/// An upload to nodes from the pool puts each shard on a node of its own.
pub proof fn pooled_uploads_use_a_node_per_shard(
    given: &Vec<StorageTarget>,
    pool: &Vec<StorageTarget>,
    target: ErasureConfig,
    config: ErasureConfig,
    targets: Vec<StorageTarget>,
    hashes: &Vec<[u8; 32]>,
    placed: Vec<ShardPlacement>,
    i: int,
    j: int,
)
    requires
        given@.len() == 0,
        pool@.len() > 0,
        target.k + target.m > 0,
        forall|i: int, j: int|
            0 <= i < j < pool@.len() ==> (#[trigger] pool@[i]).node_id@ != (
            #[trigger] pool@[j]).node_id@,
        call_ensures(
            dataplane::plan_upload,
            (given, pool, target),
            Ok::<(ErasureConfig, Vec<StorageTarget>), PlanError>((config, targets)),
        ),
        hashes@.len() == config.k + config.m,
        call_ensures(dataplane::place_shards, (hashes, &targets), placed),
        0 <= i < j < placed@.len(),
    ensures
        placed@[i].node_id@ != placed@[j].node_id@,
{
    uploads_go_to_different_nodes(
        given,
        pool,
        target,
        Ok::<(ErasureConfig, Vec<StorageTarget>), PlanError>((config, targets)),
    );
    laws::placements_name_different_nodes(placed@, targets@);
}

/// A manifest that its owner signed is believed by them, unless the signature is the
/// degenerate one; and nothing is believed but under an accepted signature of 64 bytes.
pub proof fn signed_manifests_are_believed(
    bytes: &[u8],
    secret: &[u8; 32],
    signature: [u8; 64],
    shown: &[u8],
    r: Result<(), ManifestError>,
)
    requires
        call_ensures(manifest::sign_manifest, (bytes, secret), signature),
        call_ensures(dataplane::check_own_manifest, (bytes, shown, secret), r),
    ensures
        signature@ == keys::signature_of(secret@, bytes@),
        shown@ == signature@ && !keys::degenerate(signature@) ==> r is Ok,
        r is Ok <==> shown@.len() == 64 && keys::verifies(
            keys::public_of(secret@),
            bytes@,
            shown@,
        ),
        shown@.len() != 64 ==> r->Err_0 == ManifestError::SignatureLength,
        shown@.len() == 64 && r is Err ==> r->Err_0 == ManifestError::Signature,
{
}

/// What was encoded is decoded from any `k` of its shards.
pub proof fn encoded_data_is_decoded(
    data: &[u8],
    config: &ErasureConfig,
    shards: Vec<Vec<u8>>,
    pieces: &[Option<&[u8]>],
    r: Result<Vec<u8>, DecodeError>,
)
    requires
        call_ensures(
            erasure::encode,
            (data, config),
            Ok::<Vec<Vec<u8>>, CodecError>(shards),
        ),
        call_ensures(erasure::decode, (pieces, config, data@.len() as usize), r),
        data@.len() <= usize::MAX,
        pieces@.len() == shards@.len(),
        forall|i: int|
            0 <= i < pieces@.len() && (#[trigger] pieces@[i]) is Some ==> pieces@[i]->0@
                == shards@[i]@,
        laws::filled_places(erasure::pieces_of(pieces@)).len() >= config.k,
    ensures
        r is Ok,
        r->Ok_0@ == data@,
{
    let p = erasure::pieces_of(pieces@);
    laws::present_counts_places(p);
    assert(erasure::taken_from(p, bytes::contents(shards@))) by {
        assert forall|i: int| 0 <= i < p.len() && (#[trigger] p[i]) is Some implies p[i]->0
            == bytes::contents(shards@)[i] by {
            assert(pieces@[i] is Some);
        }
    }
}

/// What was encrypted is decrypted under the same key; the nonce stands in front.
pub proof fn encrypted_shards_are_decrypted(
    data: &[u8],
    key: &[u8; 32],
    nonce: &[u8; 24],
    sealed: Vec<u8>,
    fresh: Vec<u8>,
    shown: &[u8],
    r: Result<Vec<u8>, DecryptError>,
)
    requires
        call_ensures(encrypt::encrypt_with_nonce, (data, key, nonce), sealed),
        call_ensures(encrypt::encrypt_shard, (data, key), fresh),
        call_ensures(encrypt::decrypt_shard, (shown, key), r),
    ensures
        sealed@.len() == data@.len() + 40,
        fresh@.len() == data@.len() + 40,
        sealed@.take(24) == nonce@,
        shown@ == sealed@ || shown@ == fresh@ ==> r is Ok && r->Ok_0@ == data@,
        shown@.len() < 24 ==> r is Err && r->Err_0 == DecryptError::TooShort,
{
    assert(sealed@.take(24) =~= nonce@);
}

/// The key of an object is derived from the master key and the object's hash.
pub proof fn object_keys_are_derived(master: &[u8; 32], hash: &[u8; 32], r: [u8; 32])
    requires
        call_ensures(encrypt::derive_key, (master, hash), r),
    ensures
        r@ == encrypt::hkdf_of(hash@, master@, vstd::utf8::encode_utf8("arkel-shard-key"@)),
{
}

/// An object comes back through the gateway as it went up: from any `k` of its encrypted
/// shards.
pub proof fn objects_come_back_through_the_gateway(
    data: &[u8],
    config: ErasureConfig,
    master: &[u8; 32],
    upload: gateway::PreparedUpload,
    pieces: &[Option<&[u8]>],
    hash: &[u8; 32],
    r: Result<Vec<u8>, PipelineError>,
)
    requires
        call_ensures(
            gateway::prepare_upload,
            (data, config, master),
            Ok::<gateway::PreparedUpload, CodecError>(upload),
        ),
        data@.len() <= usize::MAX,
        hash@ == keys::digest_of(data@),
        call_ensures(
            gateway::reconstruct_object,
            (pieces, config, master, hash, data@.len() as usize),
            r,
        ),
        pieces@.len() == upload.encrypted_shards@.len(),
        forall|i: int|
            0 <= i < pieces@.len() && (#[trigger] pieces@[i]) is Some ==> pieces@[i]->0@
                == upload.encrypted_shards@[i]@,
        laws::filled_places(erasure::pieces_of(pieces@)).len() >= config.k,
    ensures
        r is Ok,
        r->Ok_0@ == data@,
{
    let p = erasure::pieces_of(pieces@);
    laws::present_counts_places(p);
    assert(erasure::taken_from(p, bytes::contents(upload.encrypted_shards@))) by {
        assert forall|i: int| 0 <= i < p.len() && (#[trigger] p[i]) is Some implies p[i]->0
            == bytes::contents(upload.encrypted_shards@)[i] by {
            assert(pieces@[i] is Some);
        }
    }
}

/// Nothing is given back but what has the hash that was asked for.
pub proof fn wrong_objects_are_turned_down(
    pieces: &[Option<&[u8]>],
    config: ErasureConfig,
    master: &[u8; 32],
    hash: &[u8; 32],
    len: usize,
    r: Result<Vec<u8>, PipelineError>,
)
    requires
        call_ensures(dataplane::reconstruct_object, (pieces, config, master, hash, len), r)
            || call_ensures(gateway::reconstruct_object, (pieces, config, master, hash, len), r),
    ensures
        r is Ok ==> keys::digest_of(r->Ok_0@) == hash@,
{
    laws::downloads_have_the_right_hash(
        erasure::pieces_of(pieces@),
        config,
        master@,
        hash@,
        len as nat,
    );
}

/// An ETag is the hash of the object in hexadecimal.
pub proof fn etags_are_hashes(hash: &[u8; 32], data: &[u8], r: String, s: String)
    requires
        call_ensures(manifest::etag_from_hash, (hash,), r),
        call_ensures(manifest::etag_from_data, (data,), s),
    ensures
        r@ == codec::hex_text(hash@),
        hash@ == keys::digest_of(data@) ==> s@ == r@,
{
}

/// The blobs of a manifest are the hashes of its shards, in order.
pub proof fn manifests_list_their_blobs(m: &Manifest, r: Vec<Vec<u8>>, i: int)
    requires
        call_ensures(Manifest::blobs, (m,), r),
        0 <= i < m.shards@.len(),
    ensures
        r@.len() == m.shards@.len(),
        r@[i]@ == m.shards@[i].blob_hash@,
{
    assert(bytes::contents(r@).len() == r@.len());
    assert(bytes::contents(r@)[i] == r@[i]@);
}

/// All placements are tried, in the order of the manifest, and each shard is hashed.
pub proof fn every_shard_counts(
    m: &Manifest,
    plan: Vec<ShardPlacement>,
    shards: &Vec<Vec<u8>>,
    hashes: Vec<[u8; 32]>,
    i: int,
)
    requires
        call_ensures(dataplane::fetch_plan, (m,), plan),
        call_ensures(dataplane::hash_all, (shards,), hashes),
        0 <= i < shards@.len(),
    ensures
        plan@ == m.shards@,
        hashes@.len() == shards@.len(),
        hashes@[i]@ == keys::digest_of(shards@[i]@),
{
}

/// Data is encoded exactly where there is such a scheme and there is data.
pub proof fn encoding_needs_a_scheme_and_data(
    data: &[u8],
    config: &ErasureConfig,
    r: Result<Vec<Vec<u8>>, CodecError>,
)
    requires
        call_ensures(erasure::encode, (data, config), r),
    ensures
        r is Ok <==> config.k >= 1 && config.m >= 1 && config.k + config.m <= 256 && data@.len() > 0,
        r is Ok ==> r->Ok_0@.len() == config.k + config.m,
        config.k >= 1 && config.m >= 1 && config.k + config.m <= 256 && data@.len() == 0
            ==> r->Err_0 == CodecError::EmptyShard,
{
    laws::data_shards_hold_the_data(data@, config.k as nat, config.m as nat, 0);
}

/// Shards are decoded only where there is a place for each and enough of them are there;
/// what is missing is said.
pub proof fn decoding_needs_enough_shards(
    pieces: &[Option<&[u8]>],
    config: &ErasureConfig,
    len: usize,
    r: Result<Vec<u8>, DecodeError>,
)
    requires
        call_ensures(erasure::decode, (pieces, config, len), r),
        config.k + config.m <= usize::MAX,
        pieces@.len() <= usize::MAX,
    ensures
        ({
            let there = laws::filled_places(erasure::pieces_of(pieces@)).len();
            let n = config.k + config.m;
            &&& pieces@.len() != n ==> r is Err && r->Err_0 == (DecodeError::WrongCount {
                expected: n as usize,
                got: pieces@.len() as usize,
            })
            &&& pieces@.len() == n && there < config.k ==> r is Err && r->Err_0 == (
            DecodeError::NotEnough { need: config.k, have: there as usize })
            &&& r is Ok ==> r->Ok_0@.len() <= len
        }),
{
    laws::decoding_checks_its_input(erasure::pieces_of(pieces@), *config, len as nat);
}

/// The gateway prepares an upload exactly where its data can be encoded; each encrypted
/// shard has its hash and begins with a nonce.
pub proof fn gateways_encrypt_each_shard(
    data: &[u8],
    config: ErasureConfig,
    master: &[u8; 32],
    r: Result<gateway::PreparedUpload, CodecError>,
    i: int,
)
    requires
        call_ensures(gateway::prepare_upload, (data, config, master), r),
        0 <= i < config.k,
    ensures
        r is Ok <==> config.k >= 1 && config.m >= 1 && config.k + config.m <= 256 && data@.len() > 0,
        r is Ok ==> {
            let p = r->Ok_0;
            let size = erasure::shard_size(data@.len(), config.k as nat);
            let key = encrypt::hkdf_of(
                keys::digest_of(data@),
                master@,
                vstd::utf8::encode_utf8("arkel-shard-key"@),
            );
            &&& p.erasure_config == config
            &&& p.shard_hashes@.len() == p.encrypted_shards@.len()
            &&& p.encrypted_shards@.len() >= config.k
            &&& p.shard_hashes@[i]@ == keys::digest_of(p.encrypted_shards@[i]@)
            &&& encrypt::decrypted(p.encrypted_shards@[i]@, key) is Ok
            &&& encrypt::decrypted(p.encrypted_shards@[i]@, key)->Ok_0.len() == size
        },
{
    laws::data_shards_hold_the_data(data@, config.k as nat, config.m as nat, 0);
    if r is Ok {
        let p = r->Ok_0;
        let plain = erasure::encoded(data@, config.k as nat, config.m as nat)->Ok_0;
        let e = bytes::contents(p.encrypted_shards@);
        assert(e[i] == p.encrypted_shards@[i]@);
        assert(e.len() == plain.len());
        let key = encrypt::object_key(master@, keys::digest_of(data@));
        assert(encrypt::decrypted(e[i], key) == Ok::<Seq<u8>, DecryptError>(plain[i]));
    }
}

/// A download that is left with too few shards fails, and says how many it needs and has.
pub proof fn short_downloads_fail(
    m: &Manifest,
    fetched: Vec<Option<Vec<u8>>>,
    master: &[u8; 32],
    r: Result<Vec<u8>, PipelineError>,
)
    requires
        m.shards@.len() == m.k + m.m,
        forall|i: int| 0 <= i < m.shards@.len() ==> (#[trigger] m.shards@[i]).shard_index == i,
        fetched@.len() == m.shards@.len(),
        fetched@.filter(|s: Option<Vec<u8>>| s is Some).len() < m.k,
        call_ensures(dataplane::assemble, (m, fetched, master), r),
    ensures
        r is Err,
        r->Err_0 == PipelineError::Decode(
            DecodeError::NotEnough {
                need: m.k as usize,
                have: fetched@.filter(|s: Option<Vec<u8>>| s is Some).len() as usize,
            },
        ),
{
    let f = erasure::owned_pieces(fetched@);
    lemma_counts(fetched@);
    laws::downloads_take_k_shards(*m, f);
    assert(m.shards@.take(f.len() as int) =~= m.shards@);
    dataplane::fetched_in_order(m.shards@, f);
    laws::fetched_shards_are_present(f);
}

} // verus!
