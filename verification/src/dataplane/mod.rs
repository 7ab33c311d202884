//! The object pipeline: encryption, erasure coding, placement and reconstruction.
use rand::seq::SliceRandom;
use vstd::prelude::*;

use crate::bytes;
use crate::client::encrypt;
use crate::client::encrypt::DecryptError;
use crate::client::manifest;
use crate::client::manifest::{Manifest, ShardPlacement};
use crate::dataplane::erasure::{CodecError, DecodeError, ErasureConfig, Pieces};
use crate::index::types;
use crate::keys;
use crate::text;

pub mod erasure;
pub mod laws;

verus! {

/// Why an object could not be given back, or its shards made anew.
#[derive(Debug, Clone, Copy, PartialEq, Eq, Structural)]
pub enum PipelineError {
    Encode(CodecError),
    Decode(DecodeError),
    Decrypt(DecryptError),
    /// What came out does not have the expected hash.
    Integrity,
}

impl PipelineError {
    /// What went wrong, in words.
    pub open spec fn words(&self) -> Seq<char> {
        match *self {
            PipelineError::Encode(e) => e.words(),
            PipelineError::Decode(e) => e.words(),
            PipelineError::Decrypt(e) => e.words(),
            PipelineError::Integrity => "integrity check failed: BLAKE3 mismatch"@,
        }
    }

    /// What went wrong, in words.
    pub fn message(&self) -> (r: String)
        ensures
            r@ == self.words(),
    {
        match self {
            PipelineError::Encode(e) => e.message(),
            PipelineError::Decode(e) => e.message(),
            PipelineError::Decrypt(e) => e.message(),
            PipelineError::Integrity => text::owned("integrity check failed: BLAKE3 mismatch"),
        }
    }
}

/// An object made ready for upload.
#[derive(Debug)]
pub struct PreparedUpload {
    pub object_hash: [u8; 32],
    pub ciphertext_size: usize,
    pub shards: Vec<Vec<u8>>,
    pub shard_hashes: Vec<[u8; 32]>,
    pub erasure_config: ErasureConfig,
}

/// Whether each hash is that of the shard in its place.
pub open spec fn hashed(shards: Seq<Vec<u8>>, hashes: Seq<[u8; 32]>) -> bool {
    hashes.len() == shards.len() && forall|i: int|
        0 <= i < shards.len() ==> (#[trigger] hashes[i])@ == keys::digest_of(shards[i]@)
}

/// The hash of each shard.
pub fn hash_all(shards: &Vec<Vec<u8>>) -> (r: Vec<[u8; 32]>)
    ensures
        hashed(shards@, r@),
{
    let mut out: Vec<[u8; 32]> = Vec::new();
    let mut i: usize = 0;
    while i < shards.len()
        invariant
            i <= shards@.len(),
            out@.len() == i,
            forall|j: int| 0 <= j < i ==> (#[trigger] out@[j])@ == keys::digest_of(shards@[j]@),
        decreases shards@.len() - i,
    {
        out.push(keys::digest(shards[i].as_slice()));
        i = i + 1;
    }
    out
}

/// The object that some shards of its ciphertext give back.
pub open spec fn reconstructed(
    pieces: Pieces,
    config: ErasureConfig,
    master: Seq<u8>,
    object_hash: Seq<u8>,
    ciphertext_len: nat,
) -> Result<Seq<u8>, PipelineError> {
    match erasure::decoded(pieces, config, ciphertext_len) {
        Err(e) => Err(PipelineError::Decode(e)),
        Ok(ciphertext) => match encrypt::decrypted(
            ciphertext,
            encrypt::object_key(master, object_hash),
        ) {
            Err(e) => Err(PipelineError::Decrypt(e)),
            Ok(data) => if keys::digest_of(data) == object_hash {
                Ok(data)
            } else {
                Err(PipelineError::Integrity)
            },
        },
    }
}

/// Whether an upload of some data holds what it should: the hash of the object, the
/// size of the ciphertext, the hashes of the shards; and that any `k` of the shards
/// give the whole ciphertext, and so the object, back.
pub open spec fn holds(p: PreparedUpload, data: Seq<u8>, config: ErasureConfig, master: Seq<u8>) -> bool {
    &&& p.object_hash@ == keys::digest_of(data)
    &&& p.ciphertext_size == data.len() + encrypt::NONCE_LEN + encrypt::TAG_LEN
    &&& p.erasure_config == config
    &&& p.shards@.len() == config.k + config.m
    &&& hashed(p.shards@, p.shard_hashes@)
    &&& forall|pieces: Pieces|
        #![trigger erasure::taken_from(pieces, bytes::contents(p.shards@))]
        erasure::taken_from(pieces, bytes::contents(p.shards@)) && erasure::present(pieces)
            >= config.k ==> reconstructed(
            pieces,
            config,
            master,
            keys::digest_of(data),
            p.ciphertext_size as nat,
        ) == Ok::<Seq<u8>, PipelineError>(data) && erasure::decoded(
            pieces,
            config,
            p.ciphertext_size as nat,
        )->Ok_0.len() == p.ciphertext_size
}

/// Encrypts an object as a whole under a given nonce and cuts the ciphertext into
/// shards.
pub fn prepare_with_nonce(
    data: &[u8],
    ec_config: ErasureConfig,
    master_key: &[u8; 32],
    nonce: &[u8; 24],
) -> (r: Result<PreparedUpload, CodecError>)
    requires
        ec_config.k >= 1,
        ec_config.k + ec_config.m <= usize::MAX,
        encrypt::sealable(data@.len()),
        data@.len() + encrypt::NONCE_LEN + encrypt::TAG_LEN + ec_config.k <= usize::MAX,
    ensures
        match erasure::config_fault(ec_config.k as nat, ec_config.m as nat) {
            Some(e) => r == Err::<PreparedUpload, CodecError>(e),
            None => {
                let key = encrypt::object_key(master_key@, keys::digest_of(data@));
                &&& r is Ok
                &&& holds(r->Ok_0, data@, ec_config, master_key@)
                &&& bytes::contents(r->Ok_0.shards@) == erasure::encoded(
                    encrypt::encrypted_with(data@, key, nonce@),
                    ec_config.k as nat,
                    ec_config.m as nat,
                )->Ok_0
            },
        },
{
    let object_hash = keys::digest(data);
    let derived_key = encrypt::derive_key(master_key, &object_hash);
    let ciphertext = encrypt::encrypt_with_nonce(data, &derived_key, nonce);
    let ciphertext_size: usize = ciphertext.len();
    match erasure::encode(ciphertext.as_slice(), &ec_config) {
        Err(e) => Err(e),
        Ok(shards) => {
            let shard_hashes = hash_all(&shards);
            Ok(
                PreparedUpload {
                    object_hash,
                    ciphertext_size,
                    shards,
                    shard_hashes,
                    erasure_config: ec_config,
                },
            )
        },
    }
}

/// Encrypts an object as a whole under a fresh nonce and cuts the ciphertext into
/// shards.
pub fn prepare_upload(data: &[u8], ec_config: ErasureConfig, master_key: &[u8; 32]) -> (r: Result<
    PreparedUpload,
    CodecError,
>)
    requires
        ec_config.k >= 1,
        ec_config.k + ec_config.m <= usize::MAX,
        encrypt::sealable(data@.len()),
        data@.len() + encrypt::NONCE_LEN + encrypt::TAG_LEN + ec_config.k <= usize::MAX,
    ensures
        match erasure::config_fault(ec_config.k as nat, ec_config.m as nat) {
            Some(e) => r == Err::<PreparedUpload, CodecError>(e),
            None => {
                let key = encrypt::object_key(master_key@, keys::digest_of(data@));
                &&& r is Ok
                &&& holds(r->Ok_0, data@, ec_config, master_key@)
                &&& exists|nonce: Seq<u8>|
                    nonce.len() == 24 && bytes::contents(r->Ok_0.shards@) == erasure::encoded(
                        #[trigger] encrypt::encrypted_with(data@, key, nonce),
                        ec_config.k as nat,
                        ec_config.m as nat,
                    )->Ok_0
            },
        },
{
    let object_hash = keys::digest(data);
    let derived_key = encrypt::derive_key(master_key, &object_hash);
    let ciphertext = encrypt::encrypt_shard(data, &derived_key);
    let ciphertext_size: usize = ciphertext.len();
    let ghost nonce = ciphertext@.take(24);
    match erasure::encode(ciphertext.as_slice(), &ec_config) {
        Err(e) => Err(e),
        Ok(shards) => {
            let shard_hashes = hash_all(&shards);
            proof {
                assert(nonce.len() == 24);
                assert(ciphertext@ == encrypt::encrypted_with(data@, derived_key@, nonce));
            }
            Ok(
                PreparedUpload {
                    object_hash,
                    ciphertext_size,
                    shards,
                    shard_hashes,
                    erasure_config: ec_config,
                },
            )
        },
    }
}

/// Gives an object back from shards of its ciphertext and checks its hash.
pub fn reconstruct_object(
    shards: &[Option<&[u8]>],
    ec_config: ErasureConfig,
    master_key: &[u8; 32],
    expected_object_hash: &[u8; 32],
    ciphertext_len: usize,
) -> (r: Result<Vec<u8>, PipelineError>)
    requires
        ec_config.k + ec_config.m <= usize::MAX,
    ensures
        match reconstructed(
            erasure::pieces_of(shards@),
            ec_config,
            master_key@,
            expected_object_hash@,
            ciphertext_len as nat,
        ) {
            Ok(data) => r is Ok && r->Ok_0@ == data,
            Err(e) => r == Err::<Vec<u8>, PipelineError>(e),
        },
{
    let derived_key = encrypt::derive_key(master_key, expected_object_hash);
    let recovered = match erasure::decode(shards, &ec_config, ciphertext_len) {
        Ok(c) => c,
        Err(e) => {
            return Err(PipelineError::Decode(e));
        },
    };
    let plaintext = match encrypt::decrypt_shard(recovered.as_slice(), &derived_key) {
        Ok(p) => p,
        Err(e) => {
            return Err(PipelineError::Decrypt(e));
        },
    };
    let computed = keys::digest(plaintext.as_slice());
    if !bytes::same_bytes(
        vstd::array::array_as_slice(&computed),
        vstd::array::array_as_slice(expected_object_hash),
    ) {
        return Err(PipelineError::Integrity);
    }
    Ok(plaintext)
}

/// What some shards under one scheme become under another.
pub open spec fn reencoded(pieces: Pieces, from: ErasureConfig, len: nat, to: ErasureConfig) -> Result<
    Seq<Seq<u8>>,
    PipelineError,
> {
    match erasure::decoded(pieces, from, len) {
        Err(e) => Err(PipelineError::Decode(e)),
        Ok(ciphertext) => match erasure::encoded(ciphertext, to.k as nat, to.m as nat) {
            Err(e) => Err(PipelineError::Encode(e)),
            Ok(shards) => Ok(shards),
        },
    }
}

/// Whether shards under a scheme keep what others under another gave back, a
/// ciphertext of the given length: any `k` of them decode to the same.
pub open spec fn keeps(
    pieces: Pieces,
    from: ErasureConfig,
    len: nat,
    shards: Seq<Seq<u8>>,
    to: ErasureConfig,
) -> bool {
    erasure::decoded(pieces, from, len)->Ok_0.len() == len ==> forall|some: Pieces|
        #![trigger erasure::taken_from(some, shards)]
        erasure::taken_from(some, shards) && erasure::present(some) >= to.k ==> erasure::decoded(
            some,
            to,
            len,
        ) == erasure::decoded(pieces, from, len)
}

/// Decodes surviving shards and cuts the ciphertext anew, under another scheme. No
/// key is needed.
pub fn reencode(
    shards: &[Option<&[u8]>],
    from: ErasureConfig,
    ciphertext_size: usize,
    to: ErasureConfig,
) -> (r: Result<Vec<Vec<u8>>, PipelineError>)
    requires
        from.k + from.m <= usize::MAX,
        to.k >= 1,
        to.k + to.m <= usize::MAX,
        ciphertext_size + to.k <= usize::MAX,
    ensures
        match reencoded(erasure::pieces_of(shards@), from, ciphertext_size as nat, to) {
            Ok(all) => r is Ok && bytes::contents(r->Ok_0@) == all && r->Ok_0@.len() == to.k + to.m,
            Err(e) => r == Err::<Vec<Vec<u8>>, PipelineError>(e),
        },
        r matches Ok(all) ==> keeps(
            erasure::pieces_of(shards@),
            from,
            ciphertext_size as nat,
            bytes::contents(all@),
            to,
        ),
{
    let ciphertext = match erasure::decode(shards, &from, ciphertext_size) {
        Ok(c) => c,
        Err(e) => {
            return Err(PipelineError::Decode(e));
        },
    };
    match erasure::encode(ciphertext.as_slice(), &to) {
        Ok(all) => Ok(all),
        Err(e) => Err(PipelineError::Encode(e)),
    }
}

/// A storage node that shards can be pushed to or pulled from.
#[derive(Debug, Clone, PartialEq, Eq)]
pub struct StorageTarget {
    pub node_id: [u8; 32],
    pub addr: String,
    pub relay_url: Option<String>,
}

/// The contents of a storage target.
pub struct TargetView {
    pub node_id: Seq<u8>,
    pub addr: Seq<char>,
    pub relay_url: Option<Seq<char>>,
}

impl View for StorageTarget {
    type V = TargetView;

    open spec fn view(&self) -> TargetView {
        TargetView {
            node_id: self.node_id@,
            addr: self.addr@,
            relay_url: types::optional_text(self.relay_url),
        }
    }
}

impl StorageTarget {
    /// A second target with the same contents.
    pub fn copied(&self) -> (r: Self)
        ensures
            r@ == self@,
    {
        StorageTarget {
            node_id: self.node_id,
            addr: self.addr.clone(),
            relay_url: types::copy_optional(&self.relay_url),
        }
    }
}

/// The scheme that a pool of nodes can carry: the wanted one where there is a node
/// for each shard; else one shard per node, with at least one parity shard as soon
/// as there are two nodes.
pub open spec fn degraded(target: ErasureConfig, pool: nat) -> (nat, nat) {
    if pool >= target.k + target.m {
        (target.k as nat, target.m as nat)
    } else {
        let most = if pool >= 2 {
            (pool - 1) as nat
        } else {
            1
        };
        let k = if (target.k as nat) < most {
            target.k as nat
        } else {
            most
        };
        (k, (pool - k) as nat)
    }
}

/// The scheme that a pool of `pool` nodes can carry.
pub fn degrade(target: ErasureConfig, pool: usize) -> (r: ErasureConfig)
    requires
        pool >= 1,
        target.k + target.m <= usize::MAX,
    ensures
        (r.k as nat, r.m as nat) == degraded(target, pool as nat),
        r.k + r.m == (if pool < target.k + target.m {
            pool as int
        } else {
            target.k + target.m
        }),
        target.k >= 1 ==> r.k >= 1,
        r.k <= target.k,
        target.k >= 1 && target.m >= 1 && pool >= 2 ==> r.m >= 1,
{
    if pool >= target.total_shards() {
        return target;
    }
    let most: usize = if pool >= 2 {
        pool - 1
    } else {
        1
    };
    let k: usize = if target.k < most {
        target.k
    } else {
        most
    };
    ErasureConfig { k, m: pool - k }
}

/// `rand`'s `SliceRandom::shuffle` with the thread's generator: the same items in
/// some order. Which order is not said.
#[verifier::external_body]
fn shuffled(order: Vec<usize>) -> (r: Vec<usize>)
    ensures
        r@.to_multiset() == order@.to_multiset(),
{
    let mut order = order;
    order.shuffle(&mut rand::thread_rng());
    order
}

/// Whether a list holds different places, each below `n`.
pub open spec fn distinct_places(order: Seq<usize>, n: nat) -> bool {
    order.no_duplicates() && forall|i: int| 0 <= i < order.len() ==> (#[trigger] order[i]) < n
}

/// All places below `n`, in random order.
pub(crate) fn random_order(n: usize) -> (r: Vec<usize>)
    ensures
        r@.len() == n,
        distinct_places(r@, n as nat),
{
    let mut places: Vec<usize> = Vec::new();
    let mut i: usize = 0;
    while i < n
        invariant
            i <= n,
            places@.len() == i,
            forall|j: int| 0 <= j < i ==> (#[trigger] places@[j]) == j,
        decreases n - i,
    {
        places.push(i);
        i = i + 1;
    }
    let order = shuffled(places);
    proof {
        broadcast use vstd::seq_lib::group_to_multiset_ensures;

        places@.to_multiset_ensures();
        order@.to_multiset_ensures();
        assert(places@.no_duplicates());
        places@.lemma_multiset_has_no_duplicates();
        order@.lemma_multiset_has_no_duplicates_conv();
        assert forall|j: int| 0 <= j < order@.len() implies (#[trigger] order@[j]) < n by {
            assert(order@.contains(order@[j]));
            assert(order@.to_multiset().count(order@[j]) > 0);
            assert(places@.contains(order@[j]));
        }
        assert(order@.len() == places@.len());
    }
    order
}

/// The nodes in the given places of a pool.
pub fn pick(pool: &Vec<StorageTarget>, order: &Vec<usize>, count: usize) -> (r: Vec<StorageTarget>)
    requires
        count <= order@.len(),
        forall|i: int| 0 <= i < order@.len() ==> (#[trigger] order@[i]) < pool@.len(),
    ensures
        r@.len() == count,
        forall|i: int| 0 <= i < count ==> (#[trigger] r@[i])@ == pool@[order@[i] as int]@,
{
    let mut out: Vec<StorageTarget> = Vec::new();
    let mut i: usize = 0;
    while i < count
        invariant
            i <= count <= order@.len(),
            forall|i: int| 0 <= i < order@.len() ==> (#[trigger] order@[i]) < pool@.len(),
            out@.len() == i,
            forall|j: int| 0 <= j < i ==> (#[trigger] out@[j])@ == pool@[order@[j] as int]@,
        decreases count - i,
    {
        let at: usize = order[i];
        out.push(pool[at].copied());
        i = i + 1;
    }
    out
}

/// Chooses the scheme and the nodes for an object: as many different nodes of the
/// pool, in random order, as the scheme has shards. There is no choice where the
/// pool is empty.
pub fn assign_shards(pool: &Vec<StorageTarget>, target: ErasureConfig) -> (r: Option<
    (ErasureConfig, Vec<StorageTarget>),
>)
    requires
        target.k + target.m <= usize::MAX,
    ensures
        r is Some <==> pool@.len() > 0,
        r matches Some(a) ==> {
            &&& (a.0.k as nat, a.0.m as nat) == degraded(target, pool@.len())
            &&& a.1@.len() == a.0.k + a.0.m
            &&& exists|order: Seq<usize>| #[trigger]
                distinct_places(order, pool@.len()) && order.len() == a.1@.len() && forall|i: int|
                    0 <= i < order.len() ==> (#[trigger] a.1@[i])@ == pool@[order[i] as int]@
        },
{
    if pool.len() == 0 {
        return None;
    }
    let config = degrade(target, pool.len());
    let total: usize = config.total_shards();
    let order = random_order(pool.len());
    let targets = pick(pool, &order, total);
    proof {
        let first = order@.take(total as int);
        assert(distinct_places(first, pool@.len())) by {
            assert forall|j: int| 0 <= j < first.len() implies (#[trigger] first[j])
                < pool@.len() by {
                assert(first[j] == order@[j]);
            }
        }
        assert forall|j: int| 0 <= j < first.len() implies (#[trigger] targets@[j])@
            == pool@[first[j] as int]@ by {
            assert(first[j] == order@[j]);
        }
    }
    Some((config, targets))
}

/// Why there is no place for an object.
#[derive(Debug, Clone, Copy, PartialEq, Eq, Structural)]
pub enum PlanError {
    /// No storage node is online.
    NoHealthyNodes,
    /// There is nowhere to put a shard.
    NoTargets,
}

impl PlanError {
    /// What went wrong, in words.
    pub open spec fn words(&self) -> Seq<char> {
        match *self {
            PlanError::NoHealthyNodes => "no healthy storage nodes"@,
            PlanError::NoTargets => "no storage targets to distribute shards to"@,
        }
    }

    /// What went wrong, in words.
    pub fn message(&self) -> (r: String)
        ensures
            r@ == self.words(),
    {
        match self {
            PlanError::NoHealthyNodes => text::owned("no healthy storage nodes"),
            PlanError::NoTargets => text::owned("no storage targets to distribute shards to"),
        }
    }
}

/// The contents of some targets.
pub open spec fn target_views(targets: Seq<StorageTarget>) -> Seq<TargetView> {
    targets.map_values(|t: StorageTarget| t@)
}

/// Chooses scheme and nodes for an upload: nodes that were asked for take the wanted
/// scheme; else nodes are assigned from the pool of those online.
pub fn plan_upload(given: &Vec<StorageTarget>, pool: &Vec<StorageTarget>, target: ErasureConfig) -> (r: Result<
    (ErasureConfig, Vec<StorageTarget>),
    PlanError,
>)
    requires
        target.k + target.m <= usize::MAX,
    ensures
        given@.len() > 0 ==> r is Ok && r->Ok_0.0 == target && target_views(r->Ok_0.1@)
            == target_views(given@),
        given@.len() == 0 && pool@.len() == 0 ==> r == Err::<
            (ErasureConfig, Vec<StorageTarget>),
            PlanError,
        >(PlanError::NoHealthyNodes),
        given@.len() == 0 && pool@.len() > 0 && target.k + target.m == 0 ==> r == Err::<
            (ErasureConfig, Vec<StorageTarget>),
            PlanError,
        >(PlanError::NoTargets),
        given@.len() == 0 && pool@.len() > 0 && target.k + target.m > 0 ==> r is Ok && {
            let (config, targets) = r->Ok_0;
            &&& (config.k as nat, config.m as nat) == degraded(target, pool@.len())
            &&& targets@.len() == config.k + config.m
            &&& exists|order: Seq<usize>| #[trigger]
                distinct_places(order, pool@.len()) && order.len() == targets@.len()
                    && forall|i: int|
                    0 <= i < order.len() ==> (#[trigger] targets@[i])@ == pool@[order[i] as int]@
        },
{
    if given.len() > 0 {
        let mut targets: Vec<StorageTarget> = Vec::new();
        let mut i: usize = 0;
        while i < given.len()
            invariant
                i <= given@.len(),
                targets@.len() == i,
                forall|j: int| 0 <= j < i ==> (#[trigger] targets@[j])@ == given@[j]@,
            decreases given@.len() - i,
        {
            targets.push(given[i].copied());
            i = i + 1;
        }
        assert(target_views(targets@) =~= target_views(given@));
        return Ok((target, targets));
    }
    match assign_shards(pool, target) {
        None => Err(PlanError::NoHealthyNodes),
        Some((config, targets)) => {
            if targets.len() == 0 {
                Err(PlanError::NoTargets)
            } else {
                Ok((config, targets))
            }
        },
    }
}

/// Where the shard in place `i` goes: the nodes take turns.
pub open spec fn round_robin(i: int, nodes: nat) -> int {
    i % nodes as int
}

/// Spreads shards over nodes, which take turns.
pub fn place_shards(hashes: &Vec<[u8; 32]>, targets: &Vec<StorageTarget>) -> (r: Vec<ShardPlacement>)
    requires
        targets@.len() > 0,
        hashes@.len() <= 256,
    ensures
        r@.len() == hashes@.len(),
        forall|i: int|
            0 <= i < r@.len() ==> (#[trigger] r@[i]).shard_index == i && r@[i].blob_hash
                == hashes@[i] && r@[i].node_id == targets@[round_robin(
                i,
                targets@.len(),
            )].node_id,
{
    let mut out: Vec<ShardPlacement> = Vec::new();
    let mut i: usize = 0;
    while i < hashes.len()
        invariant
            i <= hashes@.len() <= 256,
            targets@.len() > 0,
            out@.len() == i,
            forall|j: int|
                0 <= j < i ==> (#[trigger] out@[j]).shard_index == j && out@[j].blob_hash
                    == hashes@[j] && out@[j].node_id == targets@[round_robin(
                    j,
                    targets@.len(),
                )].node_id,
        decreases hashes@.len() - i,
    {
        let at: usize = i % targets.len();
        out.push(
            ShardPlacement {
                shard_index: i as u8,
                node_id: targets[at].node_id,
                blob_hash: hashes[i],
            },
        );
        i = i + 1;
    }
    out
}

/// The manifest of an object whose shards are placed. `original_size` is the size of
/// the object itself.
pub fn build_manifest(
    bucket: &str,
    key: &str,
    object_hash: &[u8; 32],
    original_size: u64,
    ciphertext_size: u64,
    config: ErasureConfig,
    hashes: &Vec<[u8; 32]>,
    targets: &Vec<StorageTarget>,
) -> (r: Manifest)
    requires
        targets@.len() > 0,
        hashes@.len() <= 256,
        config.k < 256,
        config.m < 256,
    ensures
        r.bucket@ == bucket@,
        r.key@ == key@,
        r.object_hash == *object_hash,
        r.original_size == original_size,
        r.ciphertext_size == ciphertext_size,
        r.k == config.k,
        r.m == config.m,
        r.shards@.len() == hashes@.len(),
        forall|i: int|
            0 <= i < r.shards@.len() ==> (#[trigger] r.shards@[i]).shard_index == i
                && r.shards@[i].blob_hash == hashes@[i] && r.shards@[i].node_id
                == targets@[round_robin(i, targets@.len())].node_id,
{
    Manifest {
        bucket: text::owned(bucket),
        key: text::owned(key),
        object_hash: *object_hash,
        original_size,
        ciphertext_size,
        k: config.k as u8,
        m: config.m as u8,
        shards: place_shards(hashes, targets),
    }
}

/// The route of an object's manifest.
pub open spec fn manifest_route_of(bucket: Seq<char>, key: Seq<char>) -> Seq<char> {
    "manifest/"@ + bucket + "/"@ + key
}

/// The route of an object's manifest.
pub fn manifest_route(bucket: &str, key: &str) -> (r: String)
    ensures
        r@ == manifest_route_of(bucket@, key@),
{
    let head = text::join3("manifest/", bucket, "/");
    text::join2(head.as_str(), key)
}

/// Why a manifest is not believed.
#[derive(Debug, Clone, Copy, PartialEq, Eq, Structural)]
pub enum ManifestError {
    /// A signature has 64 bytes.
    SignatureLength,
    /// The signature is not accepted.
    Signature,
}

/// Whether a manifest's bytes are believed under their signature: it has to be the
/// owner's.
pub open spec fn believed(
    manifest_bytes: Seq<u8>,
    signature: Seq<u8>,
    owner: Seq<u8>,
) -> Result<(), ManifestError> {
    if signature.len() != 64 {
        Err(ManifestError::SignatureLength)
    } else if keys::verifies(owner, manifest_bytes, signature) {
        Ok(())
    } else {
        Err(ManifestError::Signature)
    }
}

/// Checks the signature of a manifest's bytes, as the holder of a secret key does of
/// a manifest of their own.
pub fn check_own_manifest(manifest_bytes: &[u8], signature: &[u8], secret_key: &[u8; 32]) -> (r: Result<
    (),
    ManifestError,
>)
    ensures
        r == believed(manifest_bytes@, signature@, keys::public_of(secret_key@)),
{
    match bytes::to_array64(signature) {
        None => Err(ManifestError::SignatureLength),
        Some(s) => {
            let public = keys::public_key(secret_key);
            if manifest::verify_manifest(manifest_bytes, &s, &public) {
                Ok(())
            } else {
                Err(ManifestError::Signature)
            }
        },
    }
}

/// The places of an object's shards, filled with what was fetched for each
/// placement.
pub open spec fn filled(
    total: nat,
    placements: Seq<ShardPlacement>,
    fetched: Seq<Option<Seq<u8>>>,
) -> Pieces
    decreases placements.len(),
{
    if placements.len() == 0 {
        Seq::new(total, |i: int| None::<Seq<u8>>)
    } else {
        let before = filled(total, placements.drop_last(), fetched.drop_last());
        match fetched.last() {
            Some(shard) => before.update(placements.last().shard_index as int, Some(shard)),
            None => before,
        }
    }
}

/// The placements that a download fetches from, in the order in which it tries them:
/// all of them, so that others can stand in for those that are lost.
pub fn fetch_plan(manifest: &Manifest) -> (r: Vec<ShardPlacement>)
    ensures
        r@ == manifest.shards@,
{
    let mut out: Vec<ShardPlacement> = Vec::new();
    let mut i: usize = 0;
    while i < manifest.shards.len()
        invariant
            i <= manifest.shards@.len(),
            out@ == manifest.shards@.take(i as int),
        decreases manifest.shards@.len() - i,
    {
        out.push(manifest.shards[i]);
        i = i + 1;
        assert(out@ =~= manifest.shards@.take(i as int));
    }
    assert(out@ =~= manifest.shards@);
    out
}

/// Whether every placement names a place below `total`.
pub open spec fn in_places(placements: Seq<ShardPlacement>, total: nat) -> bool {
    forall|i: int| 0 <= i < placements.len() ==> (#[trigger] placements[i]).shard_index < total
}

/// Puts what was fetched for each placement into its place.
pub fn fill_slots(
    total: usize,
    placements: &Vec<ShardPlacement>,
    fetched: Vec<Option<Vec<u8>>>,
) -> (r: Vec<Option<Vec<u8>>>)
    requires
        in_places(placements@, total as nat),
        fetched@.len() == placements@.len(),
    ensures
        r@.len() == total,
        erasure::owned_pieces(r@) == filled(
            total as nat,
            placements@,
            erasure::owned_pieces(fetched@),
        ),
{
    let ghost all = erasure::owned_pieces(fetched@);
    let mut slots: Vec<Option<Vec<u8>>> = Vec::new();
    while slots.len() < total
        invariant
            slots@.len() <= total,
            forall|j: int| 0 <= j < slots@.len() ==> (#[trigger] slots@[j]) is None,
        decreases total - slots@.len(),
    {
        slots.push(None);
    }
    assert(erasure::owned_pieces(slots@) =~= filled(
        total as nat,
        placements@.take(0),
        all.take(0),
    ));
    let mut fetched = fetched;
    let mut i: usize = 0;
    while i < placements.len()
        invariant
            i <= placements@.len(),
            in_places(placements@, total as nat),
            slots@.len() == total,
            fetched@.len() == placements@.len(),
            all.len() == placements@.len(),
            forall|j: int|
                i <= j < fetched@.len() ==> #[trigger] erasure::owned_pieces(fetched@)[j] == all[j],
            erasure::owned_pieces(slots@) == filled(
                total as nat,
                placements@.take(i as int),
                all.take(i as int),
            ),
        decreases placements@.len() - i,
    {
        let ghost before = slots@;
        let mut shard: Option<Vec<u8>> = None;
        let ghost got = fetched@[i as int];
        assert(erasure::owned_pieces(fetched@)[i as int] == all[i as int]);
        let ghost still = fetched@;
        std::mem::swap(&mut shard, &mut fetched[i]);
        assert(shard == got);
        proof {
            assert forall|j: int| i + 1 <= j < fetched@.len() implies #[trigger]
                erasure::owned_pieces(fetched@)[j] == all[j] by {
                assert(fetched@[j] == still[j]);
                assert(erasure::owned_pieces(still)[j] == all[j]);
            }
            assert(placements@.take(i + 1).drop_last() =~= placements@.take(i as int));
            assert(all.take(i + 1).drop_last() =~= all.take(i as int));
            assert(placements@[i as int].shard_index < total);
        }
        if shard.is_some() {
            let at: usize = placements[i].shard_index as usize;
            slots.set(at, shard);
            assert(erasure::owned_pieces(slots@) =~= erasure::owned_pieces(before).update(
                at as int,
                all[i as int],
            ));
        }
        i = i + 1;
    }
    assert(placements@.take(i as int) =~= placements@);
    assert(all.take(i as int) =~= all);
    slots
}

/// Borrows the shards of a list.
pub fn borrow_all(slots: &Vec<Option<Vec<u8>>>) -> (r: Vec<Option<&[u8]>>)
    ensures
        erasure::pieces_of(r@) == erasure::owned_pieces(slots@),
{
    let mut out: Vec<Option<&[u8]>> = Vec::new();
    let mut i: usize = 0;
    while i < slots.len()
        invariant
            i <= slots@.len(),
            erasure::pieces_of(out@) == erasure::owned_pieces(slots@).take(i as int),
        decreases slots@.len() - i,
    {
        let ghost before = out@;
        match &slots[i] {
            Some(s) => {
                out.push(Some(s.as_slice()));
                assert(erasure::pieces_of(out@) =~= erasure::pieces_of(before).push(Some(s@)));
                assert(erasure::owned_pieces(slots@)[i as int] == Some(s@));
            },
            None => {
                out.push(None);
                assert(erasure::pieces_of(out@) =~= erasure::pieces_of(before).push(None));
                assert(erasure::owned_pieces(slots@)[i as int] is None);
            },
        }
        i = i + 1;
        assert(erasure::pieces_of(out@) =~= erasure::owned_pieces(slots@).take(i as int));
    }
    assert(erasure::owned_pieces(slots@).take(i as int) =~= erasure::owned_pieces(slots@));
    out
}

/// The scheme that a manifest records.
pub open spec fn scheme(m: Manifest) -> ErasureConfig {
    ErasureConfig { k: m.k as usize, m: m.m as usize }
}

/// Gives an object back from what was fetched for each placement of its manifest.
/// The scheme is the one that the manifest records.
pub fn assemble(manifest: &Manifest, fetched: Vec<Option<Vec<u8>>>, master_key: &[u8; 32]) -> (r: Result<
    Vec<u8>,
    PipelineError,
>)
    requires
        fetched@.len() == manifest.shards@.len(),
        in_places(manifest.shards@, (manifest.k + manifest.m) as nat),
        manifest.ciphertext_size <= usize::MAX,
    ensures
        match reconstructed(
            filled(
                (manifest.k + manifest.m) as nat,
                manifest.shards@,
                erasure::owned_pieces(fetched@),
            ),
            scheme(*manifest),
            master_key@,
            manifest.object_hash@,
            manifest.ciphertext_size as nat,
        ) {
            Ok(data) => r is Ok && r->Ok_0@ == data,
            Err(e) => r == Err::<Vec<u8>, PipelineError>(e),
        },
{
    let total: usize = manifest.k as usize + manifest.m as usize;
    let slots = fill_slots(total, &manifest.shards, fetched);
    let refs = borrow_all(&slots);
    reconstruct_object(
        refs.as_slice(),
        ErasureConfig { k: manifest.k as usize, m: manifest.m as usize },
        master_key,
        &manifest.object_hash,
        manifest.ciphertext_size as usize,
    )
}

/// Whether what was fetched for the first placements of a manifest is enough to give
/// the object back: `k` of its places are filled.
pub open spec fn enough(m: Manifest, fetched: Seq<Option<Seq<u8>>>) -> bool {
    erasure::present(
        filled((m.k + m.m) as nat, m.shards@.take(fetched.len() as int), fetched),
    ) >= m.k
}

/// What to fetch next, after what was fetched for the first placements of a manifest:
/// nothing where that is enough or no placement is left.
pub fn next_fetch(manifest: &Manifest, fetched: &Vec<Option<Vec<u8>>>) -> (r: Option<
    ShardPlacement,
>)
    requires
        fetched@.len() <= manifest.shards@.len(),
        in_places(manifest.shards@, (manifest.k + manifest.m) as nat),
    ensures
        r is None <==> enough(*manifest, erasure::owned_pieces(fetched@)) || fetched@.len()
            == manifest.shards@.len(),
        r is Some ==> r->0 == manifest.shards@[fetched@.len() as int],
{
    let total: usize = manifest.k as usize + manifest.m as usize;
    let ghost all = erasure::owned_pieces(fetched@);
    let ghost mut f = Seq::new(total as nat, |i: int| None::<Seq<u8>>);
    let mut there: Vec<bool> = Vec::new();
    while there.len() < total
        invariant
            there@.len() <= total,
            forall|j: int| 0 <= j < there@.len() ==> !(#[trigger] there@[j]),
        decreases total - there@.len(),
    {
        there.push(false);
    }
    let mut found: usize = 0;
    let mut i: usize = 0;
    proof {
        lemma_present_none(f);
        assert(f =~= filled(total as nat, manifest.shards@.take(0), all.take(0)));
    }
    while i < fetched.len()
        invariant
            i <= fetched@.len() <= manifest.shards@.len(),
            total == manifest.k + manifest.m,
            in_places(manifest.shards@, total as nat),
            all == erasure::owned_pieces(fetched@),
            f == filled(total as nat, manifest.shards@.take(i as int), all.take(i as int)),
            f.len() == total,
            there@.len() == total,
            forall|j: int| 0 <= j < total ==> (#[trigger] there@[j] <==> f[j] is Some),
            found == erasure::present(f),
            found <= i,
        decreases fetched@.len() - i,
    {
        proof {
            assert(manifest.shards@.take(i + 1).drop_last() =~= manifest.shards@.take(i as int));
            assert(all.take(i + 1).drop_last() =~= all.take(i as int));
            assert(manifest.shards@[i as int].shard_index < total);
        }
        if let Some(shard) = &fetched[i] {
            let at: usize = manifest.shards[i].shard_index as usize;
            proof {
                lemma_present_update(f, at as int, shard@);
                assert(all[i as int] == Some(shard@));
                f = f.update(at as int, Some(shard@));
            }
            if !there[at] {
                found = found + 1;
                there.set(at, true);
            }
        }
        i = i + 1;
    }
    proof {
        assert(all.take(i as int) =~= all);
    }
    if found >= manifest.k as usize || fetched.len() == manifest.shards.len() {
        None
    } else {
        Some(manifest.shards[fetched.len()])
    }
}

proof fn lemma_present_none(f: Pieces)
    requires
        forall|i: int| 0 <= i < f.len() ==> (#[trigger] f[i]) is None,
    ensures
        erasure::present(f) == 0,
    decreases f.len(),
{
    if f.len() > 0 {
        assert(f[f.len() - 1] is None);
        lemma_present_none(f.drop_last());
    }
}

proof fn lemma_present_update(f: Pieces, at: int, shard: Seq<u8>)
    requires
        0 <= at < f.len(),
    ensures
        erasure::present(f.update(at, Some(shard))) == erasure::present(f) + (if f[at] is Some {
            0int
        } else {
            1
        }),
    decreases f.len(),
{
    let g = f.update(at, Some(shard));
    if at == f.len() - 1 {
        assert(g.drop_last() =~= f.drop_last());
    } else {
        lemma_present_update(f.drop_last(), at, shard);
        assert(g.drop_last() =~= f.drop_last().update(at, Some(shard)));
    }
}

/// What was fetched by placements that are in order lies in the places it came from.
pub proof fn fetched_in_order(placements: Seq<ShardPlacement>, fetched: Seq<Option<Seq<u8>>>)
    requires
        fetched.len() == placements.len(),
        forall|i: int|
            0 <= i < placements.len() ==> (#[trigger] placements[i]).shard_index == i,
    ensures
        filled(placements.len(), placements, fetched) == fetched,
{
    lemma_filled(placements, fetched, placements.len());
    assert(placements.take(placements.len() as int) =~= placements);
    assert(fetched.take(fetched.len() as int) =~= fetched);
    assert(filled(placements.len(), placements, fetched) =~= fetched);
}

proof fn lemma_filled(placements: Seq<ShardPlacement>, fetched: Seq<Option<Seq<u8>>>, n: nat)
    requires
        n <= placements.len(),
        fetched.len() == placements.len(),
        forall|i: int|
            0 <= i < placements.len() ==> (#[trigger] placements[i]).shard_index == i,
    ensures
        ({
            let f = filled(placements.len(), placements.take(n as int), fetched.take(n as int));
            f.len() == placements.len() && forall|i: int|
                0 <= i < f.len() ==> (#[trigger] f[i]) == (if i < n {
                    fetched[i]
                } else {
                    None::<Seq<u8>>
                })
        }),
    decreases n,
{
    if n > 0 {
        lemma_filled(placements, fetched, (n - 1) as nat);
        assert(placements.take(n as int).drop_last() =~= placements.take(n - 1));
        assert(fetched.take(n as int).drop_last() =~= fetched.take(n - 1));
        assert(placements.take(n as int).last() == placements[n - 1]);
    }
}

/// What a download gives back of an upload: an object that was prepared, and whose
/// shards were placed in order, comes out as it went in, whichever of its shards are
/// lost, as long as `k` of them were fetched as they were.
pub proof fn download_gives_back_upload(
    upload: PreparedUpload,
    data: Seq<u8>,
    config: ErasureConfig,
    master: Seq<u8>,
    manifest: Manifest,
    fetched: Seq<Option<Seq<u8>>>,
)
    requires
        holds(upload, data, config, master),
        scheme(manifest) == config,
        manifest.object_hash == upload.object_hash,
        manifest.ciphertext_size == upload.ciphertext_size,
        manifest.shards@.len() == upload.shards@.len(),
        forall|i: int|
            0 <= i < manifest.shards@.len() ==> (#[trigger] manifest.shards@[i]).shard_index == i,
        erasure::taken_from(fetched, bytes::contents(upload.shards@)),
        erasure::present(fetched) >= config.k,
    ensures
        reconstructed(
            filled((manifest.k + manifest.m) as nat, manifest.shards@, fetched),
            scheme(manifest),
            master,
            manifest.object_hash@,
            manifest.ciphertext_size as nat,
        ) == Ok::<Seq<u8>, PipelineError>(data),
{
    fetched_in_order(manifest.shards@, fetched);
}

/// What comes of the shards of an upload where some nodes are lost: those that lie on
/// a lost node are missing, the others come as they were.
pub open spec fn without_nodes(
    shards: Seq<Seq<u8>>,
    placements: Seq<ShardPlacement>,
    lost: Set<Seq<u8>>,
) -> Seq<Option<Seq<u8>>> {
    Seq::new(
        placements.len(),
        |i: int|
            if lost.contains(placements[i].node_id@) {
                None
            } else {
                Some(shards[i])
            },
    )
}

proof fn lemma_few_are_lost(
    shards: Seq<Seq<u8>>,
    placements: Seq<ShardPlacement>,
    lost: Set<Seq<u8>>,
)
    requires
        lost.finite(),
        forall|i: int, j: int|
            0 <= i < j < placements.len() ==> (#[trigger] placements[i]).node_id@ != (
            #[trigger] placements[j]).node_id@,
    ensures
        erasure::present(without_nodes(shards, placements, lost)) + lost.len()
            >= placements.len(),
    decreases placements.len(),
{
    if placements.len() > 0 {
        let front = placements.drop_last();
        let id = placements.last().node_id@;
        let all = without_nodes(shards, placements, lost);
        if lost.contains(id) {
            lemma_few_are_lost(shards, front, lost.remove(id));
            assert(all.drop_last() =~= without_nodes(shards, front, lost.remove(id))) by {
                assert forall|i: int| 0 <= i < front.len() implies #[trigger] all.drop_last()[i]
                    == without_nodes(shards, front, lost.remove(id))[i] by {
                    assert(placements[i].node_id@ != placements[placements.len() - 1].node_id@);
                }
            }
        } else {
            lemma_few_are_lost(shards, front, lost);
            assert(all.drop_last() =~= without_nodes(shards, front, lost));
        }
    }
}

/// An object that was uploaded with `m` parity shards, each shard on a node of its
/// own, comes out as it went in though up to `m` nodes are lost, whichever they are.
pub proof fn objects_survive_lost_nodes(
    upload: PreparedUpload,
    data: Seq<u8>,
    config: ErasureConfig,
    master: Seq<u8>,
    manifest: Manifest,
    lost: Set<Seq<u8>>,
)
    requires
        holds(upload, data, config, master),
        scheme(manifest) == config,
        manifest.object_hash == upload.object_hash,
        manifest.ciphertext_size == upload.ciphertext_size,
        manifest.shards@.len() == upload.shards@.len(),
        forall|i: int|
            0 <= i < manifest.shards@.len() ==> (#[trigger] manifest.shards@[i]).shard_index == i,
        forall|i: int, j: int|
            0 <= i < j < manifest.shards@.len() ==> (#[trigger] manifest.shards@[i]).node_id@ != (
            #[trigger] manifest.shards@[j]).node_id@,
        lost.finite(),
        lost.len() <= config.m,
    ensures
        reconstructed(
            filled(
                (manifest.k + manifest.m) as nat,
                manifest.shards@,
                without_nodes(bytes::contents(upload.shards@), manifest.shards@, lost),
            ),
            scheme(manifest),
            master,
            manifest.object_hash@,
            manifest.ciphertext_size as nat,
        ) == Ok::<Seq<u8>, PipelineError>(data),
{
    let shards = bytes::contents(upload.shards@);
    let fetched = without_nodes(shards, manifest.shards@, lost);
    lemma_few_are_lost(shards, manifest.shards@, lost);
    download_gives_back_upload(upload, data, config, master, manifest, fetched);
}

/// An object that was repaired still downloads: shards that keep what those of its
/// upload gave back, placed in order, give the object back, whichever of them are
/// lost, as long as `k` of the new scheme were fetched as they were.
pub proof fn repaired_objects_download(
    upload: PreparedUpload,
    data: Seq<u8>,
    config: ErasureConfig,
    master: Seq<u8>,
    survivors: Pieces,
    shards: Seq<Seq<u8>>,
    repaired: Manifest,
    fetched: Seq<Option<Seq<u8>>>,
)
    requires
        holds(upload, data, config, master),
        erasure::taken_from(survivors, bytes::contents(upload.shards@)),
        erasure::present(survivors) >= config.k,
        keeps(survivors, config, upload.ciphertext_size as nat, shards, scheme(repaired)),
        shards.len() == repaired.k + repaired.m,
        repaired.object_hash == upload.object_hash,
        repaired.ciphertext_size == upload.ciphertext_size,
        repaired.shards@.len() == shards.len(),
        forall|i: int|
            0 <= i < repaired.shards@.len() ==> (#[trigger] repaired.shards@[i]).shard_index == i,
        erasure::taken_from(fetched, shards),
        erasure::present(fetched) >= repaired.k,
    ensures
        reconstructed(
            filled((repaired.k + repaired.m) as nat, repaired.shards@, fetched),
            scheme(repaired),
            master,
            repaired.object_hash@,
            repaired.ciphertext_size as nat,
        ) == Ok::<Seq<u8>, PipelineError>(data),
{
    fetched_in_order(repaired.shards@, fetched);
    assert(reconstructed(
        survivors,
        config,
        master,
        keys::digest_of(data),
        upload.ciphertext_size as nat,
    ) == Ok::<Seq<u8>, PipelineError>(data));
}

} // verus!
