//! Upload and download of whole objects.
use arkel::client::encrypt;
use arkel::client::manifest::{Manifest, ShardPlacement};
use arkel::dataplane::erasure::{CodecError, DecodeError, ErasureConfig};
use arkel::dataplane::{
    assemble, assign_shards, borrow_all, build_manifest, check_own_manifest, degrade, fetch_plan,
    fill_slots, hash_all, manifest_route, next_fetch, pick, place_shards, plan_upload, prepare_upload,
    prepare_with_nonce, reconstruct_object, reencode, ManifestError, PipelineError, PlanError,
    StorageTarget,
};
use arkel::gateway;

fn hash_of(data: &[u8]) -> [u8; 32] {
    *blake3::hash(data).as_bytes()
}

fn target(n: u8) -> StorageTarget {
    StorageTarget { node_id: [n; 32], addr: format!("10.0.0.{}:4000", n), relay_url: None }
}

#[test]
fn test_prepare_reconstruct_roundtrip() {
    let ec_config = ErasureConfig { k: 4, m: 2 };
    let master = [0u8; 32];
    let data = b"Hello world";

    let prepared = prepare_upload(data, ec_config, &master).unwrap();

    // Simulate losing shards 2 and 5 (indices 2 and 5).
    let mut available = vec![None; prepared.shards.len()];
    for (i, shard) in prepared.shards.iter().enumerate() {
        if i != 2 && i != 5 {
            available[i] = Some(shard.as_slice());
        }
    }

    let object_hash = hash_of(data);
    let recovered = reconstruct_object(
        &available,
        ec_config,
        &master,
        &object_hash,
        prepared.ciphertext_size,
    )
    .unwrap();
    assert_eq!(recovered, data);
}

#[test]
fn mod_test_prepare_reconstruct_roundtrip() {
    let ec_config = ErasureConfig { k: 4, m: 2 };
    let master = [0u8; 32];
    let data = b"Hello world";

    let prepared = gateway::prepare_upload(data, ec_config, &master).unwrap();

    // Simulate losing shards 2 and 5 (indices 2 and 5).
    let mut available = vec![None; prepared.encrypted_shards.len()];
    for (i, shard) in prepared.encrypted_shards.iter().enumerate() {
        if i != 2 && i != 5 {
            available[i] = Some(shard.as_slice());
        }
    }

    let object_hash = hash_of(data);
    let recovered =
        gateway::reconstruct_object(&available, ec_config, &master, &object_hash, data.len())
            .unwrap();
    assert_eq!(recovered, data);
}

#[test]
fn prepared_shards_are_those_of_the_ciphertext() {
    let config = ErasureConfig { k: 2, m: 1 };
    let master = [1u8; 32];
    let nonce = [2u8; 24];
    let prepared = prepare_with_nonce(b"object", config, &master, &nonce).unwrap();
    let key = encrypt::derive_key(&master, &hash_of(b"object"));
    let ciphertext = encrypt::encrypt_with_nonce(b"object", &key, &nonce);
    assert_eq!(prepared.object_hash, hash_of(b"object"));
    assert_eq!(prepared.ciphertext_size, 46);
    assert_eq!(prepared.shards[0], &ciphertext[..23]);
    assert_eq!(prepared.shards[1], &ciphertext[23..]);
    assert_eq!(prepared.shards.len(), 3);
    assert_eq!(prepared.shard_hashes, hash_all(&prepared.shards));
    assert_eq!(prepared.shard_hashes[2], hash_of(&prepared.shards[2]));
    assert_eq!(prepared.erasure_config, config);
}

#[test]
fn empty_objects_can_be_stored() {
    let config = ErasureConfig { k: 4, m: 2 };
    let prepared = prepare_upload(b"", config, &[9u8; 32]).unwrap();
    assert_eq!(prepared.ciphertext_size, 40);
    let all: Vec<Option<&[u8]>> = prepared.shards.iter().map(|s| Some(s.as_slice())).collect();
    let back =
        reconstruct_object(&all, config, &[9u8; 32], &hash_of(b""), prepared.ciphertext_size);
    assert_eq!(back.unwrap(), Vec::<u8>::new());
}

#[test]
fn bad_schemes_do_not_prepare() {
    let none = prepare_upload(b"x", ErasureConfig { k: 4, m: 0 }, &[0u8; 32]).unwrap_err();
    assert_eq!(none, CodecError::TooFewParityShards);
    let many =
        gateway::prepare_upload(b"x", ErasureConfig { k: 255, m: 2 }, &[0u8; 32]).unwrap_err();
    assert_eq!(many, CodecError::TooManyShards);
}

#[test]
fn wrong_hashes_and_keys_do_not_reconstruct() {
    let config = ErasureConfig { k: 2, m: 1 };
    let master = [1u8; 32];
    let p = prepare_upload(b"secret", config, &master).unwrap();
    let all: Vec<Option<&[u8]>> = p.shards.iter().map(|s| Some(s.as_slice())).collect();
    let wrong = reconstruct_object(&all, config, &[2u8; 32], &p.object_hash, p.ciphertext_size);
    assert!(matches!(wrong, Err(PipelineError::Decrypt(_))));
    let other = reconstruct_object(&all, config, &master, &hash_of(b"other"), p.ciphertext_size);
    assert!(matches!(other, Err(PipelineError::Decrypt(_))));
    let few = reconstruct_object(
        &[None, None, all[2]],
        config,
        &master,
        &p.object_hash,
        p.ciphertext_size,
    )
    .unwrap_err();
    assert_eq!(few, PipelineError::Decode(DecodeError::NotEnough { need: 2, have: 1 }));
    assert_eq!(few.message(), "Need at least 2 shards, have 1");
}

#[test]
fn contents_must_have_the_promised_hash() {
    // The key of one object, used to seal another one.
    let config = ErasureConfig { k: 2, m: 1 };
    let master = [1u8; 32];
    let promised = hash_of(b"promised");
    let key = encrypt::derive_key(&master, &promised);
    let sealed = encrypt::encrypt_shard(b"delivered", &key);
    let shards = arkel::dataplane::erasure::encode(&sealed, &config).unwrap();
    let all: Vec<Option<&[u8]>> = shards.iter().map(|s| Some(s.as_slice())).collect();
    let error = reconstruct_object(&all, config, &master, &promised, sealed.len()).unwrap_err();
    assert_eq!(error, PipelineError::Integrity);
    assert_eq!(error.message(), "integrity check failed: BLAKE3 mismatch");
}

#[test]
fn shards_move_to_another_scheme() {
    let from = ErasureConfig { k: 4, m: 2 };
    let to = ErasureConfig { k: 2, m: 1 };
    let master = [1u8; 32];
    let p = prepare_upload(b"moving object", from, &master).unwrap();
    let mut some: Vec<Option<&[u8]>> = p.shards.iter().map(|s| Some(s.as_slice())).collect();
    some[0] = None;
    some[5] = None;
    let moved = reencode(&some, from, p.ciphertext_size, to).unwrap();
    assert_eq!(moved.len(), 3);
    let all: Vec<Option<&[u8]>> = vec![None, Some(&moved[1]), Some(&moved[2])];
    let back = reconstruct_object(&all, to, &master, &p.object_hash, p.ciphertext_size).unwrap();
    assert_eq!(back, b"moving object");
    some[1] = None;
    let error = reencode(&some, from, p.ciphertext_size, to).unwrap_err();
    assert_eq!(error, PipelineError::Decode(DecodeError::NotEnough { need: 4, have: 3 }));
    some[1] = Some(&p.shards[1]);
    let error =
        reencode(&some, from, p.ciphertext_size, ErasureConfig { k: 1, m: 0 }).unwrap_err();
    assert_eq!(error, PipelineError::Encode(CodecError::TooFewParityShards));
}

#[test]
fn schemes_shrink_with_the_pool() {
    let wanted = ErasureConfig { k: 8, m: 6 };
    assert_eq!(degrade(wanted, 20), wanted);
    assert_eq!(degrade(wanted, 14), wanted);
    assert_eq!(degrade(wanted, 1), ErasureConfig { k: 1, m: 0 });
    assert_eq!(degrade(wanted, 2), ErasureConfig { k: 1, m: 1 });
    assert_eq!(degrade(wanted, 10), ErasureConfig { k: 8, m: 2 });
    assert_eq!(degrade(wanted, 5), ErasureConfig { k: 4, m: 1 });
    assert_eq!(degrade(wanted, 5).total_shards(), 5);
}

#[test]
fn targets_are_picked_in_order() {
    let pool = vec![target(1), target(2), target(3)];
    let picked = pick(&pool, &vec![2, 0, 1], 2);
    assert_eq!(picked, vec![target(3), target(1)]);
}

#[test]
fn every_target_gets_one_shard() {
    let pool: Vec<StorageTarget> = (0..20).map(target).collect();
    let (config, targets) = assign_shards(&pool, ErasureConfig { k: 8, m: 6 }).unwrap();
    assert_eq!(config, ErasureConfig { k: 8, m: 6 });
    assert_eq!(targets.len(), 14);
    for (i, t) in targets.iter().enumerate() {
        assert!(pool.contains(t));
        assert!(!targets[..i].contains(t));
    }
    assert!(assign_shards(&Vec::new(), ErasureConfig { k: 8, m: 6 }).is_none());
}

#[test]
fn given_targets_are_taken_as_they_are() {
    let wanted = ErasureConfig { k: 8, m: 6 };
    let given = vec![target(4), target(5)];
    let pool = vec![target(1), target(2)];
    assert_eq!(plan_upload(&given, &pool, wanted).unwrap(), (wanted, vec![target(4), target(5)]));
    let (config, targets) = plan_upload(&Vec::new(), &pool, wanted).unwrap();
    assert_eq!(config, ErasureConfig { k: 1, m: 1 });
    assert_eq!(targets.len(), 2);
    let nobody = plan_upload(&Vec::new(), &Vec::new(), wanted).unwrap_err();
    assert_eq!(nobody, PlanError::NoHealthyNodes);
    assert_eq!(nobody.message(), "no healthy storage nodes");
    let nothing = plan_upload(&Vec::new(), &pool, ErasureConfig { k: 0, m: 0 }).unwrap_err();
    assert_eq!(nothing, PlanError::NoTargets);
    assert_eq!(nothing.message(), "no storage targets to distribute shards to");
}

#[test]
fn shards_go_round_the_targets() {
    let hashes = vec![[10u8; 32], [11u8; 32], [12u8; 32]];
    let placed = place_shards(&hashes, &vec![target(1), target(2)]);
    let nodes: Vec<u8> = placed.iter().map(|p| p.node_id[0]).collect();
    assert_eq!(nodes, vec![1, 2, 1]);
    let indices: Vec<u8> = placed.iter().map(|p| p.shard_index).collect();
    assert_eq!(indices, vec![0, 1, 2]);
    assert_eq!(placed[2].blob_hash, [12u8; 32]);
}

#[test]
fn manifests_have_their_route() {
    assert_eq!(manifest_route("photos", "a/b.jpg"), "manifest/photos/a/b.jpg");
}

#[test]
fn owners_believe_their_own_signature_only() {
    let secret = [3u8; 32];
    let signature = arkel::client::manifest::sign_manifest(b"manifest", &secret);
    assert!(check_own_manifest(b"manifest", &signature, &secret).is_ok());
    assert_eq!(
        check_own_manifest(b"other", &signature, &secret),
        Err(ManifestError::Signature)
    );
    assert_eq!(
        check_own_manifest(b"manifest", &signature[..63], &secret),
        Err(ManifestError::SignatureLength)
    );
}

#[test]
fn download_follows_upload() {
    let config = ErasureConfig { k: 2, m: 1 };
    let master = [1u8; 32];
    let p = prepare_upload(b"an object", config, &master).unwrap();
    let targets = vec![target(1), target(2), target(3)];
    let manifest = build_manifest(
        "bucket",
        "key",
        &p.object_hash,
        9,
        p.ciphertext_size as u64,
        config,
        &p.shard_hashes,
        &targets,
    );
    assert_eq!(manifest.bucket, "bucket");
    assert_eq!(manifest.key, "key");
    assert_eq!(manifest.original_size, 9);
    assert_eq!((manifest.k, manifest.m), (2, 1));
    let plan = fetch_plan(&manifest);
    assert_eq!(plan.len(), 3);
    assert_eq!(plan[1].node_id, [2u8; 32]);
    let fetched: Vec<Option<Vec<u8>>> =
        plan.iter().map(|s| Some(p.shards[s.shard_index as usize].clone())).collect();
    assert_eq!(assemble(&manifest, fetched, &master).unwrap(), b"an object");
}

#[test]
fn downloads_make_up_for_lost_nodes() {
    let config = ErasureConfig { k: 2, m: 2 };
    let master = [1u8; 32];
    let p = prepare_upload(b"an object", config, &master).unwrap();
    let targets = vec![target(1), target(2), target(3), target(4)];
    let manifest = build_manifest(
        "bucket",
        "key",
        &p.object_hash,
        9,
        p.ciphertext_size as u64,
        config,
        &p.shard_hashes,
        &targets,
    );
    for lost in [vec![], vec![1], vec![2, 3], vec![1, 2], vec![1, 4], vec![1, 2, 3]] {
        let mut fetched: Vec<Option<Vec<u8>>> = Vec::new();
        let mut asked = 0;
        while let Some(placement) = next_fetch(&manifest, &fetched) {
            assert_eq!(placement, manifest.shards[asked]);
            asked += 1;
            let there = !lost.contains(&placement.node_id[0]);
            fetched.push(if there {
                Some(p.shards[placement.shard_index as usize].clone())
            } else {
                None
            });
        }
        let found = fetched.iter().filter(|s| s.is_some()).count();
        fetched.resize(4, None);
        let result = assemble(&manifest, fetched, &master);
        if lost.len() <= 2 {
            assert_eq!(found, 2);
            assert_eq!(result.unwrap(), b"an object");
        } else {
            assert_eq!(asked, 4);
            let missing = DecodeError::NotEnough { need: 2, have: 1 };
            assert_eq!(result, Err(PipelineError::Decode(missing)));
        }
    }
}

#[test]
fn one_place_counts_once() {
    let at = |i: u8| ShardPlacement { shard_index: i, node_id: [i; 32], blob_hash: [i; 32] };
    let manifest = Manifest {
        bucket: "b".to_string(),
        key: "k".to_string(),
        object_hash: [0u8; 32],
        original_size: 1,
        ciphertext_size: 41,
        k: 2,
        m: 1,
        shards: vec![at(0), at(0), at(1)],
    };
    let twice = vec![Some(vec![1u8]), Some(vec![1u8])];
    assert_eq!(next_fetch(&manifest, &twice), Some(at(1)));
    assert_eq!(next_fetch(&manifest, &vec![]), Some(at(0)));
}

#[test]
fn manifests_short_of_shards_do_not_assemble() {
    let manifest = Manifest {
        bucket: "b".to_string(),
        key: "k".to_string(),
        object_hash: [0u8; 32],
        original_size: 1,
        ciphertext_size: 41,
        k: 2,
        m: 1,
        shards: vec![ShardPlacement { shard_index: 2, node_id: [1u8; 32], blob_hash: [2u8; 32] }],
    };
    let error = assemble(&manifest, vec![Some(vec![0u8; 21])], &[0u8; 32]).unwrap_err();
    assert_eq!(error, PipelineError::Decode(DecodeError::NotEnough { need: 2, have: 1 }));
    assert_eq!(manifest.blobs(), vec![vec![2u8; 32]]);
}

#[test]
fn fetched_shards_go_to_their_places() {
    let at = |i: u8| ShardPlacement { shard_index: i, node_id: [0u8; 32], blob_hash: [i; 32] };
    let slots = fill_slots(
        3,
        &vec![at(2), at(0), at(1)],
        vec![Some(vec![22]), None, Some(vec![11])],
    );
    assert_eq!(slots, vec![None, Some(vec![11]), Some(vec![22])]);
    let borrowed = borrow_all(&slots);
    assert_eq!(borrowed[0], None);
    assert_eq!(borrowed[2], Some(&[22u8][..]));
}

#[test]
fn gateway_encrypts_every_shard() {
    let config = ErasureConfig { k: 2, m: 1 };
    let master = [1u8; 32];
    let p = gateway::prepare_upload(b"abcdef", config, &master).unwrap();
    let key = encrypt::derive_key(&master, &hash_of(b"abcdef"));
    assert_eq!(encrypt::decrypt_shard(&p.encrypted_shards[0], &key).unwrap(), b"abc");
    assert_eq!(encrypt::decrypt_shard(&p.encrypted_shards[1], &key).unwrap(), b"def");
    assert_eq!(p.shard_hashes[0], hash_of(&p.encrypted_shards[0]));
    let all: Vec<Option<&[u8]>> =
        p.encrypted_shards.iter().map(|s| Some(s.as_slice())).collect();
    let wrong = gateway::reconstruct_object(&all, config, &[2u8; 32], &hash_of(b"abcdef"), 6);
    assert!(matches!(wrong, Err(PipelineError::Decrypt(_))));
}
