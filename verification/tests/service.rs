//! The API, audits, repairs, and storage nodes.
use arkel::api::{
    batch_command, commit_manifest, create_bucket, deliver, gc_answer, gc_query, list_all_nodes,
    list_nodes, list_objects, max_keys, register_node, repair_manifest, BatchCollector,
    BatchOutcome, CommitManifestPayload, ListedNode, RegisterNode, RegisterNodePayload, TakeEvent,
};
use arkel::audit::{all_placements, audit_key, doomed, mark_command, sample_placements};
use arkel::client::manifest::{Manifest, ShardPlacement};
use arkel::dataplane::erasure::{CodecError, ErasureConfig};
use arkel::dataplane::{
    build_manifest, hash_all, prepare_upload, reconstruct_object, PipelineError, PreparedUpload,
    StorageTarget,
};
use arkel::index::remote::{gc_reply, gc_route};
use arkel::index::types::{IndexNodeRequest, IndexNodeResponse, NodeStats, NodeStatus};
use arkel::repair::{
    count_available, distinct_nodes, heal, needs_shards, verdict, worth_fetching, Healing,
    RepairPass, Verdict,
};
use arkel::storage::{protect, pull_accepted, total_bytes, DiskStore, ShardId};

fn register(id: u8) -> IndexNodeRequest {
    register_node(RegisterNodePayload {
        node_id: vec![id],
        capacity_bytes: 1,
        addr: "a".to_string(),
        relay_url: None,
    })
}

#[test]
fn batches_fill_up_or_time_out() {
    let mut collector: BatchCollector<u8> = BatchCollector::new(2, 10);
    assert_eq!(collector.max_delay_ms(), 10);
    assert!(collector.take_batch(TakeEvent::Asked).is_none());
    assert!(collector.take_batch(TakeEvent::Notified).is_none());
    collector.enqueue(register(1), 11);
    assert!(collector.take_batch(TakeEvent::Notified).is_none());
    collector.enqueue(register(2), 12);
    let batch = collector.take_batch(TakeEvent::Notified).unwrap();
    assert_eq!(batch.iter().map(|e| e.1).collect::<Vec<u8>>(), vec![11, 12]);
    collector.enqueue(register(3), 13);
    assert_eq!(collector.take_batch(TakeEvent::Asked).unwrap().len(), 1);
    assert_eq!(collector.take_batch(TakeEvent::Elapsed).unwrap().len(), 0);
}

#[test]
fn answers_reach_their_senders() {
    let (cmd, senders) = batch_command(vec![(register(1), "x"), (register(2), "y")]);
    assert_eq!(cmd.describe(), "Batch(2 entries)");
    assert_eq!(senders, vec!["x", "y"]);
    let answers = vec![IndexNodeResponse::ok(), IndexNodeResponse::err("no")];
    let outcome = BatchOutcome::Applied(IndexNodeResponse::batch(answers));
    assert_eq!(
        deliver(senders, outcome),
        vec![("x", IndexNodeResponse::ok()), ("y", IndexNodeResponse::err("no"))]
    );
    let outcome = BatchOutcome::Applied(IndexNodeResponse::ok());
    assert_eq!(deliver(vec!["x"], outcome), vec![("x", IndexNodeResponse::ok())]);
    let outcome = BatchOutcome::Failed("no quorum".to_string());
    assert_eq!(
        deliver(vec!["x"], outcome),
        vec![("x", IndexNodeResponse::err("raft batch error: no quorum"))]
    );
    let short = BatchOutcome::Applied(IndexNodeResponse::batch(vec![IndexNodeResponse::ok()]));
    assert_eq!(deliver(vec!["x", "y"], short).len(), 1);
}

#[test]
fn listings_are_limited() {
    assert_eq!(max_keys(None, None), 1000);
    assert_eq!(max_keys(Some("5"), Some("6")), 5);
    assert_eq!(max_keys(None, Some("6")), 6);
    assert_eq!(max_keys(Some("many"), Some("6")), 1000);
    let keys: Vec<String> =
        ["b/2", "a", "b/1", "b/3"].iter().map(|s| s.to_string()).collect();
    let listing = list_objects("bucket".to_string(), &keys, "b/".to_string(), 2);
    let found: Vec<&str> = listing.contents.iter().map(|o| o.key.as_str()).collect();
    assert_eq!(found, vec!["b/1", "b/2"]);
    assert!(listing.truncated);
    assert_eq!(listing.bucket, "bucket");
    assert_eq!(listing.max_keys, 2);
    let all = list_objects("bucket".to_string(), &keys, String::new(), 4);
    assert!(!all.truncated);
    assert_eq!(all.contents.len(), 4);
    assert_eq!(all.contents[0].key, "a");
}

#[test]
fn requests_carry_their_caller() {
    match create_bucket("b".to_string(), 7, vec![1]) {
        IndexNodeRequest::CreateBucket { name, created_at, owner } => {
            assert_eq!((name.as_str(), created_at, owner), ("b", 7, vec![1]));
        }
        _ => panic!("another command"),
    }
    let payload = CommitManifestPayload {
        object_hash: vec![1],
        manifest_bytes: vec![2],
        signature: vec![3],
    };
    let cmd = commit_manifest("b".to_string(), "k".to_string(), payload, None, 7, vec![9]);
    match cmd {
        IndexNodeRequest::CommitManifest {
            object_hash,
            manifest_bytes,
            signature,
            blobs,
            created_at,
            caller,
            ..
        } => {
            assert_eq!((object_hash, manifest_bytes, signature), (vec![1], vec![2], vec![3]));
            assert_eq!((blobs, created_at, caller), (None, 7, vec![9]));
        }
        _ => panic!("another command"),
    }
    let payload = CommitManifestPayload {
        object_hash: vec![4],
        manifest_bytes: vec![5],
        signature: vec![6],
    };
    match repair_manifest("b".to_string(), "k".to_string(), payload, None, 8, vec![9]) {
        IndexNodeRequest::RepairManifest {
            bucket,
            key,
            object_hash,
            manifest_bytes,
            signature,
            created_at,
            caller,
            ..
        } => {
            assert_eq!((bucket.as_str(), key.as_str()), ("b", "k"));
            assert_eq!((object_hash, manifest_bytes, signature), (vec![4], vec![5], vec![6]));
            assert_eq!((created_at, caller), (8, vec![9]));
        }
        _ => panic!("another command"),
    }
}

#[test]
fn all_nodes_are_listed_with_their_status() {
    let stats = |status| NodeStats {
        node_id: vec![0xab],
        capacity_bytes: 1,
        addr: "a:1".to_string(),
        relay_url: Some("r".to_string()),
        last_seen: 3,
        status,
    };
    let nodes =
        vec![(vec![0xab], stats(NodeStatus::Online)), (vec![0x01], stats(NodeStatus::Offline))];
    let listed = list_all_nodes(&nodes);
    assert_eq!(
        listed[0],
        ListedNode {
            node_id: "ab".to_string(),
            addr: "a:1".to_string(),
            relay_url: Some("r".to_string()),
            status: "Online".to_string(),
        }
    );
    assert_eq!((listed[1].node_id.as_str(), listed[1].status.as_str()), ("01", "Offline"));
    assert_eq!(list_all_nodes(&vec![]), vec![]);
}

#[test]
fn queries_for_garbage_arrive() {
    let hashes = vec![[0xab; 32], [1; 32]];
    let route = gc_route(&hashes);
    let listed = route.split_once('=').unwrap().1;
    assert_eq!(gc_query(listed), hashes);
    assert_eq!(gc_query(""), Vec::<[u8; 32]>::new());
    assert_eq!(gc_query(&format!("00,zz,{},", "Ab".repeat(32))), vec![[0xab; 32]]);
    let answer = gc_answer(&vec![vec![0xab, 1], vec![]]);
    assert_eq!(answer, vec!["ab01".to_string(), "".to_string()]);
    assert_eq!(gc_reply(&answer), vec![vec![0xab, 1], vec![]]);
}

#[test]
fn audits_sample_placements() {
    let at = |i: u8| ShardPlacement { shard_index: i, node_id: [i; 32], blob_hash: [i; 32] };
    let manifest = |shards: Vec<ShardPlacement>| Manifest {
        bucket: "b".to_string(),
        key: "k".to_string(),
        object_hash: [0u8; 32],
        original_size: 1,
        ciphertext_size: 41,
        k: 2,
        m: 1,
        shards,
    };
    let all =
        all_placements(&vec![manifest(vec![at(1), at(2)]), manifest(vec![]), manifest(vec![at(3)])]);
    assert_eq!(all, vec![at(1), at(2), at(3)]);
    for count in 0..5usize {
        let picked = sample_placements(&all, count);
        assert_eq!(picked.len(), count.min(3));
        let mut indices: Vec<u8> = picked.iter().map(|p| p.shard_index).collect();
        indices.sort();
        indices.dedup();
        assert_eq!(indices.len(), picked.len());
        assert!(picked.iter().all(|p| all.contains(p)));
    }
}

#[test]
fn nodes_are_listed_in_hexadecimal() {
    let nodes = vec![(vec![0xab, 1], "a:1".to_string(), Some("r".to_string()))];
    assert_eq!(
        list_nodes(&nodes),
        vec![RegisterNode {
            node_id: "ab01".to_string(),
            addr: "a:1".to_string(),
            relay_url: Some("r".to_string()),
        }]
    );
}

#[test]
fn two_failures_mark_a_node() {
    let failures = vec![vec![1], vec![2], vec![1], vec![3], vec![1], vec![3]];
    let mut marked = doomed(&failures);
    marked.sort();
    assert_eq!(marked, vec![vec![1], vec![3]]);
    assert!(mark_command(vec![]).is_none());
    let cmd = mark_command(marked).unwrap();
    assert_eq!(cmd.describe(), "MarkNodesOffline(01, 03)");
}

#[test]
fn audits_dial_valid_keys_only() {
    let key = *iroh::SecretKey::from_bytes(&[1u8; 32]).public().as_bytes();
    assert_eq!(audit_key(&key), Some(key));
    let zeros = iroh::PublicKey::from_bytes(&[0u8; 32]).is_ok();
    assert_eq!(audit_key(&key[..31]), if zeros { Some([0u8; 32]) } else { None });
}

const MASTER: [u8; 32] = [1u8; 32];
const SCHEME: ErasureConfig = ErasureConfig { k: 2, m: 1 };

fn stored(nodes: [u8; 3]) -> (Manifest, PreparedUpload) {
    let p = prepare_upload(b"precious", SCHEME, &MASTER).unwrap();
    let shards = (0..3)
        .map(|i| ShardPlacement {
            shard_index: i as u8,
            node_id: [nodes[i]; 32],
            blob_hash: p.shard_hashes[i],
        })
        .collect();
    let manifest = Manifest {
        bucket: "b".to_string(),
        key: "k".to_string(),
        object_hash: p.object_hash,
        original_size: 8,
        ciphertext_size: p.ciphertext_size as u64,
        k: 2,
        m: 1,
        shards,
    };
    (manifest, p)
}

#[test]
fn verdicts_tell_healthy_from_sick() {
    let (manifest, _) = stored([1, 2, 3]);
    assert_eq!(verdict(&manifest, 3, SCHEME), Verdict::Healthy);
    assert_eq!(verdict(&manifest, 2, SCHEME), Verdict::Heal);
    assert_eq!(verdict(&manifest, 1, SCHEME), Verdict::Unrecoverable);
    assert_eq!(verdict(&manifest, 3, ErasureConfig { k: 2, m: 2 }), Verdict::Heal);
    let (crammed, _) = stored([1, 2, 1]);
    assert_eq!(distinct_nodes(&crammed.shards), 2);
    assert_eq!(verdict(&crammed, 3, SCHEME), Verdict::Heal);
    assert!(needs_shards(&manifest, 2));
    assert!(!needs_shards(&manifest, 3));
    assert!(!needs_shards(&manifest, 1));
}

#[test]
fn offline_nodes_are_not_asked() {
    let (manifest, _) = stored([1, 2, 3]);
    let offline = vec![[2u8; 32]];
    let asked: Vec<bool> = manifest.shards.iter().map(|p| worth_fetching(&offline, p)).collect();
    assert_eq!(asked, vec![true, false, true]);
    assert_eq!(count_available(&vec![Some(vec![1]), None, Some(vec![2])]), 2);
}

#[test]
fn healing_keeps_the_object() {
    let (manifest, p) = stored([1, 2, 3]);
    let to = ErasureConfig { k: 1, m: 1 };
    let fetched = vec![None, Some(p.shards[1].clone()), Some(p.shards[2].clone())];
    let shards = match heal(&manifest, fetched, to) {
        Ok(Healing::Shards(shards)) => shards,
        other => panic!("{other:?}"),
    };
    assert_eq!(shards.len(), 2);
    let rest: Vec<Option<&[u8]>> = vec![None, Some(&shards[1])];
    let back = reconstruct_object(&rest, to, &MASTER, &p.object_hash, p.ciphertext_size);
    assert_eq!(back.unwrap(), b"precious");

    let target = |n: u8| StorageTarget {
        node_id: [n; 32],
        addr: "10.0.0.1:1".to_string(),
        relay_url: None,
    };
    let healed = build_manifest(
        "b",
        "k",
        &manifest.object_hash,
        manifest.original_size,
        manifest.ciphertext_size,
        to,
        &hash_all(&shards),
        &vec![target(4), target(5)],
    );
    assert_eq!(verdict(&healed, 2, to), Verdict::Healthy);
    let all: Vec<Option<Vec<u8>>> = shards.into_iter().map(Some).collect();
    assert!(matches!(heal(&healed, all, to), Ok(Healing::Healthy)));
}

#[test]
fn healing_knows_its_limits() {
    let (manifest, p) = stored([1, 2, 3]);
    let all: Vec<Option<Vec<u8>>> = p.shards.iter().map(|s| Some(s.clone())).collect();
    assert!(matches!(heal(&manifest, all.clone(), SCHEME), Ok(Healing::Healthy)));
    let one = vec![all[0].clone(), None, None];
    assert!(matches!(heal(&manifest, one, SCHEME), Ok(Healing::Unrecoverable)));
    let error = heal(&manifest, all, ErasureConfig { k: 1, m: 0 }).unwrap_err();
    assert_eq!(error, PipelineError::Encode(CodecError::TooFewParityShards));
}

#[test]
fn repair_passes_are_limited() {
    let mut pass = RepairPass::new(2);
    assert!(pass.goes_on());
    pass.record();
    pass.record();
    assert!(!pass.goes_on());
    assert_eq!(pass.fixed(), 2);
    assert!(!RepairPass::new(0).goes_on());
}

#[test]
fn shards_have_their_files() {
    let store = DiskStore::new("/data".to_string());
    let id = ShardId([0xab; 32]);
    assert_eq!(store.data_dir(), "/data");
    assert_eq!(id.to_hex(), "ab".repeat(32));
    assert_eq!(store.shard_path(&id), format!("/data/{}.shard", "ab".repeat(32)));
    assert_eq!(store.temp_path(&id), format!("/data/{}.tmp", "ab".repeat(32)));
    let other = ShardId([0xac; 32]);
    assert_ne!(store.shard_path(&id), store.shard_path(&other));
    assert_ne!(store.temp_path(&id), store.shard_path(&id));
    let slash = DiskStore::new("/data/".to_string());
    assert_eq!(slash.shard_path(&id), store.shard_path(&id));
    assert_eq!(total_bytes(&vec![5, 6]), 11);
    assert_eq!(total_bytes(&vec![]), 0);
}

#[test]
fn only_candidates_are_collected() {
    let all = vec![[1u8; 32], [2u8; 32], [3u8; 32]];
    assert_eq!(protect(&all, &vec![vec![2u8; 32], vec![9u8; 32]]), vec![[1u8; 32], [3u8; 32]]);
    assert_eq!(protect(&all, &vec![]), all);
}

#[test]
fn pulls_are_acknowledged_with_zero() {
    assert!(pull_accepted(0));
    assert!(!pull_accepted(1));
    assert_eq!(arkel::storage::PULL_ALPN, "arkel-pull");
}
