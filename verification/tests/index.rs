//! The state machine of an index node.
use arkel::api::{commit_manifest, repair_manifest, CommitManifestPayload};
use arkel::client::manifest::sign_manifest;
use arkel::dataplane::{check_own_manifest, ManifestError};
use arkel::index::machine::{
    ArkelStateMachine, EntryPayload, LogEntry, SnapshotMeta, StateMachineSnapshotData,
};
use arkel::index::model::StateError;
use arkel::index::state::{BucketRow, ManifestRow, Registry, RowOp, Tables, Transaction};
use arkel::index::types::{IndexNodeRequest, IndexNodeResponse, NodeStats, NodeStatus};

type Machine = ArkelStateMachine<u64, &'static str>;

fn nothing() -> StateMachineSnapshotData {
    StateMachineSnapshotData {
        buckets: vec![],
        manifests: vec![],
        shard_refs: vec![],
        repair_operator: None,
    }
}

fn empty() -> Machine {
    ArkelStateMachine::open(nothing(), None, "none").unwrap()
}

fn entry(index: u64, cmd: IndexNodeRequest) -> LogEntry<u64, &'static str> {
    LogEntry { log_id: index, index, payload: EntryPayload::Normal(cmd) }
}

fn run(sm: &mut Machine, index: u64, cmd: IndexNodeRequest) -> IndexNodeResponse {
    sm.apply(vec![entry(index, cmd)]).unwrap().remove(0)
}

fn create(name: &str, owner: u8) -> IndexNodeRequest {
    IndexNodeRequest::CreateBucket { name: name.to_string(), created_at: 5, owner: vec![owner] }
}

fn commit(bucket: &str, key: &str, blobs: &[u8], caller: u8) -> IndexNodeRequest {
    IndexNodeRequest::CommitManifest {
        bucket: bucket.to_string(),
        key: key.to_string(),
        object_hash: vec![1],
        manifest_bytes: blobs.to_vec(),
        signature: vec![7; 64],
        blobs: Some(blobs.iter().map(|b| vec![*b; 32]).collect()),
        created_at: 7,
        caller: vec![caller],
    }
}

fn repair(bucket: &str, key: &str, blobs: &[u8], caller: u8) -> IndexNodeRequest {
    IndexNodeRequest::RepairManifest {
        bucket: bucket.to_string(),
        key: key.to_string(),
        object_hash: vec![1],
        manifest_bytes: blobs.to_vec(),
        signature: vec![8; 64],
        blobs: Some(blobs.iter().map(|b| vec![*b; 32]).collect()),
        created_at: 8,
        caller: vec![caller],
    }
}

fn delete(bucket: &str, key: &str, caller: u8) -> IndexNodeRequest {
    IndexNodeRequest::DeleteManifest {
        bucket: bucket.to_string(),
        key: key.to_string(),
        caller: vec![caller],
    }
}

fn register(id: u8) -> IndexNodeRequest {
    IndexNodeRequest::RegisterNode {
        node_id: vec![id],
        capacity_bytes: 100,
        addr: format!("10.0.0.{}:1", id),
        relay_url: None,
    }
}

fn garbage(sm: &Machine, blobs: &[u8]) -> Vec<u8> {
    let all: Vec<[u8; 32]> = blobs.iter().map(|b| [*b; 32]).collect();
    sm.gc_candidates(&all).iter().map(|b| b[0]).collect()
}

#[test]
fn committed_manifests_are_read_back() {
    let mut sm = empty();
    assert_eq!(run(&mut sm, 1, create("b", 1)), IndexNodeResponse::ok());
    assert_eq!(sm.read_manifest("b", "k"), None);
    assert_eq!(run(&mut sm, 2, commit("b", "k", &[10, 11], 1)), IndexNodeResponse::ok());
    assert_eq!(sm.read_manifest("b", "k"), Some((vec![10, 11], vec![7; 64])));
    assert_eq!(sm.read_manifest("b", "other"), None);
    assert_eq!(sm.read_manifest("other", "k"), None);
    assert_eq!(sm.applied_state(), (&Some(2), &"none"));
}

#[test]
fn first_commit_makes_the_bucket() {
    let mut sm = empty();
    run(&mut sm, 1, commit("new", "k", &[10], 1));
    assert_eq!(sm.list_buckets(), vec!["new".to_string()]);
    assert_eq!(
        run(&mut sm, 2, commit("new", "k2", &[11], 2)),
        IndexNodeResponse::err("forbidden")
    );
    assert_eq!(sm.list_objects("new"), vec!["k".to_string()]);
}

#[test]
fn buckets_belong_to_their_first_owner() {
    let mut sm = empty();
    assert_eq!(run(&mut sm, 1, create("b", 1)), IndexNodeResponse::ok());
    assert_eq!(run(&mut sm, 2, create("b", 1)), IndexNodeResponse::ok());
    assert_eq!(
        run(&mut sm, 3, create("b", 2)),
        IndexNodeResponse::err("bucket owned by another key")
    );
    let stranger = IndexNodeRequest::DeleteBucket { name: "b".to_string(), caller: vec![2] };
    assert_eq!(run(&mut sm, 4, stranger), IndexNodeResponse::err("forbidden"));
    let missing = IndexNodeRequest::DeleteBucket { name: "c".to_string(), caller: vec![1] };
    assert_eq!(run(&mut sm, 5, missing), IndexNodeResponse::err("forbidden"));
    assert_eq!(sm.list_buckets(), vec!["b".to_string()]);
}

#[test]
fn buckets_go_with_their_objects() {
    let mut sm = empty();
    run(&mut sm, 1, commit("b", "k", &[10], 1));
    run(&mut sm, 2, commit("c", "k", &[11], 1));
    let cmd = IndexNodeRequest::DeleteBucket { name: "b".to_string(), caller: vec![1] };
    assert_eq!(run(&mut sm, 3, cmd), IndexNodeResponse::ok());
    assert_eq!(sm.list_buckets(), vec!["c".to_string()]);
    assert_eq!(sm.read_manifest("b", "k"), None);
    assert!(sm.read_manifest("c", "k").is_some());
    assert_eq!(run(&mut sm, 4, create("b", 2)), IndexNodeResponse::ok());
}

#[test]
fn objects_are_deleted_by_their_owner() {
    let mut sm = empty();
    run(&mut sm, 1, commit("b", "k", &[10], 1));
    assert_eq!(run(&mut sm, 2, delete("b", "k", 2)), IndexNodeResponse::err("forbidden"));
    assert_eq!(run(&mut sm, 3, delete("b", "x", 1)), IndexNodeResponse::err("object not found"));
    assert_eq!(run(&mut sm, 4, delete("c", "x", 1)), IndexNodeResponse::err("forbidden"));
    assert_eq!(run(&mut sm, 5, delete("b", "k", 1)), IndexNodeResponse::ok());
    assert_eq!(sm.read_manifest("b", "k"), None);
    assert_eq!(run(&mut sm, 6, delete("b", "k", 1)), IndexNodeResponse::err("object not found"));
}

#[test]
fn references_follow_the_manifests() {
    let mut sm = empty();
    run(&mut sm, 1, commit("b", "k", &[10, 11], 1));
    run(&mut sm, 2, commit("b", "l", &[11, 12], 1));
    assert_eq!(garbage(&sm, &[9, 10, 11, 12]), vec![9]);
    run(&mut sm, 3, commit("b", "k", &[13], 1));
    assert_eq!(garbage(&sm, &[10, 11, 12, 13]), vec![10]);
    run(&mut sm, 4, delete("b", "l", 1));
    assert_eq!(garbage(&sm, &[13, 12, 11, 10]), vec![12, 11, 10]);
    run(&mut sm, 5, delete("b", "k", 1));
    assert_eq!(garbage(&sm, &[13]), vec![13]);
}

#[test]
fn blobs_of_a_deleted_bucket_are_garbage() {
    let mut sm = empty();
    run(&mut sm, 1, commit("b", "k", &[10, 10, 11], 1));
    run(&mut sm, 2, commit("b", "l", &[11, 12], 1));
    run(&mut sm, 3, commit("c", "k", &[12, 13], 1));
    assert_eq!(garbage(&sm, &[10, 11, 12, 13]), Vec::<u8>::new());
    let cmd = IndexNodeRequest::DeleteBucket { name: "b".to_string(), caller: vec![1] };
    run(&mut sm, 4, cmd);
    assert_eq!(garbage(&sm, &[10, 11, 12, 13]), vec![10, 11]);
    let cmd = IndexNodeRequest::DeleteBucket { name: "c".to_string(), caller: vec![2] };
    assert_eq!(run(&mut sm, 5, cmd), IndexNodeResponse::err("forbidden"));
    assert_eq!(garbage(&sm, &[12, 13]), Vec::<u8>::new());
}

#[test]
fn unreadable_manifests_go_with_their_bucket() {
    let mut data = nothing();
    data.buckets.push(("b".to_string(), BucketRow { created_at: 1, owner: vec![1] }));
    let row = ManifestRow {
        object_hash: vec![1],
        manifest: vec![0xff],
        signature: vec![],
        created_at: 1,
        blobs: None,
    };
    data.manifests.push((("b".to_string(), "k".to_string()), row));
    data.shard_refs.push((vec![10; 32], 1));
    let mut sm: Machine = ArkelStateMachine::open(data, Some(1), "none").unwrap();
    let cmd = IndexNodeRequest::DeleteBucket { name: "b".to_string(), caller: vec![1] };
    assert_eq!(run(&mut sm, 2, cmd), IndexNodeResponse::ok());
    assert_eq!(sm.read_manifest("b", "k"), None);
    assert_eq!(garbage(&sm, &[10]), Vec::<u8>::new());
}

#[test]
fn replicas_fail_alike() {
    let batch = || {
        let mut bad = commit("b", "k", &[10, 11], 1);
        if let IndexNodeRequest::CommitManifest { blobs, .. } = &mut bad {
            *blobs = None;
        }
        let exhausted = commit("c", "k", &[12, 13, 10], 1);
        vec![
            IndexNodeRequest::Batch(vec![register(5), create("a", 1), bad, register(6)]),
            IndexNodeRequest::Batch(vec![create("d", 1), exhausted]),
        ]
    };
    let replica = || {
        let mut tables = Tables::new();
        tables.refs.put(vec![13; 32], i64::MAX);
        let mut tx = Transaction::begin(&tables);
        let mut nodes = Registry::new();
        let results: Vec<Result<IndexNodeResponse, StateError>> =
            batch().iter().map(|cmd| tx.apply_command(cmd, 3, &mut nodes)).collect();
        let (tables, _) = tx.commit();
        (results, tables.refs.to_rows(), tables.buckets.to_rows().len(), nodes.len())
    };
    let (results, refs, buckets, nodes) = replica();
    assert_eq!(results[0], Err(StateError::BadManifest));
    assert_eq!(results[1], Err(StateError::TooManyRefs));
    assert!(refs.contains(&(vec![12; 32], 1)));
    assert!(!refs.iter().any(|(blob, _)| *blob == vec![10; 32]));
    assert_eq!((buckets, nodes), (2, 1));
    assert_eq!(replica(), (results, refs, buckets, nodes));
}

#[test]
fn owners_believe_what_they_committed() {
    let owner = [3u8; 32];
    let operator = [4u8; 32];
    let public = |s: &[u8; 32]| iroh::SecretKey::from_bytes(s).public().as_bytes().to_vec();
    let mut sm = empty();
    let payload = |secret: &[u8; 32]| CommitManifestPayload {
        object_hash: vec![1],
        manifest_bytes: b"manifest".to_vec(),
        signature: sign_manifest(b"manifest", secret).to_vec(),
    };
    let (b, k) = (|| "b".to_string(), || "k".to_string());
    let blobs = || Some(vec![vec![10u8; 32]]);
    run(&mut sm, 1, commit_manifest(b(), k(), payload(&owner), blobs(), 7, public(&owner)));
    let (bytes, signature) = sm.read_manifest("b", "k").unwrap();
    assert_eq!(check_own_manifest(&bytes, &signature, &owner), Ok(()));
    assert_eq!(check_own_manifest(&bytes, &signature, &operator), Err(ManifestError::Signature));

    run(&mut sm, 2, IndexNodeRequest::SetRepairOperator { caller: public(&operator) });
    run(&mut sm, 3, repair_manifest(b(), k(), payload(&operator), blobs(), 8, public(&operator)));
    let (bytes, signature) = sm.read_manifest("b", "k").unwrap();
    assert_eq!(check_own_manifest(&bytes, &signature, &operator), Ok(()));
    assert_eq!(check_own_manifest(&bytes, &signature, &owner), Err(ManifestError::Signature));
    assert_eq!(
        check_own_manifest(&bytes, &signature[1..], &operator),
        Err(ManifestError::SignatureLength)
    );
}

#[test]
fn first_repair_operator_wins() {
    let mut sm = empty();
    run(&mut sm, 1, commit("b", "k", &[10], 1));
    assert_eq!(
        run(&mut sm, 2, repair("b", "k", &[11], 9)),
        IndexNodeResponse::err("forbidden")
    );
    let set = |c: u8| IndexNodeRequest::SetRepairOperator { caller: vec![c] };
    assert_eq!(run(&mut sm, 3, set(9)), IndexNodeResponse::ok());
    assert_eq!(run(&mut sm, 4, set(9)), IndexNodeResponse::ok());
    assert_eq!(run(&mut sm, 5, set(8)), IndexNodeResponse::err("forbidden"));
    assert_eq!(
        run(&mut sm, 6, repair("b", "x", &[11], 9)),
        IndexNodeResponse::err("object not found")
    );
    assert_eq!(
        run(&mut sm, 7, repair("b", "k", &[11], 1)),
        IndexNodeResponse::err("forbidden")
    );
    assert_eq!(run(&mut sm, 8, repair("b", "k", &[11], 9)), IndexNodeResponse::ok());
    assert_eq!(sm.read_manifest("b", "k").unwrap().0, vec![11]);
    assert_eq!(garbage(&sm, &[10, 11]), vec![10]);
    assert_eq!(run(&mut sm, 9, commit("b", "k", &[12], 9)), IndexNodeResponse::err("forbidden"));
}

#[test]
fn batches_answer_each_command() {
    let mut sm = empty();
    let cmd = IndexNodeRequest::Batch(vec![
        create("b", 1),
        create("b", 2),
        IndexNodeRequest::Batch(vec![commit("b", "k", &[10], 1)]),
    ]);
    assert_eq!(
        run(&mut sm, 1, cmd),
        IndexNodeResponse::batch(vec![
            IndexNodeResponse::ok(),
            IndexNodeResponse::err("bucket owned by another key"),
            IndexNodeResponse::batch(vec![IndexNodeResponse::ok()]),
        ])
    );
    assert!(sm.read_manifest("b", "k").is_some());
    assert_eq!(
        run(&mut sm, 2, IndexNodeRequest::Batch(vec![])),
        IndexNodeResponse::batch(vec![])
    );
}

#[test]
fn unreadable_manifests_stop_the_batch() {
    let mut sm = empty();
    run(&mut sm, 1, create("a", 1));
    run(&mut sm, 2, register(1));
    let bad = IndexNodeRequest::CommitManifest {
        bucket: "b".to_string(),
        key: "k".to_string(),
        object_hash: vec![1],
        manifest_bytes: vec![0xff],
        signature: vec![],
        blobs: None,
        created_at: 7,
        caller: vec![1],
    };
    let error = sm.apply(vec![entry(3, create("b", 1)), entry(4, bad)]).unwrap_err();
    assert_eq!(error, StateError::BadManifest);
    assert_eq!(sm.list_buckets(), vec!["a".to_string()]);
    assert_eq!(sm.applied_state().0, &Some(2));
    assert_eq!(sm.list_node_lags(), vec![]);
}

#[test]
fn reference_counts_do_not_overflow() {
    let mut data = nothing();
    data.shard_refs.push((vec![10; 32], i64::MAX));
    let mut sm: Machine = ArkelStateMachine::open(data, Some(1), "none").unwrap();
    let error = sm.apply(vec![entry(2, commit("b", "k", &[10], 1))]).unwrap_err();
    assert_eq!(error, StateError::TooManyRefs);
    assert_eq!(sm.list_buckets(), Vec::<String>::new());
}

#[test]
fn rows_must_have_different_keys() {
    let mut data = nothing();
    data.shard_refs.push((vec![10; 32], 1));
    data.shard_refs.push((vec![10; 32], 2));
    let opened: Result<Machine, StateError> = ArkelStateMachine::open(data.clone(), None, "none");
    assert!(matches!(opened, Err(StateError::DuplicateRow)));
    let mut sm = empty();
    run(&mut sm, 1, create("b", 1));
    let meta =
        SnapshotMeta { last_log_id: Some(9), last_membership: "m", snapshot_id: "s".to_string() };
    let installed = sm.install_snapshot(meta, Some(9), "m", data, vec![]);
    assert_eq!(installed, Err(StateError::DuplicateRow));
    assert_eq!(sm.list_buckets(), vec!["b".to_string()]);
    assert_eq!(sm.applied_state(), (&Some(1), &"none"));
    assert!(sm.get_current_snapshot().is_none());
}

#[test]
fn registrations_bring_nodes_online() {
    let mut sm = empty();
    run(&mut sm, 3, register(1));
    run(&mut sm, 4, register(2));
    let healthy = sm.get_healthy_nodes(10);
    assert_eq!(healthy.len(), 2);
    assert!(healthy.contains(&(vec![1], "10.0.0.1:1".to_string(), None)));
    assert_eq!(sm.get_healthy_nodes(1).len(), 1);
    assert_eq!(sm.get_healthy_nodes(0).len(), 0);
    let off = IndexNodeRequest::MarkNodesOffline { node_ids: vec![vec![1], vec![77]] };
    assert_eq!(run(&mut sm, 5, off), IndexNodeResponse::ok());
    assert_eq!(
        sm.get_healthy_nodes(10),
        vec![(vec![2], "10.0.0.2:1".to_string(), None)]
    );
    let mut lags = sm.list_node_lags();
    lags.sort();
    assert_eq!(lags, vec![(vec![1], 3), (vec![2], 4)]);
    run(&mut sm, 9, register(1));
    assert_eq!(sm.get_healthy_nodes(10).len(), 2);
    let stats = sm.list_all_node_stats();
    assert_eq!(stats.len(), 2);
    let expected = NodeStats {
        node_id: vec![1],
        capacity_bytes: 100,
        addr: "10.0.0.1:1".to_string(),
        relay_url: None,
        last_seen: 9,
        status: NodeStatus::Online,
    };
    assert!(stats.contains(&(vec![1], expected)));
}

#[test]
fn objects_are_listed_in_order() {
    let mut sm = empty();
    for key in ["pear", "apple", "fig", "apple pie"] {
        run(&mut sm, 1, commit("b", key, &[1], 1));
    }
    run(&mut sm, 2, commit("c", "zebra", &[1], 1));
    assert_eq!(sm.list_objects("b"), vec!["apple", "apple pie", "fig", "pear"]);
    assert_eq!(sm.list_objects("none"), Vec::<String>::new());
}

#[test]
fn memberships_and_blanks_are_applied() {
    let mut sm = empty();
    let entries = vec![
        LogEntry { log_id: 1, index: 1, payload: EntryPayload::Membership("one") },
        LogEntry { log_id: 2, index: 2, payload: EntryPayload::Membership("two") },
        LogEntry { log_id: 3, index: 3, payload: EntryPayload::Blank },
    ];
    let answers = sm.apply(entries).unwrap();
    assert_eq!(answers.len(), 3);
    assert_eq!(answers[2], IndexNodeResponse::ok());
    assert_eq!(sm.applied_state(), (&Some(3), &"two"));
    assert_eq!(sm.apply(vec![]).unwrap(), vec![]);
    assert_eq!(sm.applied_state(), (&Some(3), &"two"));
}

#[test]
fn logs_may_be_cut_anywhere() {
    let cmds = || vec![create("b", 1), commit("b", "k", &[10], 1), commit("b", "k", &[11], 1)];
    let mut whole = empty();
    whole.apply(cmds().into_iter().map(|c| entry(1, c)).collect()).unwrap();
    let mut piecewise = empty();
    for c in cmds() {
        run(&mut piecewise, 1, c);
    }
    assert_eq!(whole.snapshot().data, piecewise.snapshot().data);
}

#[test]
fn batches_are_their_commands_in_order() {
    let cmds = || vec![create("b", 1), commit("b", "k", &[10], 1), delete("b", "k", 1)];
    let mut together = empty();
    let answer = run(&mut together, 1, IndexNodeRequest::Batch(cmds()));
    let mut apart = empty();
    let answers: Vec<IndexNodeResponse> =
        cmds().into_iter().map(|c| run(&mut apart, 1, c)).collect();
    assert_eq!(answer.batch_responses, Some(answers));
    assert_eq!(together.snapshot().data, apart.snapshot().data);
}

#[test]
fn owners_change_only_by_deletion() {
    let mut sm = empty();
    run(&mut sm, 1, create("b", 1));
    let by = |caller: u8| IndexNodeRequest::DeleteBucket {
        name: "b".to_string(),
        caller: vec![caller],
    };
    run(&mut sm, 2, IndexNodeRequest::Batch(vec![by(2), create("b", 2), commit("b", "k", &[1], 2)]));
    assert_eq!(run(&mut sm, 3, commit("b", "k", &[1], 1)), IndexNodeResponse::ok());
    run(&mut sm, 4, IndexNodeRequest::Batch(vec![by(1), create("b", 2)]));
    assert_eq!(run(&mut sm, 5, commit("b", "k", &[1], 1)), IndexNodeResponse::err("forbidden"));
    assert_eq!(run(&mut sm, 6, commit("b", "k", &[1], 2)), IndexNodeResponse::ok());
}

#[test]
fn journals_say_what_to_write() {
    let mut sm = empty();
    let staged = sm.stage(vec![entry(1, create("b", 1)), entry(2, create("b", 2))]).unwrap();
    assert_eq!(
        staged.journal,
        vec![RowOp::InsertBucket { name: "b".to_string(), created_at: 5, owner: vec![1] }]
    );
    assert_eq!(staged.last_log, Some(2));
    assert_eq!(staged.last_membership, None);
    assert_eq!(sm.list_buckets(), Vec::<String>::new());
    assert_eq!(sm.finish(staged).len(), 2);
    assert_eq!(sm.list_buckets(), vec!["b".to_string()]);

    let staged = sm.stage(vec![entry(3, commit("b", "k", &[10], 1))]).unwrap();
    let row = ManifestRow {
        object_hash: vec![1],
        manifest: vec![10],
        signature: vec![7; 64],
        created_at: 7,
        blobs: Some(vec![vec![10; 32]]),
    };
    let put = RowOp::PutManifest { bucket: "b".to_string(), key: "k".to_string(), row };
    assert!(staged.journal.contains(&put));
    assert!(staged.journal.contains(&RowOp::Retain { blob: vec![10; 32] }));
    sm.finish(staged);

    let staged = sm.stage(vec![entry(4, delete("b", "k", 1))]).unwrap();
    assert!(staged.journal.contains(&RowOp::Release { blob: vec![10; 32] }));
    let gone = RowOp::DeleteManifest { bucket: "b".to_string(), key: "k".to_string() };
    assert!(staged.journal.contains(&gone));
    sm.finish(staged);

    run(&mut sm, 5, commit("b", "k", &[10], 1));
    let cmd = IndexNodeRequest::DeleteBucket { name: "b".to_string(), caller: vec![1] };
    let staged = sm.stage(vec![entry(6, cmd)]).unwrap();
    assert_eq!(
        staged.journal,
        vec![
            RowOp::Release { blob: vec![10; 32] },
            RowOp::DeleteBucket { name: "b".to_string() },
            RowOp::DeleteManifestsOf { bucket: "b".to_string() },
        ]
    );
}

#[test]
fn operators_list_all_manifests() {
    let mut sm = empty();
    assert_eq!(sm.list_all_manifests(), vec![]);
    run(&mut sm, 1, commit("b", "k", &[10], 1));
    run(&mut sm, 2, commit("b", "l", &[11, 12], 1));
    run(&mut sm, 3, commit("c", "k", &[13], 1));
    let mut all = sm.list_all_manifests();
    all.sort();
    let row = |b: &str, k: &str, m: &[u8]| (b.to_string(), k.to_string(), m.to_vec());
    assert_eq!(all, vec![row("b", "k", &[10]), row("b", "l", &[11, 12]), row("c", "k", &[13])]);
    assert!(!sm.is_repair_operator(&[9]));
    run(&mut sm, 4, IndexNodeRequest::SetRepairOperator { caller: vec![9] });
    assert!(sm.is_repair_operator(&[9]));
    assert!(!sm.is_repair_operator(&[1]));
}

#[test]
fn snapshots_restore_the_tables() {
    let mut sm = empty();
    run(&mut sm, 1, commit("b", "k", &[10], 1));
    run(&mut sm, 2, register(1));
    run(&mut sm, 3, IndexNodeRequest::SetRepairOperator { caller: vec![9] });
    let snapshot = sm.snapshot();
    assert_eq!(snapshot.last_applied_log, &Some(3));
    assert_eq!(snapshot.snapshot_index, 0);
    assert_eq!(snapshot.data.repair_operator, Some(vec![9]));
    let bucket = ("b".to_string(), BucketRow { created_at: 7, owner: vec![1] });
    assert_eq!(snapshot.data.buckets, vec![bucket]);
    assert_eq!(snapshot.data.manifests[0].1.created_at, 0);
    assert_eq!(snapshot.data.shard_refs, vec![(vec![10; 32], 1)]);

    let data = snapshot.data;
    let mut other = empty();
    run(&mut other, 1, register(2));
    run(&mut other, 2, create("gone", 1));
    let meta =
        SnapshotMeta { last_log_id: Some(3), last_membership: "m", snapshot_id: "x".to_string() };
    other.install_snapshot(meta, Some(3), "m", data.clone(), vec![1, 2, 3]).unwrap();
    assert_eq!(other.snapshot().data, data);
    assert_eq!(other.applied_state(), (&Some(3), &"m"));
    assert_eq!(other.list_buckets(), vec!["b".to_string()]);
    assert_eq!(other.read_manifest("b", "k"), sm.read_manifest("b", "k"));
    assert_eq!(other.list_node_lags(), vec![(vec![2], 1)]);
    let kept = other.get_current_snapshot().unwrap();
    assert_eq!(kept.0.snapshot_id, "x");
    assert_eq!(kept.1, vec![1, 2, 3]);
    assert_eq!(run(&mut other, 4, repair("b", "k", &[11], 9)), IndexNodeResponse::ok());
}

#[test]
fn snapshots_are_numbered() {
    let mut sm = empty();
    assert_eq!(sm.next_snapshot_id(None), "--1");
    assert_eq!(sm.next_snapshot_id(Some(("T1-N2".to_string(), 40))), "T1-N2-40-2");
    assert_eq!(sm.snapshot().snapshot_index, 2);
    let meta =
        SnapshotMeta { last_log_id: None, last_membership: "m", snapshot_id: "--1".to_string() };
    sm.keep_snapshot(meta, vec![5]);
    assert_eq!(sm.get_current_snapshot().unwrap().1, vec![5]);
}

#[test]
fn commands_describe_themselves() {
    assert_eq!(create("b", 1).describe(), "CreateBucket(b, 5)");
    let cmd = IndexNodeRequest::DeleteBucket { name: "b".to_string(), caller: vec![] };
    assert_eq!(cmd.describe(), "DeleteBucket(b)");
    assert_eq!(commit("b", "k", &[], 1).describe(), "CommitManifest(01)");
    assert_eq!(repair("b", "k", &[], 1).describe(), "RepairManifest(01)");
    assert_eq!(delete("b", "k", 1).describe(), "DeleteManifest(b, k)");
    let cmd = IndexNodeRequest::SetRepairOperator { caller: vec![1] };
    assert_eq!(cmd.describe(), "SetRepairOperator");
    let cmd = IndexNodeRequest::Batch(vec![register(1), register(2)]);
    assert_eq!(cmd.describe(), "Batch(2 entries)");
    assert_eq!(register(0xab).describe(), "RegisterNode(ab)");
    let cmd = IndexNodeRequest::MarkNodesOffline { node_ids: vec![vec![0xcd; 32], vec![1]] };
    assert_eq!(cmd.describe(), "MarkNodesOffline(cdcdcdcdcdcdcdcd, 01)");
}
