//! The bodies of replies.
use arkel::index::remote::NodeFieldError;
use arkel::index::replies::{
    read_all_manifests, read_all_nodes, read_gc_candidates, read_healthy_nodes, read_quota,
    read_stored_manifest, shows_leader, ReplyError, StoredManifest,
};
use arkel::json::{bytes_member, flag_member, number_member, string_member};

fn id(n: u8) -> String {
    iroh::SecretKey::from_bytes(&[n; 32]).public().to_string()
}

#[test]
fn members_are_read_by_their_type() {
    let s = r#"{"a":"x\n","b":true,"c":7,"d":[1,255],"e":-1,"f":1.5,"g":null,"h":[256]}"#;
    assert_eq!(string_member(s, "a"), Some("x\n".to_string()));
    assert_eq!(flag_member(s, "b"), Some(true));
    assert_eq!(number_member(s, "c"), Some(7));
    assert_eq!(bytes_member(s, "d"), Some(vec![1, 255]));
    assert_eq!(string_member(s, "b"), None);
    assert_eq!(flag_member(s, "a"), None);
    assert_eq!(number_member(s, "e"), None);
    assert_eq!(number_member(s, "f"), None);
    assert_eq!(number_member(s, "g"), None);
    assert_eq!(bytes_member(s, "h"), None);
    assert_eq!(string_member(s, "z"), None);
    assert_eq!(string_member("[1]", "a"), None);
    assert_eq!(string_member("nonsense", "a"), None);
    assert_eq!(number_member(r#"{"n":18446744073709551615}"#, "n"), Some(u64::MAX));
}

#[test]
fn metrics_show_the_leader() {
    assert!(shows_leader(r#"{"id":3,"current_leader":3,"term":1}"#));
    assert!(!shows_leader(r#"{"id":3,"current_leader":4}"#));
    assert!(!shows_leader(r#"{"id":3,"current_leader":null}"#));
    assert!(!shows_leader(r#"{"current_leader":null}"#));
    assert!(!shows_leader("not found"));
}

#[test]
fn online_nodes_are_read() {
    let body = format!(
        r#"[{{"node_id":"{}","addr":"1.2.3.4:5","capacity_bytes":10,"relay_url":"https://r"}},
            {{"node_id":"{}","addr":"b:1","occupied_bytes":3,"relay_url":null}}]"#,
        id(1),
        id(2)
    );
    let nodes = read_healthy_nodes(&body).unwrap();
    assert_eq!(nodes.len(), 2);
    assert_eq!(&nodes[0].node_id, iroh::SecretKey::from_bytes(&[1; 32]).public().as_bytes());
    assert_eq!((nodes[0].addr.as_str(), nodes[0].capacity_bytes), ("1.2.3.4:5", 10));
    assert_eq!(nodes[0].relay_url.as_deref(), Some("https://r"));
    assert_eq!((nodes[1].capacity_bytes, nodes[1].occupied_bytes), (0, 3));
    assert_eq!(nodes[1].relay_url, None);
    assert_eq!(read_healthy_nodes("[]"), Ok(vec![]));
    assert_eq!(read_healthy_nodes("{}"), Err(ReplyError::NotAnArray));
    let node = |e| Err(ReplyError::Node(e));
    assert_eq!(read_healthy_nodes("[1]"), node(NodeFieldError::MissingNodeId));
    assert_eq!(read_healthy_nodes(r#"[{"node_id":"zz"}]"#), node(NodeFieldError::MissingAddr));
    let bad = r#"[{"node_id":"zz","addr":"a"},{"addr":"a"}]"#;
    assert_eq!(read_healthy_nodes(bad), node(NodeFieldError::BadNodeId));
}

#[test]
fn all_nodes_are_read() {
    let body = format!(
        r#"[{{"node_id":"{}","addr":"a:1","status":"Offline"}},
            {{"node_id":"{}","addr":"b:1","status":"Online","relay_url":"r"}}]"#,
        id(1),
        id(2)
    );
    let nodes = read_all_nodes(&body).unwrap();
    let offline: Vec<bool> = nodes.iter().map(|n| n.offline).collect();
    assert_eq!(offline, vec![true, false]);
    assert_eq!((nodes[0].addr.as_str(), nodes[1].addr.as_str()), ("a:1", "b:1"));
    assert_eq!(nodes[1].relay_url.as_deref(), Some("r"));
    assert_eq!(read_all_nodes("null"), Err(ReplyError::NotAnArray));
    let missing = read_all_nodes("[{}]").unwrap_err();
    assert_eq!(missing, ReplyError::Node(NodeFieldError::MissingNodeId));
    assert_eq!(missing.message(), "missing node_id");
}

#[test]
fn deletable_shards_are_read() {
    let body = r#"["00ff",7,"xyz","AB",null]"#;
    assert_eq!(read_gc_candidates(body), Ok(vec![vec![0x00, 0xff], vec![0xab]]));
    let error = read_gc_candidates("{}").unwrap_err();
    assert_eq!(error.message(), "expected an array");
}

#[test]
fn quotas_are_read() {
    assert_eq!(read_quota(r#"{"total_bytes":5,"used_bytes":2}"#), (5, 2));
    assert_eq!(read_quota(r#"{"used_bytes":2}"#), (0, 2));
    assert_eq!(read_quota("{}"), (0, 0));
}

#[test]
fn manifest_listings_are_read() {
    let body = r#"[["b","k",[1,2]],["c","l",[],"more"]]"#;
    assert_eq!(
        read_all_manifests(body),
        Ok(vec![
            ("b".to_string(), "k".to_string(), vec![1, 2]),
            ("c".to_string(), "l".to_string(), vec![]),
        ])
    );
    assert_eq!(read_all_manifests("7"), Err(ReplyError::NotAnArray));
    let message = |body: &str| read_all_manifests(body).unwrap_err().message();
    assert_eq!(message(r#"[["b","k",[1]],{}]"#), "bad bucket");
    assert_eq!(message(r#"[[1,"k",[1]]]"#), "bad bucket");
    assert_eq!(message(r#"[["b"]]"#), "bad key");
    assert_eq!(message(r#"[["b","k"]]"#), "bad manifest_bytes");
    assert_eq!(message(r#"[["b","k",[300]],[1]]"#), "bad manifest_bytes");
}

#[test]
fn stored_manifests_are_read() {
    assert_eq!(
        read_stored_manifest(r#"{"manifest_bytes":[1,2],"signature":[3]}"#),
        Ok(StoredManifest { manifest_bytes: vec![1, 2], signature: vec![3] })
    );
    assert_eq!(read_stored_manifest("{}").unwrap_err().message(), "bad manifest_bytes");
    let unsigned = read_stored_manifest(r#"{"manifest_bytes":[]}"#).unwrap_err();
    assert_eq!(unsigned.message(), "bad signature");
}
