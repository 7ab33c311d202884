//! Identities, membership, configuration and commands.
use arkel::cli::{
    default_scheme, erasure_config, index_addrs, object_key, parse_targets, ClientCmd, Commands,
    TargetError,
};
use arkel::config::{number_or, parse_size, resolve, storage_capacity, SizeError, DEFAULT_CAPACITY};
use arkel::dataplane::erasure::ErasureConfig;
use arkel::identity::{raft_node_id_from_addr, raft_node_id_from_pubkey, NodeIdentity};
use arkel::node::{
    initial_members, other_peers, peer_host, peer_member, peer_url_from_addr, stale_nodes,
    ArkelNode, ArkelNodeType, BootstrapConfig, NodeMode,
};
use std::collections::hash_map::DefaultHasher;
use std::hash::{Hash, Hasher};

fn texts(v: &[&str]) -> Vec<String> {
    v.iter().map(|s| s.to_string()).collect()
}

#[test]
fn stored_keys_give_the_identity_back() {
    let fresh = NodeIdentity::generate();
    let stored = fresh.secret_key().to_vec();
    let again = NodeIdentity::from_stored(&stored).ok().unwrap();
    assert_eq!(again.node_id(), fresh.node_id());
    assert_ne!(NodeIdentity::generate().secret_key(), fresh.secret_key());
    let short = NodeIdentity::from_stored(&stored[..31]).err().unwrap();
    assert_eq!(short.message(), "Identity key on disk is corrupted (must be exactly 32 bytes)");
    assert!(NodeIdentity::from_stored(&[0u8; 33]).is_err());
}

#[test]
fn identities_follow_from_the_secret_key() {
    let identity = NodeIdentity::from_stored(&[5u8; 32]).ok().unwrap();
    let public = iroh::SecretKey::from_bytes(&[5u8; 32]).public();
    assert_eq!(&identity.node_id(), public.as_bytes());
    let mut first = [0u8; 8];
    first.copy_from_slice(&public.as_bytes()[..8]);
    assert_eq!(identity.raft_node_id(), u64::from_le_bytes(first));
    assert_eq!(identity.raft_full_addr("1.2.3.4:5"), format!("{}@1.2.3.4:5", public));
}

#[test]
fn numbers_are_little_endian() {
    let mut key = [0u8; 32];
    key[0] = 1;
    key[1] = 2;
    key[7] = 3;
    key[8] = 99;
    assert_eq!(raft_node_id_from_pubkey(&key), 0x0300_0000_0000_0201);
    assert_eq!(raft_node_id_from_pubkey(&[0xff; 32]), u64::MAX);
}

#[test]
fn full_addresses_give_the_number_back() {
    let identity = NodeIdentity::from_stored(&[5u8; 32]).ok().unwrap();
    let addr = identity.raft_full_addr("1.2.3.4:5");
    assert_eq!(raft_node_id_from_addr(&addr), identity.raft_node_id());
    let bare = iroh::SecretKey::from_bytes(&[5u8; 32]).public().to_string();
    assert_eq!(raft_node_id_from_addr(&bare), identity.raft_node_id());
}

#[test]
fn other_addresses_are_hashed() {
    for addr in ["10.0.0.1:80", "", "nokey@10.0.0.1:80"] {
        let mut hasher = DefaultHasher::new();
        addr.hash(&mut hasher);
        assert_eq!(raft_node_id_from_addr(addr), hasher.finish());
    }
}

#[test]
fn local_nodes_know_their_addresses() {
    let identity = NodeIdentity::from_stored(&[5u8; 32]).ok().unwrap();
    let index = NodeMode::Index {
        bootstrap: BootstrapConfig { peer_addresses: vec![] },
        http_addr: "1.2.3.4:5".to_string(),
    };
    let node = ArkelNode::with_identity(&identity, &index);
    assert_eq!(node.id, identity.raft_node_id());
    match node.node_type {
        ArkelNodeType::Index(params) => {
            assert_eq!(params.rpc_url, "http://1.2.3.4:5");
            assert_eq!(params.bind_addr, identity.raft_full_addr("1.2.3.4:5"));
            assert_eq!(params.http_addr, "1.2.3.4:5");
        }
        ArkelNodeType::Storage => panic!("an index node"),
    }
    let storage = NodeMode::Storage {
        base_dir: ".".to_string(),
        private_relay_url: None,
        index_addrs: vec![],
        addr: "0.0.0.0:0".to_string(),
        advertise_addr: None,
        capacity_bytes: 1,
    };
    let node = ArkelNode::from_local(&identity.node_id(), &storage);
    assert!(matches!(node.node_type, ArkelNodeType::Storage));
}

#[test]
fn peers_are_reached_at_their_host() {
    assert_eq!(peer_host("key@10.0.0.1:80"), "10.0.0.1:80");
    assert_eq!(peer_host("10.0.0.1:80"), "10.0.0.1:80");
    assert_eq!(peer_host("a@b@c"), "b@c");
    assert_eq!(peer_url_from_addr("key@10.0.0.1:80"), "http://10.0.0.1:80");
}

#[test]
fn lowest_number_sets_the_cluster_up() {
    let addrs: Vec<String> = (1u8..4)
        .map(|i| NodeIdentity::from_stored(&[i; 32]).ok().unwrap().raft_full_addr("h:1"))
        .collect();
    let ids: Vec<u64> = addrs.iter().map(|a| raft_node_id_from_addr(a)).collect();
    let lowest = *ids.iter().min().unwrap();
    let mut initializers = 0;
    for me in 0..3 {
        let mine = peer_member(&addrs[me], "h:1");
        assert_eq!(mine.id, ids[me]);
        assert_eq!(mine.params.rpc_url, "http://h:1");
        assert_eq!(mine.params.bind_addr, addrs[me]);
        let peers: Vec<_> =
            (0..3).filter(|i| *i != me).map(|i| peer_member(&addrs[i], "h:1")).collect();
        let cluster = initial_members(&mine, &peers);
        let mut members: Vec<u64> = cluster.members.iter().map(|m| m.0).collect();
        members.sort();
        let mut expected = ids.clone();
        expected.sort();
        assert_eq!(members, expected);
        assert_eq!(cluster.initialize, ids[me] == lowest);
        if cluster.initialize {
            initializers += 1;
        }
    }
    assert_eq!(initializers, 1);
}

#[test]
fn own_description_wins() {
    let mine = peer_member("10.0.0.1:80", "mine");
    let cluster = initial_members(&mine, &vec![peer_member("10.0.0.1:80", "seed")]);
    assert_eq!(cluster.members.len(), 1);
    assert_eq!(cluster.members[0].1.params.http_addr, "mine");
    assert!(cluster.initialize);
}

#[test]
fn silent_nodes_become_stale() {
    let lags = vec![(vec![1], 100), (vec![2], 49), (vec![3], 50), (vec![4], 200)];
    assert_eq!(stale_nodes(&lags, 100), vec![vec![2]]);
    assert_eq!(stale_nodes(&lags, 0), Vec::<Vec<u8>>::new());
}

#[test]
fn nodes_are_not_their_own_peers() {
    assert_eq!(other_peers(&texts(&["a", "b", "a"]), "a"), texts(&["b"]));
}

#[test]
fn sizes_are_read() {
    let size = |s: &str| parse_size(s).ok();
    assert_eq!(size("1048576"), Some(1048576));
    assert_eq!(size("1K"), Some(1024));
    assert_eq!(size("1kb"), Some(1024));
    assert_eq!(size("3MB"), Some(3 * 1048576));
    assert_eq!(size(" 1G "), Some(1073741824));
    assert_eq!(size("500GB"), Some(500 * 1073741824));
    assert_eq!(size("1TB"), Some(1099511627776));
    assert_eq!(size("2 TB"), Some(2 * 1099511627776));
    assert_eq!(size("18446744073709551615"), Some(u64::MAX));
    let bad = parse_size("lots").unwrap_err();
    assert!(matches!(bad, SizeError::Bad(_)));
    assert_eq!(bad.message(), "bad size: LOTS");
    assert_eq!(parse_size("").unwrap_err().message(), "bad size: ");
    assert_eq!(parse_size("1PB").unwrap_err().message(), "bad size: 1PB");
    let large = parse_size("99999999999tb").unwrap_err();
    assert!(matches!(large, SizeError::Overflow(_)));
    assert_eq!(large.message(), "size overflow: 99999999999TB");
}

#[test]
fn flags_beat_files_and_files_beat_defaults() {
    assert_eq!(resolve(Some(1), Some(2), 3), 1);
    assert_eq!(resolve(None, Some(2), 3), 2);
    assert_eq!(resolve(None, None, 3), 3);
    assert_eq!(number_or(Some("7"), 3), 7);
    assert_eq!(number_or(Some("seven"), 3), 3);
    assert_eq!(number_or(None, 3), 3);
    assert_eq!(storage_capacity(Some(5), Some("1K")), 5);
    assert_eq!(storage_capacity(None, Some("1K")), 1024);
    assert_eq!(storage_capacity(None, Some("?")), DEFAULT_CAPACITY);
    assert_eq!(storage_capacity(None, None), DEFAULT_CAPACITY);
}

#[test]
fn commands_have_their_directories() {
    let index = Commands::Index { http_addr: None, peer_addresses: None };
    assert_eq!(index.data_dir(None, None, 8001), "./.arkel_index_8001_data");
    assert_eq!(index.data_dir(None, Some("file".to_string()), 8001), "file");
    let both = index.data_dir(Some("flag".to_string()), Some("file".to_string()), 8001);
    assert_eq!(both, "flag");
    let cmd = ClientCmd::Rm { bucket: "b".to_string(), key: "k".to_string(), index_addrs: vec![] };
    let client = Commands::Client { cmd };
    assert_eq!(client.data_dir(None, Some("file".to_string()), 1), "./.arkel_client_data");
    let repair = Commands::Repair {
        index_addrs: vec![],
        register: false,
        k: 8,
        m: 6,
        rate_limit: 100,
    };
    assert_eq!(repair.data_dir(None, None, 1), "./.arkel_repair_data");
}

#[test]
fn object_keys_default_to_the_file_name() {
    let some = |s: &str| Some(s.to_string());
    assert_eq!(object_key(some("k"), some("f")), "k");
    assert_eq!(object_key(None, some("f")), "f");
    assert_eq!(object_key(None, None), "object");
}

#[test]
fn index_addresses_have_a_default() {
    assert_eq!(index_addrs(Some(texts(&["a"])), Some(texts(&["b"]))), texts(&["a"]));
    assert_eq!(index_addrs(None, Some(texts(&["b"]))), texts(&["b"]));
    let default: Vec<String> =
        arkel::cli::DEFAULT_INDEX_ADDRS.split(',').map(|s| s.to_string()).collect();
    assert_eq!(index_addrs(None, None), default);
}

#[test]
fn storage_addresses_are_read() {
    let key = iroh::SecretKey::from_bytes(&[1u8; 32]).public();
    let addr = format!("{}@1.2.3.4:5", key);
    let socket = || Some("1.2.3.4:5".to_string());
    let targets = parse_targets(&vec![addr.clone()], &vec![socket()]).unwrap();
    assert_eq!(targets.len(), 1);
    assert_eq!(&targets[0].node_id, key.as_bytes());
    assert_eq!(targets[0].addr, "1.2.3.4:5");
    assert_eq!(targets[0].relay_url, None);
    let error = |a: &str, s: Option<String>| {
        parse_targets(&vec![addr.clone(), a.to_string()], &vec![socket(), s]).unwrap_err()
    };
    assert_eq!(error("1.2.3.4:5", socket()), TargetError::Format);
    assert_eq!(
        TargetError::Format.message(),
        "storage-addrs must be <pubkey>@<ip:port>"
    );
    assert_eq!(error("zz@1.2.3.4:5", socket()), TargetError::Key);
    assert_eq!(error(&addr, None), TargetError::Address);
}

#[test]
fn schemes_come_from_flags() {
    assert_eq!(default_scheme(), ErasureConfig { k: 8, m: 6 });
    assert_eq!(erasure_config(255, 3), ErasureConfig { k: 255, m: 3 });
}
