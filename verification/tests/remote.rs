//! Talking to an index node.
use arkel::index::log::{first_truncated, last_log_id, row_range, Bound};
use arkel::index::remote::{
    after_read, after_write, candidate_urls, check_body, check_status, gc_reply, gc_route,
    healthy_node, host_to_look_up, lookup_for, names_ipv4, node_status, percent_encode_path,
    percent_encode_route, quota_reply, quota_route, reports_leadership, retryable_index_error,
    write_reply, BodyCheck, Lookup, NodeFieldError, ReadReply, ReadStep, WriteReply, WriteStep,
};

fn answer(success: Option<bool>, error: Option<&str>) -> WriteReply {
    WriteReply::Answer { success, error: error.map(|e| e.to_string()) }
}

fn failed(why: &str) -> WriteStep {
    WriteStep::Failed(why.to_string())
}

/// The candidates for a URL, where every host has the same addresses.
fn candidates(url: &str) -> Vec<String> {
    let addrs = match host_to_look_up(url) {
        Lookup::AsGiven => vec![],
        Lookup::Name { port, .. } => {
            ["[::1]", "127.0.0.1", "[::1]"].iter().map(|a| format!("{a}:{port}")).collect()
        }
    };
    candidate_urls(url, &host_to_look_up(url), &addrs)
}

#[test]
fn candidate_urls_keeps_ip_literal() {
    assert_eq!(candidates("http://10.0.0.2:8001"), vec!["http://10.0.0.2:8001".to_string()]);
}

#[test]
fn candidate_urls_keeps_unparseable() {
    assert_eq!(candidates("not a url"), vec!["not a url".to_string()]);
}

#[test]
fn candidate_urls_expands_hostname() {
    let urls = candidates("http://localhost:8001");
    assert!(
        urls.iter().any(|u| u == "http://127.0.0.1:8001"),
        "expected a 127.0.0.1 candidate, got {urls:?}"
    );
    assert_eq!(urls, vec!["http://127.0.0.1:8001", "http://[::1]:8001"]);
}

#[test]
fn unresolved_hosts_keep_their_url() {
    let lookup = host_to_look_up("http://gone:1");
    assert_eq!(lookup, named("http", "gone", 1));
    assert_eq!(
        candidate_urls("http://gone:1", &lookup, &vec![]),
        vec!["http://gone:1".to_string()]
    );
}

fn named(scheme: &str, host: &str, port: u16) -> Lookup {
    Lookup::Name { scheme: scheme.to_string(), host: host.to_string(), port }
}

#[test]
fn hosts_are_looked_up_by_name() {
    assert_eq!(host_to_look_up("https://index.example/x"), named("https", "index.example", 443));
    assert_eq!(host_to_look_up("http://Index.Example"), named("http", "index.example", 80));
    assert_eq!(host_to_look_up("arkel://index"), named("arkel", "index", 80));
    assert_eq!(host_to_look_up("arkel://index:9"), named("arkel", "index", 9));
    assert_eq!(host_to_look_up("http://[::1]:8001"), Lookup::AsGiven);
    assert_eq!(host_to_look_up("http://127.1"), Lookup::AsGiven);
    assert_eq!(host_to_look_up("arkel://10.0.0.2"), Lookup::AsGiven);
    assert_eq!(host_to_look_up("mailto:a@b"), Lookup::AsGiven);
    assert_eq!(host_to_look_up("file:///tmp"), Lookup::AsGiven);
    assert_eq!(host_to_look_up(""), Lookup::AsGiven);
}

#[test]
fn addresses_have_four_numbers() {
    for host in ["0.0.0.0", "255.255.255.255", "10.0.0.2"] {
        assert!(names_ipv4(host), "{}", host);
        assert!(host.parse::<core::net::Ipv4Addr>().is_ok());
    }
    for host in ["1.2.3", "1.2.3.4.5", "1.2.3.256", "01.2.3.4", "1.2.3.+4", "a.b.c.d", "1..2.3", ""]
    {
        assert!(!names_ipv4(host), "{}", host);
        assert!(host.parse::<core::net::Ipv4Addr>().is_err());
    }
    let parts = |host: &str| Some(("x".to_string(), Some(host.to_string()), None));
    assert_eq!(lookup_for(parts("1.2.3.4")), Lookup::AsGiven);
    assert_eq!(lookup_for(parts("1.2.3.256")), named("x", "1.2.3.256", 80));
    assert_eq!(lookup_for(Some(("x".to_string(), None, Some(1)))), Lookup::AsGiven);
    assert_eq!(lookup_for(None), Lookup::AsGiven);
}

#[test]
fn paths_are_percent_encoded() {
    assert_eq!(percent_encode_path("a/b-c_d.e~f"), "a/b-c_d.e~f");
    assert_eq!(percent_encode_path("a b"), "a%20b");
    assert_eq!(percent_encode_path("100%?"), "100%25%3F");
    assert_eq!(percent_encode_path("\u{e9}"), "%C3%A9");
    assert_eq!(percent_encode_path(""), "");
    assert_ne!(percent_encode_path("a b"), percent_encode_path("a%20b"));
}

#[test]
fn queries_are_left_alone() {
    assert_eq!(percent_encode_route("a b?x=1 2"), "a%20b?x=1 2");
    assert_eq!(percent_encode_route("a b"), "a%20b");
}

#[test]
fn leadership_errors_are_worth_a_retry() {
    assert!(retryable_index_error("has to ForwardToLeader x"));
    assert!(retryable_index_error("raft batch error: y"));
    assert!(!retryable_index_error("forbidden"));
}

#[test]
fn writes_are_tried_three_times() {
    let retry = || answer(Some(false), Some("ForwardToLeader"));
    assert_eq!(after_write("PUT", "r", 0, &retry()), WriteStep::Again);
    assert_eq!(after_write("PUT", "r", 1, &retry()), WriteStep::Again);
    assert_eq!(
        after_write("PUT", "r", 2, &retry()),
        failed("PUT r failed after retries: ForwardToLeader")
    );
}

#[test]
fn writes_end_with_their_answer() {
    assert_eq!(after_write("PUT", "r", 0, &answer(Some(true), None)), WriteStep::Done);
    assert_eq!(
        after_write("PUT", "r", 0, &answer(Some(false), Some("forbidden"))),
        failed("PUT r rejected: forbidden")
    );
    assert_eq!(
        after_write("DELETE", "r", 0, &answer(None, None)),
        failed("DELETE r rejected: unknown error")
    );
    assert_eq!(after_write("PUT", "r", 0, &WriteReply::Garbled), WriteStep::Unreadable);
    let status = WriteReply::Status {
        status: "401 Unauthorized".to_string(),
        text: " missing authorization\n".to_string(),
    };
    assert_eq!(
        after_write("PUT", "r", 0, &status),
        failed("PUT r: HTTP 401 Unauthorized: missing authorization")
    );
}

#[test]
fn replies_to_writes_are_read() {
    let step = |text: &str| after_write("PUT", "r", 0, &write_reply(true, "200 OK", text));
    assert_eq!(step(r#"{"success":true,"error":null}"#), WriteStep::Done);
    assert_eq!(
        step(r#"{"success":false,"error":"forbidden"}"#),
        failed("PUT r rejected: forbidden")
    );
    assert_eq!(step(r#"{"success":false,"error":"ForwardToLeader"}"#), WriteStep::Again);
    assert_eq!(step(r#"{"success":"true"}"#), failed("PUT r rejected: unknown error"));
    assert_eq!(step("[]"), failed("PUT r rejected: unknown error"));
    assert_eq!(step("<html>"), WriteStep::Unreadable);
    assert_eq!(step(""), WriteStep::Unreadable);
    let refused = write_reply(false, "500 Oops", r#"{"success":true}"#);
    assert_eq!(
        after_write("PUT", "r", 0, &refused),
        failed(r#"PUT r: HTTP 500 Oops: {"success":true}"#)
    );
}

#[test]
fn bodies_are_checked_before_they_are_read() {
    assert_eq!(check_body("GET x", "200 OK", true, "[1]"), BodyCheck::Fine);
    assert_eq!(check_body("GET x", "200 OK", true, ""), BodyCheck::Garbled);
    assert_eq!(
        check_body("GET x", "404 Not Found", false, "{}"),
        BodyCheck::Refused("GET x: HTTP 404 Not Found: {}".to_string())
    );
}

#[test]
fn reads_retry_while_a_node_is_unavailable() {
    assert_eq!(after_read(0, &ReadReply::Status(200)), ReadStep::Return);
    assert_eq!(after_read(2, &ReadReply::Status(404)), ReadStep::Return);
    assert_eq!(after_read(0, &ReadReply::Status(503)), ReadStep::Again);
    assert_eq!(after_read(1, &ReadReply::Transport), ReadStep::Again);
    assert_eq!(after_read(2, &ReadReply::Status(503)), ReadStep::Failed);
    assert_eq!(after_read(2, &ReadReply::Transport), ReadStep::Failed);
}

#[test]
fn bad_statuses_are_reported() {
    assert_eq!(check_status("GET x", "200 OK", true, "body"), None);
    assert_eq!(
        check_status("GET x", "404 Not Found", false, " \n"),
        Some("GET x: HTTP 404 Not Found".to_string())
    );
    assert_eq!(
        check_status("GET x", "500 Oops", false, " why\n"),
        Some("GET x: HTTP 500 Oops: why".to_string())
    );
}

#[test]
fn leaders_say_so() {
    assert!(reports_leadership(Some(3), Some(3)));
    assert!(!reports_leadership(Some(3), Some(4)));
    assert!(!reports_leadership(None, None));
    assert!(!reports_leadership(Some(3), None));
}

#[test]
fn candidates_for_deletion_travel_in_hexadecimal() {
    assert_eq!(
        gc_route(&vec![[0xab; 32], [1; 32]]),
        format!("shards/gc-candidates?hashes={},{}", "ab".repeat(32), "01".repeat(32))
    );
    assert_eq!(gc_route(&vec![]), "shards/gc-candidates?hashes=");
    let reply = vec!["00ff".to_string(), "xyz".to_string(), "0".to_string(), "AB".to_string()];
    assert_eq!(gc_reply(&reply), vec![vec![0x00, 0xff], vec![0xab]]);
}

#[test]
fn quotas_default_to_zero() {
    assert_eq!(quota_route("abc"), "account/quota?account=abc");
    assert_eq!(quota_reply(Some(5), None), (5, 0));
    assert_eq!(quota_reply(None, Some(6)), (0, 6));
}

#[test]
fn listed_nodes_are_read() {
    let key = iroh::SecretKey::from_bytes(&[1u8; 32]).public();
    let id = key.to_string();
    let node = healthy_node(
        Some(id.clone()),
        Some("1.2.3.4:5".to_string()),
        Some(10),
        None,
        Some("https://relay".to_string()),
    )
    .unwrap();
    assert_eq!(&node.node_id, key.as_bytes());
    assert_eq!(node.capacity_bytes, 10);
    assert_eq!(node.occupied_bytes, 0);
    let target = node.target();
    assert_eq!(target.node_id, node.node_id);
    assert_eq!(target.addr, "1.2.3.4:5");
    assert_eq!(target.relay_url, Some("https://relay".to_string()));
    let addr = || Some("a".to_string());
    let missing = healthy_node(None, addr(), None, None, None).unwrap_err();
    assert_eq!(missing.message(), "missing node_id");
    let missing = healthy_node(Some(id.clone()), None, None, None, None).unwrap_err();
    assert_eq!(missing.message(), "missing addr");
    let bad = healthy_node(Some("zz".to_string()), addr(), None, None, None).unwrap_err();
    assert_eq!(bad, NodeFieldError::BadNodeId);
}

#[test]
fn node_states_are_read() {
    let key = iroh::SecretKey::from_bytes(&[1u8; 32]).public();
    let id = || Some(key.to_string());
    let addr = || Some("a:1".to_string());
    let status = |s: &str| node_status(id(), addr(), Some(s.to_string()), None).unwrap();
    assert_eq!(&status("Online").node_id, key.as_bytes());
    assert!(!status("Online").offline);
    assert!(status("Offline").offline);
    assert!(!node_status(id(), addr(), None, None).unwrap().offline);
    assert_eq!(node_status(None, addr(), None, None), Err(NodeFieldError::MissingNodeId));
    assert_eq!(node_status(id(), None, None, None), Err(NodeFieldError::MissingAddr));
}

#[test]
fn log_rows_lie_in_a_range() {
    assert_eq!(row_range(Bound::Included(3), Bound::Excluded(7)), (3, 6));
    assert_eq!(row_range(Bound::Excluded(3), Bound::Included(7)), (4, 7));
    assert_eq!(row_range(Bound::Unbounded, Bound::Unbounded), (i64::MIN, i64::MAX));
    let top = i64::MAX as u64;
    assert_eq!(row_range(Bound::Included(top), Bound::Included(top)), (i64::MAX, i64::MAX));
    assert_eq!(row_range(Bound::Included(0), Bound::Excluded(top)), (0, i64::MAX - 1));
    assert_eq!(row_range(Bound::Included(0), Bound::Excluded(0)), (0, -1));
    assert_eq!(row_range(Bound::Included(top + 1), Bound::Included(u64::MAX)), (i64::MIN, -1));
    assert_eq!(row_range(Bound::Excluded(u64::MAX), Bound::Excluded(u64::MAX)), (0, -2));
    assert_eq!(first_truncated(Some(u64::MAX)), 0);
    assert_eq!(first_truncated(None), 0);
    assert_eq!(first_truncated(Some(4)), 5);
    assert_eq!(last_log_id(Some(9), Some(3)), Some(9));
    assert_eq!(last_log_id(None, Some(3)), Some(3));
    assert_eq!(last_log_id::<u64>(None, None), None);
}
