//! What a client of the index reads out of the JSON bodies of replies.
use vstd::prelude::*;

use crate::bytes;
use crate::index::remote;
use crate::index::remote::{
    HealthyNode, HealthyView, NodeFieldError, NodeStatusInfo, NodeStatusView,
};
use crate::index::types;
use crate::json;
use crate::text;

verus! {

/// Why a body could not be read.
#[derive(Debug, Clone, Copy, PartialEq, Eq, Structural)]
pub enum ReplyError {
    NotAnArray,
    /// An entry of a node listing.
    Node(NodeFieldError),
    BadBucket,
    BadKey,
    BadManifestBytes,
    BadSignature,
}

impl ReplyError {
    /// What went wrong, in words.
    pub open spec fn words(&self) -> Seq<char> {
        match *self {
            ReplyError::NotAnArray => "expected an array"@,
            ReplyError::Node(e) => e.words(),
            ReplyError::BadBucket => "bad bucket"@,
            ReplyError::BadKey => "bad key"@,
            ReplyError::BadManifestBytes => "bad manifest_bytes"@,
            ReplyError::BadSignature => "bad signature"@,
        }
    }

    /// What went wrong, in words.
    pub fn message(&self) -> (r: String)
        ensures
            r@ == self.words(),
    {
        match self {
            ReplyError::NotAnArray => text::owned("expected an array"),
            ReplyError::Node(e) => e.message(),
            ReplyError::BadBucket => text::owned("bad bucket"),
            ReplyError::BadKey => text::owned("bad key"),
            ReplyError::BadManifestBytes => text::owned("bad manifest_bytes"),
            ReplyError::BadSignature => text::owned("bad signature"),
        }
    }
}

/// Whether a node's metrics show it as the leader: its identifier is there, and is
/// that of the current leader.
pub fn shows_leader(metrics: &str) -> (r: bool)
    ensures
        r == (json::number_at(metrics@, "id"@) is Some && json::number_at(
            metrics@,
            "current_leader"@,
        ) == json::number_at(metrics@, "id"@)),
{
    remote::reports_leadership(
        json::number_member(metrics, "id"),
        json::number_member(metrics, "current_leader"),
    )
}

/// An entry of the listing of online nodes.
pub open spec fn healthy_entry(entry: Seq<char>) -> Result<HealthyView, NodeFieldError> {
    remote::healthy_of(
        json::string_at(entry, "node_id"@),
        json::string_at(entry, "addr"@),
        json::number_at(entry, "capacity_bytes"@),
        json::number_at(entry, "occupied_bytes"@),
        json::string_at(entry, "relay_url"@),
    )
}

/// The entries of the listing of online nodes, or the first error among them.
pub open spec fn healthy_entries(entries: Seq<Seq<char>>) -> Result<Seq<HealthyView>, NodeFieldError>
    decreases entries.len(),
{
    if entries.len() == 0 {
        Ok(seq![])
    } else {
        match healthy_entries(entries.drop_last()) {
            Err(e) => Err(e),
            Ok(before) => match healthy_entry(entries.last()) {
                Err(e) => Err(e),
                Ok(node) => Ok(before.push(node)),
            },
        }
    }
}

/// The listing of online nodes.
pub open spec fn healthy_listing(body: Seq<char>) -> Result<Seq<HealthyView>, ReplyError> {
    match json::items_of(body) {
        None => Err(ReplyError::NotAnArray),
        Some(entries) => match healthy_entries(entries) {
            Err(e) => Err(ReplyError::Node(e)),
            Ok(nodes) => Ok(nodes),
        },
    }
}

/// The contents of some listed nodes.
pub open spec fn healthy_views(nodes: Seq<HealthyNode>) -> Seq<HealthyView> {
    nodes.map_values(|n: HealthyNode| n@)
}

proof fn lemma_healthy_stop(entries: Seq<Seq<char>>, i: int, e: NodeFieldError)
    requires
        0 <= i <= entries.len(),
        healthy_entries(entries.take(i)) == Err::<Seq<HealthyView>, NodeFieldError>(e),
    ensures
        healthy_entries(entries) == Err::<Seq<HealthyView>, NodeFieldError>(e),
    decreases entries.len() - i,
{
    if i < entries.len() {
        assert(entries.drop_last().take(i) =~= entries.take(i));
        lemma_healthy_stop(entries.drop_last(), i, e);
    } else {
        assert(entries.take(i) =~= entries);
    }
}

/// Reads the listing of online nodes.
pub fn read_healthy_nodes(body: &str) -> (r: Result<Vec<HealthyNode>, ReplyError>)
    ensures
        match healthy_listing(body@) {
            Ok(nodes) => r is Ok && healthy_views(r->Ok_0@) == nodes,
            Err(e) => r == Err::<Vec<HealthyNode>, ReplyError>(e),
        },
{
    let entries = match json::items(body) {
        Some(entries) => entries,
        None => {
            return Err(ReplyError::NotAnArray);
        },
    };
    let ghost all = text::texts(entries@);
    let mut out: Vec<HealthyNode> = Vec::new();
    let mut i: usize = 0;
    assert(healthy_views(out@) =~= seq![]);
    while i < entries.len()
        invariant
            i <= entries@.len(),
            all == text::texts(entries@),
            json::items_of(body@) == Some(all),
            healthy_entries(all.take(i as int)) == Ok::<Seq<HealthyView>, NodeFieldError>(
                healthy_views(out@),
            ),
        decreases entries@.len() - i,
    {
        let entry = entries[i].as_str();
        let ghost before = out@;
        proof {
            assert(all[i as int] == entry@);
            assert(all.take(i + 1).drop_last() =~= all.take(i as int));
        }
        match remote::healthy_node(
            json::string_member(entry, "node_id"),
            json::string_member(entry, "addr"),
            json::number_member(entry, "capacity_bytes"),
            json::number_member(entry, "occupied_bytes"),
            json::string_member(entry, "relay_url"),
        ) {
            Ok(node) => {
                let ghost view = node@;
                out.push(node);
                assert(healthy_views(out@) =~= healthy_views(before).push(view));
            },
            Err(e) => {
                proof {
                    lemma_healthy_stop(all, i + 1, e);
                }
                return Err(ReplyError::Node(e));
            },
        }
        i = i + 1;
    }
    assert(all.take(i as int) =~= all);
    Ok(out)
}

/// An entry of the listing of all nodes.
pub open spec fn status_entry(entry: Seq<char>) -> Result<NodeStatusView, NodeFieldError> {
    remote::status_of(
        json::string_at(entry, "node_id"@),
        json::string_at(entry, "addr"@),
        json::string_at(entry, "status"@),
        json::string_at(entry, "relay_url"@),
    )
}

/// The entries of the listing of all nodes, or the first error among them.
pub open spec fn status_entries(entries: Seq<Seq<char>>) -> Result<
    Seq<NodeStatusView>,
    NodeFieldError,
>
    decreases entries.len(),
{
    if entries.len() == 0 {
        Ok(seq![])
    } else {
        match status_entries(entries.drop_last()) {
            Err(e) => Err(e),
            Ok(before) => match status_entry(entries.last()) {
                Err(e) => Err(e),
                Ok(node) => Ok(before.push(node)),
            },
        }
    }
}

/// The listing of all nodes.
pub open spec fn status_listing(body: Seq<char>) -> Result<Seq<NodeStatusView>, ReplyError> {
    match json::items_of(body) {
        None => Err(ReplyError::NotAnArray),
        Some(entries) => match status_entries(entries) {
            Err(e) => Err(ReplyError::Node(e)),
            Ok(nodes) => Ok(nodes),
        },
    }
}

/// The contents of some listed nodes.
pub open spec fn status_views(nodes: Seq<NodeStatusInfo>) -> Seq<NodeStatusView> {
    nodes.map_values(|n: NodeStatusInfo| n@)
}

proof fn lemma_status_stop(entries: Seq<Seq<char>>, i: int, e: NodeFieldError)
    requires
        0 <= i <= entries.len(),
        status_entries(entries.take(i)) == Err::<Seq<NodeStatusView>, NodeFieldError>(e),
    ensures
        status_entries(entries) == Err::<Seq<NodeStatusView>, NodeFieldError>(e),
    decreases entries.len() - i,
{
    if i < entries.len() {
        assert(entries.drop_last().take(i) =~= entries.take(i));
        lemma_status_stop(entries.drop_last(), i, e);
    } else {
        assert(entries.take(i) =~= entries);
    }
}

/// Reads the listing of all nodes.
pub fn read_all_nodes(body: &str) -> (r: Result<Vec<NodeStatusInfo>, ReplyError>)
    ensures
        match status_listing(body@) {
            Ok(nodes) => r is Ok && status_views(r->Ok_0@) == nodes,
            Err(e) => r == Err::<Vec<NodeStatusInfo>, ReplyError>(e),
        },
{
    let entries = match json::items(body) {
        Some(entries) => entries,
        None => {
            return Err(ReplyError::NotAnArray);
        },
    };
    let ghost all = text::texts(entries@);
    let mut out: Vec<NodeStatusInfo> = Vec::new();
    let mut i: usize = 0;
    assert(status_views(out@) =~= seq![]);
    while i < entries.len()
        invariant
            i <= entries@.len(),
            all == text::texts(entries@),
            json::items_of(body@) == Some(all),
            status_entries(all.take(i as int)) == Ok::<Seq<NodeStatusView>, NodeFieldError>(
                status_views(out@),
            ),
        decreases entries@.len() - i,
    {
        let entry = entries[i].as_str();
        let ghost before = out@;
        proof {
            assert(all[i as int] == entry@);
            assert(all.take(i + 1).drop_last() =~= all.take(i as int));
        }
        match remote::node_status(
            json::string_member(entry, "node_id"),
            json::string_member(entry, "addr"),
            json::string_member(entry, "status"),
            json::string_member(entry, "relay_url"),
        ) {
            Ok(node) => {
                let ghost view = node@;
                out.push(node);
                assert(status_views(out@) =~= status_views(before).push(view));
            },
            Err(e) => {
                proof {
                    lemma_status_stop(all, i + 1, e);
                }
                return Err(ReplyError::Node(e));
            },
        }
        i = i + 1;
    }
    assert(all.take(i as int) =~= all);
    Ok(out)
}

/// The strings among some JSON texts, in their order.
pub open spec fn strings_among(entries: Seq<Seq<char>>) -> Seq<Seq<char>>
    decreases entries.len(),
{
    if entries.len() == 0 {
        seq![]
    } else {
        match json::string_of(entries.last()) {
            Some(s) => strings_among(entries.drop_last()).push(s),
            None => strings_among(entries.drop_last()),
        }
    }
}

/// Reads which shards may be deleted: entries that are not strings of hexadecimal
/// digits are left out. There is nothing to read where the body is no array.
pub fn read_gc_candidates(body: &str) -> (r: Result<Vec<Vec<u8>>, ReplyError>)
    ensures
        match json::items_of(body@) {
            Some(entries) => r is Ok && bytes::contents(r->Ok_0@) == remote::gc_hashes(
                strings_among(entries),
            ),
            None => r == Err::<Vec<Vec<u8>>, ReplyError>(ReplyError::NotAnArray),
        },
{
    let entries = match json::items(body) {
        Some(entries) => entries,
        None => {
            return Err(ReplyError::NotAnArray);
        },
    };
    let ghost all = text::texts(entries@);
    let mut listed: Vec<String> = Vec::new();
    let mut i: usize = 0;
    assert(text::texts(listed@) =~= strings_among(all.take(0)));
    while i < entries.len()
        invariant
            i <= entries@.len(),
            all == text::texts(entries@),
            text::texts(listed@) == strings_among(all.take(i as int)),
        decreases entries@.len() - i,
    {
        let ghost before = listed@;
        proof {
            assert(all[i as int] == entries@[i as int]@);
            assert(all.take(i + 1).drop_last() =~= all.take(i as int));
        }
        if let Some(s) = json::string(entries[i].as_str()) {
            let ghost item = s@;
            listed.push(s);
            assert(text::texts(listed@) =~= text::texts(before).push(item));
        }
        i = i + 1;
    }
    assert(all.take(i as int) =~= all);
    Ok(remote::gc_reply(&listed))
}

/// Reads total and used bytes of an account; what the body does not say is zero.
pub fn read_quota(body: &str) -> (r: (u64, u64))
    ensures
        r.0 == remote::or_zero(json::number_at(body@, "total_bytes"@)),
        r.1 == remote::or_zero(json::number_at(body@, "used_bytes"@)),
{
    remote::quota_reply(
        json::number_member(body, "total_bytes"),
        json::number_member(body, "used_bytes"),
    )
}

/// A part of an array of JSON texts that is a string.
pub open spec fn string_part(parts: Seq<Seq<char>>, i: int) -> Option<Seq<char>> {
    if i < parts.len() {
        json::string_of(parts[i])
    } else {
        None
    }
}

/// An entry of the listing of all manifests: bucket, key and the manifest's bytes.
pub open spec fn manifest_entry(entry: Seq<char>) -> Result<
    (Seq<char>, Seq<char>, Seq<u8>),
    ReplyError,
> {
    let parts = match json::items_of(entry) {
        Some(parts) => parts,
        None => seq![],
    };
    match (string_part(parts, 0), string_part(parts, 1)) {
        (None, _) => Err(ReplyError::BadBucket),
        (Some(_), None) => Err(ReplyError::BadKey),
        (Some(bucket), Some(key)) => if parts.len() < 3 || json::bytes_of(parts[2]) is None {
            Err(ReplyError::BadManifestBytes)
        } else {
            Ok((bucket, key, json::bytes_of(parts[2])->0))
        },
    }
}

fn string_in(parts: &Vec<String>, i: usize) -> (r: Option<String>)
    ensures
        types::optional_text(r) == string_part(text::texts(parts@), i as int),
{
    if i < parts.len() {
        assert(text::texts(parts@)[i as int] == parts@[i as int]@);
        json::string(parts[i].as_str())
    } else {
        None
    }
}

fn read_manifest_entry(entry: &str) -> (r: Result<(String, String, Vec<u8>), ReplyError>)
    ensures
        match manifest_entry(entry@) {
            Ok(m) => r is Ok && (r->Ok_0.0@, r->Ok_0.1@, r->Ok_0.2@) == m,
            Err(e) => r == Err::<(String, String, Vec<u8>), ReplyError>(e),
        },
{
    let parts = match json::items(entry) {
        Some(parts) => parts,
        None => {
            return Err(ReplyError::BadBucket);
        },
    };
    let bucket = match string_in(&parts, 0) {
        Some(b) => b,
        None => {
            return Err(ReplyError::BadBucket);
        },
    };
    let key = match string_in(&parts, 1) {
        Some(k) => k,
        None => {
            return Err(ReplyError::BadKey);
        },
    };
    if parts.len() < 3 {
        return Err(ReplyError::BadManifestBytes);
    }
    assert(text::texts(parts@)[2] == parts@[2]@);
    match json::byte_list(parts[2].as_str()) {
        Some(manifest) => Ok((bucket, key, manifest)),
        None => Err(ReplyError::BadManifestBytes),
    }
}

/// The entries of the listing of all manifests, or the first error among them.
pub open spec fn manifest_entries(entries: Seq<Seq<char>>) -> Result<
    Seq<(Seq<char>, Seq<char>, Seq<u8>)>,
    ReplyError,
>
    decreases entries.len(),
{
    if entries.len() == 0 {
        Ok(seq![])
    } else {
        match manifest_entries(entries.drop_last()) {
            Err(e) => Err(e),
            Ok(before) => match manifest_entry(entries.last()) {
                Err(e) => Err(e),
                Ok(m) => Ok(before.push(m)),
            },
        }
    }
}

/// The contents of some entries of the listing of all manifests.
pub open spec fn manifest_views(entries: Seq<(String, String, Vec<u8>)>) -> Seq<
    (Seq<char>, Seq<char>, Seq<u8>),
> {
    entries.map_values(|m: (String, String, Vec<u8>)| (m.0@, m.1@, m.2@))
}

proof fn lemma_manifests_stop(entries: Seq<Seq<char>>, i: int, e: ReplyError)
    requires
        0 <= i <= entries.len(),
        manifest_entries(entries.take(i)) == Err::<
            Seq<(Seq<char>, Seq<char>, Seq<u8>)>,
            ReplyError,
        >(e),
    ensures
        manifest_entries(entries) == Err::<Seq<(Seq<char>, Seq<char>, Seq<u8>)>, ReplyError>(e),
    decreases entries.len() - i,
{
    if i < entries.len() {
        assert(entries.drop_last().take(i) =~= entries.take(i));
        lemma_manifests_stop(entries.drop_last(), i, e);
    } else {
        assert(entries.take(i) =~= entries);
    }
}

/// Reads the listing of all manifests.
pub fn read_all_manifests(body: &str) -> (r: Result<Vec<(String, String, Vec<u8>)>, ReplyError>)
    ensures
        match json::items_of(body@) {
            None => r == Err::<Vec<(String, String, Vec<u8>)>, ReplyError>(ReplyError::NotAnArray),
            Some(entries) => match manifest_entries(entries) {
                Ok(all) => r is Ok && manifest_views(r->Ok_0@) == all,
                Err(e) => r == Err::<Vec<(String, String, Vec<u8>)>, ReplyError>(e),
            },
        },
{
    let entries = match json::items(body) {
        Some(entries) => entries,
        None => {
            return Err(ReplyError::NotAnArray);
        },
    };
    let ghost all = text::texts(entries@);
    let mut out: Vec<(String, String, Vec<u8>)> = Vec::new();
    let mut i: usize = 0;
    assert(manifest_views(out@) =~= seq![]);
    while i < entries.len()
        invariant
            i <= entries@.len(),
            all == text::texts(entries@),
            json::items_of(body@) == Some(all),
            manifest_entries(all.take(i as int)) == Ok::<
                Seq<(Seq<char>, Seq<char>, Seq<u8>)>,
                ReplyError,
            >(manifest_views(out@)),
        decreases entries@.len() - i,
    {
        let ghost before = out@;
        proof {
            assert(all[i as int] == entries@[i as int]@);
            assert(all.take(i + 1).drop_last() =~= all.take(i as int));
        }
        match read_manifest_entry(entries[i].as_str()) {
            Ok(m) => {
                let ghost view = (m.0@, m.1@, m.2@);
                out.push(m);
                assert(manifest_views(out@) =~= manifest_views(before).push(view));
            },
            Err(e) => {
                proof {
                    lemma_manifests_stop(all, i + 1, e);
                }
                return Err(e);
            },
        }
        i = i + 1;
    }
    assert(all.take(i as int) =~= all);
    Ok(out)
}

/// What the index keeps of an object: the bytes of its manifest and their signature.
#[derive(Debug, PartialEq, Eq)]
pub struct StoredManifest {
    pub manifest_bytes: Vec<u8>,
    pub signature: Vec<u8>,
}

/// Reads what the index keeps of an object.
pub fn read_stored_manifest(body: &str) -> (r: Result<StoredManifest, ReplyError>)
    ensures
        match (json::bytes_at(body@, "manifest_bytes"@), json::bytes_at(body@, "signature"@)) {
            (None, _) => r == Err::<StoredManifest, ReplyError>(ReplyError::BadManifestBytes),
            (Some(_), None) => r == Err::<StoredManifest, ReplyError>(ReplyError::BadSignature),
            (Some(m), Some(s)) => r is Ok && r->Ok_0.manifest_bytes@ == m && r->Ok_0.signature@ == s,
        },
{
    let manifest_bytes = match json::bytes_member(body, "manifest_bytes") {
        Some(m) => m,
        None => {
            return Err(ReplyError::BadManifestBytes);
        },
    };
    let signature = match json::bytes_member(body, "signature") {
        Some(s) => s,
        None => {
            return Err(ReplyError::BadSignature);
        },
    };
    Ok(StoredManifest { manifest_bytes, signature })
}

} // verus!
