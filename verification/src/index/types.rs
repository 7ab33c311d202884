//! Commands of the replicated log, their answers, and the registry's rows.
use vstd::prelude::*;
use vstd::string::StringExecFns;

use crate::bytes;
use crate::codec;
use crate::table::Row;
use crate::text;

verus! {

/// What identifies a member of the consensus group.
pub type NodeId = u64;

/// System modifications committed to the replicated log.
///
/// Whatever a command changes is determined by what it carries, so that every
/// replica computes the same state. For a manifest it carries, beside the bytes and
/// their signature, the blob hashes of the shards that the bytes list (`None` where
/// the bytes do not decode) and the time of the commit.
#[derive(Debug)]
pub enum IndexNodeRequest {
    CreateBucket { name: String, created_at: u64, owner: Vec<u8> },
    DeleteBucket { name: String, caller: Vec<u8> },
    CommitManifest {
        bucket: String,
        key: String,
        object_hash: Vec<u8>,
        manifest_bytes: Vec<u8>,
        signature: Vec<u8>,
        blobs: Option<Vec<Vec<u8>>>,
        created_at: u64,
        caller: Vec<u8>,
    },
    DeleteManifest { bucket: String, key: String, caller: Vec<u8> },
    SetRepairOperator { caller: Vec<u8> },
    RepairManifest {
        bucket: String,
        key: String,
        object_hash: Vec<u8>,
        manifest_bytes: Vec<u8>,
        signature: Vec<u8>,
        blobs: Option<Vec<Vec<u8>>>,
        created_at: u64,
        caller: Vec<u8>,
    },
    Batch(Vec<IndexNodeRequest>),
    RegisterNode {
        node_id: Vec<u8>,
        capacity_bytes: u64,
        addr: String,
        relay_url: Option<String>,
    },
    MarkNodesOffline { node_ids: Vec<Vec<u8>> },
}

/// The abbreviated identifiers of some nodes, as a listing shows them.
pub open spec fn short_ids(ids: Seq<Seq<u8>>) -> Seq<char> {
    text::joined(ids.map_values(|id: Seq<u8>| short_id(id)), ", "@)
}

/// The first sixteen hexadecimal digits of an identifier.
pub open spec fn short_id(id: Seq<u8>) -> Seq<char> {
    if codec::hex_text(id).len() > 16 {
        codec::hex_text(id).take(16)
    } else {
        codec::hex_text(id)
    }
}

impl IndexNodeRequest {
    /// One line that says what the command is, for logs.
    pub open spec fn summary(&self) -> Seq<char> {
        match *self {
            IndexNodeRequest::CreateBucket { name, created_at, .. } => "CreateBucket("@ + name@
                + ", "@ + text::decimal(created_at as nat) + ")"@,
            IndexNodeRequest::DeleteBucket { name, .. } => "DeleteBucket("@ + name@ + ")"@,
            IndexNodeRequest::CommitManifest { object_hash, .. } => "CommitManifest("@
                + codec::hex_text(object_hash@) + ")"@,
            IndexNodeRequest::DeleteManifest { bucket, key, .. } => "DeleteManifest("@ + bucket@
                + ", "@ + key@ + ")"@,
            IndexNodeRequest::SetRepairOperator { .. } => "SetRepairOperator"@,
            IndexNodeRequest::RepairManifest { object_hash, .. } => "RepairManifest("@
                + codec::hex_text(object_hash@) + ")"@,
            IndexNodeRequest::Batch(entries) => "Batch("@ + text::decimal(entries@.len())
                + " entries)"@,
            IndexNodeRequest::RegisterNode { node_id, .. } => "RegisterNode("@ + codec::hex_text(
                node_id@,
            ) + ")"@,
            IndexNodeRequest::MarkNodesOffline { node_ids } => "MarkNodesOffline("@ + short_ids(
                bytes::contents(node_ids@),
            ) + ")"@,
        }
    }

    /// One line that says what the command is, for logs.
    pub fn describe(&self) -> (r: String)
        ensures
            r@ == self.summary(),
    {
        match self {
            IndexNodeRequest::CreateBucket { name, created_at, .. } => {
                let mut out = text::join3("CreateBucket(", name.as_str(), ", ");
                out.append(text::decimal_of(*created_at).as_str());
                out.append(")");
                out
            },
            IndexNodeRequest::DeleteBucket { name, .. } => text::join3(
                "DeleteBucket(",
                name.as_str(),
                ")",
            ),
            IndexNodeRequest::CommitManifest { object_hash, .. } => text::join3(
                "CommitManifest(",
                codec::hex_encode(object_hash.as_slice()).as_str(),
                ")",
            ),
            IndexNodeRequest::DeleteManifest { bucket, key, .. } => {
                let mut out = text::join3("DeleteManifest(", bucket.as_str(), ", ");
                out.append(key.as_str());
                out.append(")");
                out
            },
            IndexNodeRequest::SetRepairOperator { .. } => text::owned("SetRepairOperator"),
            IndexNodeRequest::RepairManifest { object_hash, .. } => text::join3(
                "RepairManifest(",
                codec::hex_encode(object_hash.as_slice()).as_str(),
                ")",
            ),
            IndexNodeRequest::Batch(entries) => text::join3(
                "Batch(",
                text::decimal_of(entries.len() as u64).as_str(),
                " entries)",
            ),
            IndexNodeRequest::RegisterNode { node_id, .. } => text::join3(
                "RegisterNode(",
                codec::hex_encode(node_id.as_slice()).as_str(),
                ")",
            ),
            IndexNodeRequest::MarkNodesOffline { node_ids } => text::join3(
                "MarkNodesOffline(",
                list_short(node_ids).as_str(),
                ")",
            ),
        }
    }
}

fn shorten(id: &Vec<u8>) -> (r: String)
    ensures
        r@ == short_id(id@),
{
    let full = codec::hex_encode(id.as_slice());
    let digits = text::chars_of(full.as_str());
    if digits.len() > 16 {
        let r = text::string_of(&digits, 0, 16);
        assert(r@ =~= codec::hex_text(id@).take(16));
        r
    } else {
        full
    }
}

fn list_short(ids: &Vec<Vec<u8>>) -> (r: String)
    ensures
        r@ == short_ids(bytes::contents(ids@)),
{
    let mut parts: Vec<String> = Vec::new();
    let mut i: usize = 0;
    while i < ids.len()
        invariant
            i <= ids@.len(),
            parts@.len() == i,
            forall|j: int| 0 <= j < i ==> (#[trigger] parts@[j])@ == short_id(ids@[j]@),
        decreases ids@.len() - i,
    {
        parts.push(shorten(&ids[i]));
        i = i + 1;
    }
    proof {
        let all = bytes::contents(ids@).map_values(|id: Seq<u8>| short_id(id));
        assert(parts@.map_values(|s: String| s@) =~= all);
    }
    text::join(&parts, ", ")
}

/// What the state machine answers to a command.
pub enum Answer {
    Done,
    Refused(Seq<char>),
    Each(Seq<Answer>),
}

/// The response confirmation sent back to the control API.
#[derive(Debug, PartialEq, Eq)]
pub struct IndexNodeResponse {
    pub success: bool,
    pub error: Option<String>,
    pub batch_responses: Option<Vec<IndexNodeResponse>>,
}

impl IndexNodeResponse {
    /// Whether the response conveys the given answer.
    pub open spec fn says(&self, a: Answer) -> bool
        decreases a,
    {
        match a {
            Answer::Done => self.success && self.error is None && self.batch_responses is None,
            Answer::Refused(why) => !self.success && self.error is Some && self.error->0@ == why
                && self.batch_responses is None,
            Answer::Each(each) => self.success && self.error is None && self.batch_responses is Some
                && self.batch_responses->0@.len() == each.len() && forall|i: int|
                0 <= i < each.len() ==> (#[trigger] self.batch_responses->0@[i]).says(each[i]),
        }
    }

    /// The command was carried out.
    pub fn ok() -> (r: Self)
        ensures
            r.says(Answer::Done),
            r == (IndexNodeResponse { success: true, error: None, batch_responses: None }),
    {
        IndexNodeResponse { success: true, error: None, batch_responses: None }
    }

    /// The command was refused for the given reason.
    pub fn err(s: &str) -> (r: Self)
        ensures
            r.says(Answer::Refused(s@)),
            !r.success,
            r.error is Some && r.error->0@ == s@,
            r.batch_responses is None,
    {
        IndexNodeResponse { success: false, error: Some(text::owned(s)), batch_responses: None }
    }

    /// The answers to the commands of a batch, in their order.
    pub fn batch(responses: Vec<IndexNodeResponse>) -> (r: Self)
        ensures
            r == (IndexNodeResponse {
                success: true,
                error: None,
                batch_responses: Some(responses),
            }),
    {
        IndexNodeResponse { success: true, error: None, batch_responses: Some(responses) }
    }
}

/// Whether a storage node takes part in placements.
#[derive(Debug, Clone, Copy, PartialEq, Eq, Structural)]
pub enum NodeStatus {
    Online,
    Offline,
}

/// What the registry knows of a storage node.
#[derive(Debug, Clone, PartialEq, Eq)]
pub struct NodeStats {
    pub node_id: Vec<u8>,
    pub capacity_bytes: u64,
    pub addr: String,
    pub relay_url: Option<String>,
    /// Log index of the last heartbeat.
    pub last_seen: u64,
    pub status: NodeStatus,
}

/// The contents of a registry row.
pub struct NodeView {
    pub node_id: Seq<u8>,
    pub capacity_bytes: u64,
    pub addr: Seq<char>,
    pub relay_url: Option<Seq<char>>,
    pub last_seen: u64,
    pub status: NodeStatus,
}

/// The contents of an optional string.
pub open spec fn optional_text(s: Option<String>) -> Option<Seq<char>> {
    match s {
        Some(t) => Some(t@),
        None => None,
    }
}

/// A copy of an optional string.
pub fn copy_optional(s: &Option<String>) -> (r: Option<String>)
    ensures
        optional_text(r) == optional_text(*s),
{
    match s {
        Some(t) => Some(t.clone()),
        None => None,
    }
}

impl View for NodeStats {
    type V = NodeView;

    open spec fn view(&self) -> NodeView {
        NodeView {
            node_id: self.node_id@,
            capacity_bytes: self.capacity_bytes,
            addr: self.addr@,
            relay_url: optional_text(self.relay_url),
            last_seen: self.last_seen,
            status: self.status,
        }
    }
}

impl Row for NodeStats {
    fn copied(&self) -> (r: Self) {
        NodeStats {
            node_id: bytes::to_vec(self.node_id.as_slice()),
            capacity_bytes: self.capacity_bytes,
            addr: self.addr.clone(),
            relay_url: copy_optional(&self.relay_url),
            last_seen: self.last_seen,
            status: self.status,
        }
    }
}

} // verus!
