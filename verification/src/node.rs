//! The nodes of a network and the cluster that index nodes form.
use vstd::prelude::*;

use crate::bytes;
use crate::codec;
use crate::identity;
use crate::identity::NodeIdentity;
use crate::keys;
use crate::table::{Key, Row, Table};
use crate::text;

verus! {

/// Seed addresses of an index cluster.
#[derive(Debug, Default, Clone, PartialEq, Eq)]
pub struct BootstrapConfig {
    pub peer_addresses: Vec<String>,
}

/// What a node runs as.
pub enum NodeMode {
    /// A member of the index cluster, at the given HTTP address.
    Index { bootstrap: BootstrapConfig, http_addr: String },
    /// A storage node.
    Storage {
        base_dir: String,
        private_relay_url: Option<String>,
        index_addrs: Vec<String>,
        addr: String,
        advertise_addr: Option<String>,
        capacity_bytes: u64,
    },
}

/// How the other members of a cluster reach an index node.
#[derive(Debug, Clone, PartialEq, Eq)]
pub struct RaftParams {
    pub rpc_url: String,
    pub bind_addr: String,
    pub http_addr: String,
}

/// The kind of a node.
#[derive(Debug, Clone, PartialEq, Eq)]
pub enum ArkelNodeType {
    Index(RaftParams),
    Storage,
}

/// A node of either kind.
#[derive(Debug, Clone, PartialEq, Eq)]
pub struct ArkelNode {
    pub id: u64,
    pub node_type: ArkelNodeType,
}

/// A member of an index cluster.
#[derive(Debug, Clone, PartialEq, Eq)]
pub struct ArkelIndexNode {
    pub id: u64,
    pub params: RaftParams,
    pub bootstrap: BootstrapConfig,
}

/// The contents of a cluster member.
pub struct MemberView {
    pub id: u64,
    pub rpc_url: Seq<char>,
    pub bind_addr: Seq<char>,
    pub http_addr: Seq<char>,
    pub peer_addresses: Seq<Seq<char>>,
}

impl View for ArkelIndexNode {
    type V = MemberView;

    open spec fn view(&self) -> MemberView {
        MemberView {
            id: self.id,
            rpc_url: self.params.rpc_url@,
            bind_addr: self.params.bind_addr@,
            http_addr: self.params.http_addr@,
            peer_addresses: text::texts(self.bootstrap.peer_addresses@),
        }
    }
}

impl Row for ArkelIndexNode {
    fn copied(&self) -> (r: Self) {
        ArkelIndexNode {
            id: self.id,
            params: RaftParams {
                rpc_url: self.params.rpc_url.clone(),
                bind_addr: self.params.bind_addr.clone(),
                http_addr: self.params.http_addr.clone(),
            },
            bootstrap: BootstrapConfig {
                peer_addresses: copy_texts(&self.bootstrap.peer_addresses),
            },
        }
    }
}

fn copy_texts(v: &Vec<String>) -> (r: Vec<String>)
    ensures
        text::texts(r@) == text::texts(v@),
{
    let mut out: Vec<String> = Vec::new();
    let mut i: usize = 0;
    while i < v.len()
        invariant
            i <= v@.len(),
            out@.len() == i,
            forall|j: int| 0 <= j < i ==> (#[trigger] out@[j])@ == v@[j]@,
        decreases v@.len() - i,
    {
        out.push(v[i].clone());
        i = i + 1;
    }
    assert(text::texts(out@) =~= text::texts(v@));
    out
}

/// Whether a node is the one that runs in a mode under a public key.
pub open spec fn runs_as(node: ArkelNode, pubkey: Seq<u8>, mode: NodeMode) -> bool {
    node.id == identity::raft_id(pubkey) && match mode {
        NodeMode::Index { http_addr, .. } => node.node_type is Index && {
            let p = node.node_type->Index_0;
            &&& p.rpc_url@ == "http://"@ + http_addr@
            &&& p.bind_addr@ == codec::hex_text(pubkey) + "@"@ + http_addr@
            &&& p.http_addr@ == http_addr@
        },
        NodeMode::Storage { .. } => node.node_type is Storage,
    }
}

impl ArkelNode {
    /// The node that runs here under a public key.
    pub fn from_local(pubkey: &[u8; 32], mode: &NodeMode) -> (r: Self)
        requires
            keys::valid_key(pubkey@),
        ensures
            runs_as(r, pubkey@, *mode),
    {
        let id: u64 = identity::raft_node_id_from_pubkey(pubkey);
        let node_type = match mode {
            NodeMode::Index { http_addr, .. } => ArkelNodeType::Index(
                RaftParams {
                    rpc_url: text::join2("http://", http_addr.as_str()),
                    bind_addr: text::join3(
                        keys::key_text(pubkey).as_str(),
                        "@",
                        http_addr.as_str(),
                    ),
                    http_addr: http_addr.clone(),
                },
            ),
            NodeMode::Storage { .. } => ArkelNodeType::Storage,
        };
        ArkelNode { id, node_type }
    }

    /// The node that runs here with an identity.
    pub fn with_identity(identity: &NodeIdentity, mode: &NodeMode) -> (r: Self)
        ensures
            runs_as(r, keys::public_of(identity.secret()), *mode),
    {
        ArkelNode::from_local(&identity.node_id(), mode)
    }
}

/// The part of a full address that names the host: what stands behind the first `@`,
/// or all of it.
pub open spec fn host_part(addr: Seq<char>) -> Seq<char> {
    match text::split_once(addr, '@') {
        Some((_, host)) => host,
        None => addr,
    }
}

/// The host of a full address.
pub fn peer_host(addr: &str) -> (r: String)
    ensures
        r@ == host_part(addr@),
{
    match text::split_at_char(addr, '@') {
        Some((_, host)) => host,
        None => text::owned(addr),
    }
}

/// The URL of a peer with the given full address.
pub fn peer_url_from_addr(addr: &str) -> (r: String)
    ensures
        r@ == "http://"@ + host_part(addr@),
{
    text::join2("http://", peer_host(addr).as_str())
}

/// The member that a seed address describes.
pub open spec fn member_of(peer: Seq<char>, http_addr: Seq<char>) -> MemberView {
    MemberView {
        id: identity::raft_id_of_addr(peer) as u64,
        rpc_url: "http://"@ + host_part(peer),
        bind_addr: peer,
        http_addr,
        peer_addresses: seq![],
    }
}

/// The member that a seed address describes. `http_addr` is its host as a socket
/// address.
pub fn peer_member(peer: &str, http_addr: &str) -> (r: ArkelIndexNode)
    ensures
        r@ == member_of(peer@, http_addr@),
{
    let r = ArkelIndexNode {
        id: identity::raft_node_id_from_addr(peer),
        params: RaftParams {
            rpc_url: peer_url_from_addr(peer),
            bind_addr: text::owned(peer),
            http_addr: text::owned(http_addr),
        },
        bootstrap: BootstrapConfig { peer_addresses: Vec::new() },
    };
    assert(r@.peer_addresses =~= seq![]);
    r
}

impl Key for u64 {
    fn same(&self, other: &Self) -> (r: bool) {
        *self == *other
    }

    fn copied(&self) -> (r: Self) {
        *self
    }
}

/// The members of a cluster by their numbers: of several with one number the last.
pub open spec fn members_of(nodes: Seq<MemberView>) -> Map<u64, MemberView>
    decreases nodes.len(),
{
    if nodes.len() == 0 {
        Map::empty()
    } else {
        members_of(nodes.drop_last()).insert(nodes.last().id, nodes.last())
    }
}

/// The contents of some members.
pub open spec fn member_views(nodes: Seq<ArkelIndexNode>) -> Seq<MemberView> {
    nodes.map_values(|n: ArkelIndexNode| n@)
}

/// Who is in a cluster at its start, and whether this node is to set it up.
pub struct Bootstrap {
    pub members: Vec<(u64, ArkelIndexNode)>,
    pub initialize: bool,
}

/// Forms the cluster of this node and its peers. The node with the lowest number
/// sets it up.
pub fn initial_members(me: &ArkelIndexNode, peers: &Vec<ArkelIndexNode>) -> (r: Bootstrap)
    ensures
        crate::table::distinct(r.members@),
        crate::table::map_of(r.members@) == members_of(member_views(peers@).push(me@)),
        r.initialize <==> forall|i: int| 0 <= i < peers@.len() ==> me.id <= (#[trigger] peers@[i]).id,
{
    let ghost all = member_views(peers@);
    let mut members: Table<u64, ArkelIndexNode> = Table::new();
    let mut initialize = true;
    let mut i: usize = 0;
    assert(all.take(0) =~= Seq::<MemberView>::empty());
    while i < peers.len()
        invariant
            i <= peers@.len(),
            all == member_views(peers@),
            members.wf(),
            members@ == members_of(all.take(i as int)),
            initialize <==> forall|j: int| 0 <= j < i ==> me.id <= (#[trigger] peers@[j]).id,
        decreases peers@.len() - i,
    {
        members.put(peers[i].id, peers[i].copied());
        proof {
            assert(all.take(i + 1).drop_last() =~= all.take(i as int));
            assert(all.take(i + 1).last() == peers@[i as int]@);
        }
        if peers[i].id < me.id {
            initialize = false;
        }
        i = i + 1;
    }
    assert(all.take(i as int) =~= all);
    members.put(me.id, me.copied());
    proof {
        assert(all.push(me@).drop_last() =~= all);
    }
    Bootstrap { members: members.to_rows(), initialize }
}

/// This node is always a member, under its own description.
pub proof fn local_node_is_member(me: MemberView, peers: Seq<MemberView>)
    ensures
        members_of(peers.push(me)).dom().contains(me.id),
        members_of(peers.push(me))[me.id] == me,
{
    assert(peers.push(me).drop_last() =~= peers);
}

/// Of nodes with different numbers that know each other, just one sets the cluster
/// up.
pub proof fn one_node_initializes(ids: Seq<u64>, a: int, b: int)
    requires
        ids.no_duplicates(),
        0 <= a < ids.len(),
        0 <= b < ids.len(),
        forall|i: int| 0 <= i < ids.len() ==> ids[a] <= #[trigger] ids[i],
        forall|i: int| 0 <= i < ids.len() ==> ids[b] <= #[trigger] ids[i],
    ensures
        a == b,
{
    assert(ids[a] <= ids[b]);
    assert(ids[b] <= ids[a]);
}

/// How far a node may lag behind the log before it counts as stale.
pub const LAG_THRESHOLD: u64 = 50;

/// Whether a node that was last seen at a log index is stale.
pub open spec fn is_stale(current: u64, last_seen: u64) -> bool {
    current - last_seen > LAG_THRESHOLD
}

/// The identifiers of some rows.
pub open spec fn lag_ids(lags: Seq<(Vec<u8>, u64)>) -> Seq<Seq<u8>> {
    lags.map_values(|l: (Vec<u8>, u64)| l.0@)
}

/// The nodes that are stale at a log index, in the order given.
pub fn stale_nodes(lags: &Vec<(Vec<u8>, u64)>, current: u64) -> (r: Vec<Vec<u8>>)
    ensures
        bytes::contents(r@) == lag_ids(
            lags@.filter(|l: (Vec<u8>, u64)| is_stale(current, l.1)),
        ),
{
    let ghost pred = |l: (Vec<u8>, u64)| is_stale(current, l.1);
    let mut out: Vec<Vec<u8>> = Vec::new();
    let mut i: usize = 0;
    assert(lags@.take(0).filter(pred) =~= Seq::<(Vec<u8>, u64)>::empty());
    assert(bytes::contents(out@) =~= lag_ids(lags@.take(0).filter(pred)));
    while i < lags.len()
        invariant
            i <= lags@.len(),
            pred == (|l: (Vec<u8>, u64)| is_stale(current, l.1)),
            bytes::contents(out@) == lag_ids(lags@.take(i as int).filter(pred)),
        decreases lags@.len() - i,
    {
        let ghost before = out@;
        proof {
            assert(lags@.take(i + 1) =~= lags@.take(i as int).push(lags@[i as int]));
            lags@.take(i as int).lemma_filter_push(lags@[i as int], pred);
        }
        let last: u64 = lags[i].1;
        if current.saturating_sub(last) > LAG_THRESHOLD {
            out.push(bytes::to_vec(lags[i].0.as_slice()));
            assert(bytes::contents(out@) =~= bytes::contents(before).push(lags@[i as int].0@));
        }
        assert(bytes::contents(out@) =~= lag_ids(lags@.take(i + 1).filter(pred)));
        i = i + 1;
    }
    assert(lags@.take(i as int) =~= lags@);
    out
}

/// The peers other than this node itself.
pub fn other_peers(peers: &Vec<String>, own_addr: &str) -> (r: Vec<String>)
    ensures
        text::texts(r@) == text::texts(peers@).filter(|p: Seq<char>| p != own_addr@),
{
    let ghost pred = |p: Seq<char>| p != own_addr@;
    let ghost all = text::texts(peers@);
    let mut out: Vec<String> = Vec::new();
    let mut i: usize = 0;
    assert(all.take(0).filter(pred) =~= Seq::<Seq<char>>::empty());
    assert(text::texts(out@) =~= Seq::<Seq<char>>::empty());
    while i < peers.len()
        invariant
            i <= peers@.len(),
            all == text::texts(peers@),
            pred == (|p: Seq<char>| p != own_addr@),
            text::texts(out@) == all.take(i as int).filter(pred),
        decreases peers@.len() - i,
    {
        let ghost before = out@;
        proof {
            assert(all.take(i + 1) =~= all.take(i as int).push(all[i as int]));
            all.take(i as int).lemma_filter_push(all[i as int], pred);
        }
        if !text::same_text(peers[i].as_str(), own_addr) {
            out.push(peers[i].clone());
            assert(text::texts(out@) =~= text::texts(before).push(peers@[i as int]@));
        }
        i = i + 1;
    }
    assert(all.take(i as int) =~= all);
    out
}

} // verus!
