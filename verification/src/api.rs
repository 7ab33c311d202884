//! The index's HTTP API: batching of writes, listings, and the requests that
//! handlers build.
use vstd::prelude::*;

use crate::bytes;
use crate::codec;
use crate::index::machine;
use crate::index::model;
use crate::index::model::Index;
use crate::index::remote;
use crate::index::types;
use crate::index::types::{
    Answer, IndexNodeRequest, IndexNodeResponse, NodeStats, NodeStatus,
};
use crate::order;
use crate::text;

verus! {

/// Collects writes so that they go through consensus together. `S` is what an answer
/// is sent back through.
pub struct BatchCollector<S> {
    entries: Vec<(IndexNodeRequest, S)>,
    max_entries: usize,
    max_delay_ms: u64,
}

/// What a collector that is asked for a batch is told of.
#[derive(Debug, Clone, Copy, PartialEq, Eq, Structural)]
pub enum TakeEvent {
    /// The asking itself.
    Asked,
    /// A write came in while waiting.
    Notified,
    /// The longest delay is over.
    Elapsed,
}

impl<S> BatchCollector<S> {
    /// The writes that wait, in the order they came.
    pub closed spec fn waiting(&self) -> Seq<(IndexNodeRequest, S)> {
        self.entries@
    }

    /// How many writes make a batch full.
    pub closed spec fn capacity(&self) -> usize {
        self.max_entries
    }

    /// How long, in milliseconds, a write waits for others.
    pub closed spec fn delay(&self) -> u64 {
        self.max_delay_ms
    }

    /// An empty collector.
    pub fn new(max_entries: usize, max_delay_ms: u64) -> (r: Self)
        ensures
            r.waiting() == Seq::<(IndexNodeRequest, S)>::empty(),
            r.capacity() == max_entries,
            r.delay() == max_delay_ms,
    {
        BatchCollector { entries: Vec::new(), max_entries, max_delay_ms }
    }

    /// How long, in milliseconds, a write waits for others.
    pub fn max_delay_ms(&self) -> (r: u64)
        ensures
            r == self.delay(),
    {
        self.max_delay_ms
    }

    /// Adds a write.
    pub fn enqueue(&mut self, req: IndexNodeRequest, reply: S)
        ensures
            final(self).waiting() == old(self).waiting().push((req, reply)),
            final(self).capacity() == old(self).capacity(),
            final(self).delay() == old(self).delay(),
    {
        self.entries.push((req, reply));
    }

    /// Whether a batch is due at an event: at once where something waits, else when
    /// a full batch has come in or the delay is over.
    pub open spec fn due(&self, event: TakeEvent) -> bool {
        match event {
            TakeEvent::Asked => self.waiting().len() > 0,
            TakeEvent::Notified => self.waiting().len() >= self.capacity(),
            TakeEvent::Elapsed => true,
        }
    }

    /// Takes all that waits where a batch is due at the event.
    pub fn take_batch(&mut self, event: TakeEvent) -> (r: Option<Vec<(IndexNodeRequest, S)>>)
        ensures
            final(self).capacity() == old(self).capacity(),
            final(self).delay() == old(self).delay(),
            r is Some <==> old(self).due(event),
            r is Some ==> r->0@ == old(self).waiting() && final(self).waiting() == Seq::<
                (IndexNodeRequest, S),
            >::empty(),
            r is None ==> final(self).waiting() == old(self).waiting(),
    {
        let due = match event {
            TakeEvent::Asked => self.entries.len() > 0,
            TakeEvent::Notified => self.entries.len() >= self.max_entries,
            TakeEvent::Elapsed => true,
        };
        if !due {
            return None;
        }
        let mut batch: Vec<(IndexNodeRequest, S)> = Vec::new();
        std::mem::swap(&mut batch, &mut self.entries);
        Some(batch)
    }
}

/// The requests of a batch.
pub open spec fn requests_of<S>(batch: Seq<(IndexNodeRequest, S)>) -> Seq<IndexNodeRequest> {
    batch.map_values(|e: (IndexNodeRequest, S)| e.0)
}

/// The ways back of a batch.
pub open spec fn senders_of<S>(batch: Seq<(IndexNodeRequest, S)>) -> Seq<S> {
    batch.map_values(|e: (IndexNodeRequest, S)| e.1)
}

/// Makes one command of a batch.
pub fn batch_command<S>(batch: Vec<(IndexNodeRequest, S)>) -> (r: (IndexNodeRequest, Vec<S>))
    ensures
        r.0 is Batch,
        r.0->Batch_0@ == requests_of(batch@),
        r.1@ == senders_of(batch@),
{
    let ghost all = batch@;
    let mut requests: Vec<IndexNodeRequest> = Vec::new();
    let mut senders: Vec<S> = Vec::new();
    for entry in it: batch
        invariant
            it.seq() == all,
            requests@ =~= requests_of(all).take(it.index()),
            senders@ =~= senders_of(all).take(it.index()),
    {
        requests.push(entry.0);
        senders.push(entry.1);
    }
    (IndexNodeRequest::Batch(requests), senders)
}

/// What came of a batch that was put to consensus.
pub enum BatchOutcome {
    /// The answer of the state machine.
    Applied(IndexNodeResponse),
    /// Consensus failed, for the given reason.
    Failed(String),
}

/// Hands the answers out: to each sender the one in its place; success to all where
/// the answer does not list any; the failure to all where there is no answer.
pub fn deliver<S>(senders: Vec<S>, outcome: BatchOutcome) -> (r: Vec<(S, IndexNodeResponse)>)
    ensures
        forall|i: int| 0 <= i < r@.len() ==> (#[trigger] r@[i]).0 == senders@[i],
        match outcome {
            BatchOutcome::Applied(response) => match response.batch_responses {
                Some(each) => r@.len() == (if each@.len() < senders@.len() {
                    each@.len()
                } else {
                    senders@.len()
                }) && forall|i: int| 0 <= i < r@.len() ==> (#[trigger] r@[i]).1 == each@[i],
                None => r@.len() == senders@.len() && forall|i: int|
                    0 <= i < r@.len() ==> (#[trigger] r@[i]).1.says(Answer::Done),
            },
            BatchOutcome::Failed(why) => r@.len() == senders@.len() && forall|i: int|
                0 <= i < r@.len() ==> (#[trigger] r@[i]).1.says(
                    Answer::Refused("raft batch error: "@ + why@),
                ),
        },
{
    let ghost all = senders@;
    let mut out: Vec<(S, IndexNodeResponse)> = Vec::new();
    match outcome {
        BatchOutcome::Applied(response) => match response.batch_responses {
            Some(each) => {
                let ghost answers = each@;
                let n: usize = each.len();
                let mut each = each;
                let mut i: usize = 0;
                for sender in it: senders
                    invariant
                        it.seq() == all,
                        i <= it.index(),
                        i <= n,
                        n == answers.len(),
                        i < n ==> i == it.index(),
                        each@ == answers.skip(i as int),
                        out@.len() == i,
                        i == (if it.index() < n {
                            it.index()
                        } else {
                            n as int
                        }),
                        forall|j: int|
                            0 <= j < i ==> (#[trigger] out@[j]).0 == all[j] && out@[j].1
                                == answers[j],
                {
                    if i < n {
                        let response = each.remove(0);
                        assert(each@ =~= answers.skip(i + 1));
                        out.push((sender, response));
                        i = i + 1;
                    }
                }
            },
            None => {
                for sender in it: senders
                    invariant
                        it.seq() == all,
                        out@.len() == it.index(),
                        forall|j: int|
                            0 <= j < it.index() ==> (#[trigger] out@[j]).0 == all[j]
                                && out@[j].1.says(Answer::Done),
                {
                    out.push((sender, IndexNodeResponse::ok()));
                }
            },
        },
        BatchOutcome::Failed(why) => {
            let message = text::join2("raft batch error: ", why.as_str());
            for sender in it: senders
                invariant
                    it.seq() == all,
                    message@ == "raft batch error: "@ + why@,
                    out@.len() == it.index(),
                    forall|j: int|
                        0 <= j < it.index() ==> (#[trigger] out@[j]).0 == all[j]
                            && out@[j].1.says(Answer::Refused(message@)),
            {
                out.push((sender, IndexNodeResponse::err(message.as_str())));
            }
        },
    }
    out
}

proof fn lemma_one_answer_each(s: Index, cmds: Seq<IndexNodeRequest>, log_index: u64)
    requires
        model::outcomes(s, cmds, log_index) is Ok,
    ensures
        model::outcomes(s, cmds, log_index)->Ok_0.1.len() == cmds.len(),
    decreases cmds.len(),
{
    if cmds.len() > 0 {
        lemma_one_answer_each(s, cmds.drop_last(), log_index);
    }
}

/// Whoever put a write into a batch gets the answer to that write: the answers to a
/// batch are as many as its writes, in their order, and each is delivered in its
/// place.
pub proof fn everyone_gets_their_answer<S>(
    s: Index,
    batch: Seq<(IndexNodeRequest, S)>,
    cmd: IndexNodeRequest,
    log_index: u64,
    response: IndexNodeResponse,
    delivered: Seq<(S, IndexNodeResponse)>,
    i: int,
)
    requires
        cmd is Batch,
        cmd->Batch_0@ == requests_of(batch),
        model::outcome(s, cmd, log_index) is Ok,
        response.says(model::outcome(s, cmd, log_index)->Ok_0.1),
        response.batch_responses is Some,
        delivered.len() == (if response.batch_responses->0@.len() < batch.len() {
            response.batch_responses->0@.len()
        } else {
            batch.len()
        }),
        forall|j: int|
            0 <= j < delivered.len() ==> (#[trigger] delivered[j]).0 == senders_of(batch)[j]
                && delivered[j].1 == response.batch_responses->0@[j],
        0 <= i < batch.len(),
    ensures
        delivered.len() == batch.len(),
        delivered[i].0 == batch[i].1,
        delivered[i].1.says(
            model::outcomes(s, requests_of(batch), log_index)->Ok_0.1[i],
        ),
{
    lemma_one_answer_each(s, requests_of(batch), log_index);
}

/// An object in a listing.
#[derive(Debug, Clone, PartialEq, Eq)]
pub struct ListedObject {
    pub key: String,
    pub last_modified: u64,
    pub etag: String,
    pub size: u64,
}

/// A listing of the objects in a bucket.
#[derive(Debug, Clone, PartialEq, Eq)]
pub struct ListObjectsResponse {
    pub bucket: String,
    pub prefix: String,
    pub max_keys: usize,
    pub truncated: bool,
    pub contents: Vec<ListedObject>,
}

/// How many keys a listing holds where nothing else is asked for.
pub const DEFAULT_MAX_KEYS: usize = 1000;

/// The number of keys that the parameters `max-keys` and, where that is not given,
/// `max_keys` ask for.
pub fn max_keys(dashed: Option<&str>, underscored: Option<&str>) -> (r: usize)
    ensures
        r == ({
            let given = if dashed is Some {
                dashed
            } else {
                underscored
            };
            match given {
                Some(s) => match text::parsed(s@, usize::MAX as nat) {
                    Some(n) => n as usize,
                    None => DEFAULT_MAX_KEYS,
                },
                None => DEFAULT_MAX_KEYS,
            }
        }),
{
    let given = match dashed {
        Some(s) => Some(s),
        None => underscored,
    };
    match given {
        Some(s) => match text::parse_decimal(s, usize::MAX as u64) {
            Some(n) => n as usize,
            None => DEFAULT_MAX_KEYS,
        },
        None => DEFAULT_MAX_KEYS,
    }
}

/// The keys of a listing.
pub open spec fn listed_keys(contents: Seq<ListedObject>) -> Seq<Seq<char>> {
    contents.map_values(|o: ListedObject| o.key@)
}

/// The keys that begin with a prefix.
pub open spec fn with_prefix(keys: Seq<Seq<char>>, prefix: Seq<char>) -> Seq<Seq<char>> {
    keys.filter(|k: Seq<char>| prefix.is_prefix_of(k))
}

/// Lists the keys of a bucket that begin with a prefix, in order, up to a number.
pub fn list_objects(bucket: String, keys: &Vec<String>, prefix: String, max_keys: usize) -> (r:
    ListObjectsResponse)
    ensures
        r.bucket == bucket,
        r.prefix == prefix,
        r.max_keys == max_keys,
        r.truncated <==> with_prefix(text::texts(keys@), prefix@).len() > max_keys,
        exists|all: Seq<Seq<char>>|
            #![trigger order::sorted(all)]
            order::sorted(all) && all.to_multiset() == with_prefix(
                text::texts(keys@),
                prefix@,
            ).to_multiset() && listed_keys(r.contents@) == (if all.len() > max_keys {
                all.take(max_keys as int)
            } else {
                all
            }),
        forall|i: int|
            0 <= i < r.contents@.len() ==> (#[trigger] r.contents@[i]).last_modified == 0
                && r.contents@[i].etag@.len() == 0 && r.contents@[i].size == 0,
{
    let ghost given = text::texts(keys@);
    let ghost pred = |k: Seq<char>| prefix@.is_prefix_of(k);
    let wanted = text::chars_of(prefix.as_str());
    let mut matching: Vec<String> = Vec::new();
    let mut i: usize = 0;
    assert(given.take(0).filter(pred) =~= Seq::<Seq<char>>::empty());
    assert(text::texts(matching@) =~= Seq::<Seq<char>>::empty());
    while i < keys.len()
        invariant
            i <= keys@.len(),
            given == text::texts(keys@),
            wanted@ == prefix@,
            pred == (|k: Seq<char>| prefix@.is_prefix_of(k)),
            text::texts(matching@) == given.take(i as int).filter(pred),
        decreases keys@.len() - i,
    {
        let ghost before = matching@;
        proof {
            assert(given.take(i + 1) =~= given.take(i as int).push(given[i as int]));
            given.take(i as int).lemma_filter_push(given[i as int], pred);
        }
        let key = text::chars_of(keys[i].as_str());
        if text::starts_with(&key, &wanted) {
            matching.push(keys[i].clone());
            assert(text::texts(matching@) =~= text::texts(before).push(keys@[i as int]@));
        }
        i = i + 1;
    }
    assert(given.take(i as int) =~= given);
    let sorted = order::sort_texts(&matching);
    let ghost all = text::texts(sorted@);
    proof {
        vstd::seq_lib::to_multiset_len(all);
        vstd::seq_lib::to_multiset_len(text::texts(matching@));
    }
    let truncated = sorted.len() > max_keys;
    let n: usize = if truncated {
        max_keys
    } else {
        sorted.len()
    };
    let mut contents: Vec<ListedObject> = Vec::new();
    let mut i: usize = 0;
    while i < n
        invariant
            i <= n <= sorted@.len(),
            all == text::texts(sorted@),
            listed_keys(contents@) == all.take(i as int),
            forall|j: int|
                0 <= j < contents@.len() ==> (#[trigger] contents@[j]).last_modified == 0
                    && contents@[j].etag@.len() == 0 && contents@[j].size == 0,
        decreases n - i,
    {
        let ghost before = contents@;
        contents.push(
            ListedObject { key: sorted[i].clone(), last_modified: 0, etag: String::new(), size: 0 },
        );
        assert(listed_keys(contents@) =~= listed_keys(before).push(sorted@[i as int]@));
        i = i + 1;
        assert(listed_keys(contents@) =~= all.take(i as int));
    }
    proof {
        assert(order::sorted(all));
        if !truncated {
            assert(all.take(n as int) =~= all);
        }
    }
    ListObjectsResponse { bucket, prefix, max_keys, truncated, contents }
}

/// What a commit carries.
pub struct CommitManifestPayload {
    pub object_hash: Vec<u8>,
    pub manifest_bytes: Vec<u8>,
    pub signature: Vec<u8>,
}

/// What a registration carries.
pub struct RegisterNodePayload {
    pub node_id: Vec<u8>,
    pub capacity_bytes: u64,
    pub addr: String,
    pub relay_url: Option<String>,
}

/// The command that creates a bucket for a caller.
pub fn create_bucket(bucket: String, now: u64, caller: Vec<u8>) -> (r: IndexNodeRequest)
    ensures
        r == (IndexNodeRequest::CreateBucket { name: bucket, created_at: now, owner: caller }),
{
    IndexNodeRequest::CreateBucket { name: bucket, created_at: now, owner: caller }
}

/// The command that commits a manifest for a caller. `blobs` are the blob hashes that
/// the manifest lists, where it decodes.
pub fn commit_manifest(
    bucket: String,
    key: String,
    payload: CommitManifestPayload,
    blobs: Option<Vec<Vec<u8>>>,
    now: u64,
    caller: Vec<u8>,
) -> (r: IndexNodeRequest)
    ensures
        r == (IndexNodeRequest::CommitManifest {
            bucket,
            key,
            object_hash: payload.object_hash,
            manifest_bytes: payload.manifest_bytes,
            signature: payload.signature,
            blobs,
            created_at: now,
            caller,
        }),
{
    IndexNodeRequest::CommitManifest {
        bucket,
        key,
        object_hash: payload.object_hash,
        manifest_bytes: payload.manifest_bytes,
        signature: payload.signature,
        blobs,
        created_at: now,
        caller,
    }
}

/// The command with which the repair operator commits a repaired manifest.
pub fn repair_manifest(
    bucket: String,
    key: String,
    payload: CommitManifestPayload,
    blobs: Option<Vec<Vec<u8>>>,
    now: u64,
    caller: Vec<u8>,
) -> (r: IndexNodeRequest)
    ensures
        r == (IndexNodeRequest::RepairManifest {
            bucket,
            key,
            object_hash: payload.object_hash,
            manifest_bytes: payload.manifest_bytes,
            signature: payload.signature,
            blobs,
            created_at: now,
            caller,
        }),
{
    IndexNodeRequest::RepairManifest {
        bucket,
        key,
        object_hash: payload.object_hash,
        manifest_bytes: payload.manifest_bytes,
        signature: payload.signature,
        blobs,
        created_at: now,
        caller,
    }
}

/// The command that registers a storage node.
pub fn register_node(payload: RegisterNodePayload) -> (r: IndexNodeRequest)
    ensures
        r == (IndexNodeRequest::RegisterNode {
            node_id: payload.node_id,
            capacity_bytes: payload.capacity_bytes,
            addr: payload.addr,
            relay_url: payload.relay_url,
        }),
{
    IndexNodeRequest::RegisterNode {
        node_id: payload.node_id,
        capacity_bytes: payload.capacity_bytes,
        addr: payload.addr,
        relay_url: payload.relay_url,
    }
}

/// How many nodes the listing of storage nodes holds at most.
pub const MAX_LISTED_NODES: usize = 64;

/// A storage node in a listing.
#[derive(Debug, Clone, PartialEq, Eq)]
pub struct RegisterNode {
    pub node_id: String,
    pub addr: String,
    pub relay_url: Option<String>,
}

/// Lists storage nodes, their identifiers in hexadecimal.
pub fn list_nodes(nodes: &Vec<(Vec<u8>, String, Option<String>)>) -> (r: Vec<RegisterNode>)
    ensures
        r@.len() == nodes@.len(),
        forall|i: int|
            0 <= i < r@.len() ==> (#[trigger] r@[i]).node_id@ == codec::hex_text(nodes@[i].0@)
                && r@[i].addr@ == nodes@[i].1@ && types::optional_text(r@[i].relay_url)
                == types::optional_text(nodes@[i].2),
{
    let mut out: Vec<RegisterNode> = Vec::new();
    let mut i: usize = 0;
    while i < nodes.len()
        invariant
            i <= nodes@.len(),
            out@.len() == i,
            forall|j: int|
                0 <= j < i ==> (#[trigger] out@[j]).node_id@ == codec::hex_text(nodes@[j].0@)
                    && out@[j].addr@ == nodes@[j].1@ && types::optional_text(out@[j].relay_url)
                    == types::optional_text(nodes@[j].2),
        decreases nodes@.len() - i,
    {
        out.push(
            RegisterNode {
                node_id: codec::hex_encode(nodes[i].0.as_slice()),
                addr: nodes[i].1.clone(),
                relay_url: types::copy_optional(&nodes[i].2),
            },
        );
        i = i + 1;
    }
    out
}

/// A storage node in the listing of all nodes.
#[derive(Debug, Clone, PartialEq, Eq)]
pub struct ListedNode {
    pub node_id: String,
    pub addr: String,
    pub relay_url: Option<String>,
    pub status: String,
}

/// The name of a node's status.
pub open spec fn status_name(status: NodeStatus) -> Seq<char> {
    match status {
        NodeStatus::Online => "Online"@,
        NodeStatus::Offline => "Offline"@,
    }
}

/// Whether an entry of the listing of all nodes shows a row of the registry.
pub open spec fn shows(listed: ListedNode, id: Seq<u8>, node: types::NodeView) -> bool {
    &&& listed.node_id@ == codec::hex_text(id)
    &&& listed.addr@ == node.addr
    &&& types::optional_text(listed.relay_url) == node.relay_url
    &&& listed.status@ == status_name(node.status)
}

/// Lists all storage nodes, their identifiers in hexadecimal.
pub fn list_all_nodes(nodes: &Vec<(Vec<u8>, NodeStats)>) -> (r: Vec<ListedNode>)
    ensures
        r@.len() == nodes@.len(),
        forall|i: int|
            0 <= i < r@.len() ==> shows(#[trigger] r@[i], nodes@[i].0@, nodes@[i].1@),
{
    let mut out: Vec<ListedNode> = Vec::new();
    let mut i: usize = 0;
    while i < nodes.len()
        invariant
            i <= nodes@.len(),
            out@.len() == i,
            forall|j: int|
                0 <= j < i ==> shows(#[trigger] out@[j], nodes@[j].0@, nodes@[j].1@),
        decreases nodes@.len() - i,
    {
        let stats = &nodes[i].1;
        let status = match stats.status {
            NodeStatus::Online => text::owned("Online"),
            NodeStatus::Offline => text::owned("Offline"),
        };
        out.push(
            ListedNode {
                node_id: codec::hex_encode(nodes[i].0.as_slice()),
                addr: stats.addr.clone(),
                relay_url: types::copy_optional(&stats.relay_url),
                status,
            },
        );
        i = i + 1;
    }
    out
}

/// The digests among some byte strings.
pub open spec fn digests_among(hashes: Seq<Seq<u8>>) -> Seq<Seq<u8>> {
    hashes.filter(|h: Seq<u8>| h.len() == 32)
}

/// The shards that a query for those that may be deleted names: digests in
/// hexadecimal, with commas between them. What is no digest is left out.
pub fn gc_query(listed: &str) -> (r: Vec<[u8; 32]>)
    ensures
        machine::hashes(r@) == digests_among(remote::gc_hashes(text::split_all(listed@, ','))),
{
    let found = remote::gc_reply(&text::split(listed, ','));
    let ghost all = bytes::contents(found@);
    let ghost pred = |h: Seq<u8>| h.len() == 32;
    let mut out: Vec<[u8; 32]> = Vec::new();
    let mut i: usize = 0;
    assert(all.take(0).filter(pred) =~= Seq::<Seq<u8>>::empty());
    assert(machine::hashes(out@) =~= digests_among(all.take(0)));
    while i < found.len()
        invariant
            i <= found@.len(),
            all == bytes::contents(found@),
            pred == (|h: Seq<u8>| h.len() == 32),
            machine::hashes(out@) == digests_among(all.take(i as int)),
        decreases found@.len() - i,
    {
        let ghost before = out@;
        proof {
            assert(all.take(i + 1) =~= all.take(i as int).push(all[i as int]));
            all.take(i as int).lemma_filter_push(all[i as int], pred);
            assert(all[i as int] == found@[i as int]@);
        }
        if let Some(h) = bytes::to_array32(found[i].as_slice()) {
            out.push(h);
            assert(machine::hashes(out@) =~= machine::hashes(before).push(h@));
        }
        i = i + 1;
    }
    assert(all.take(i as int) =~= all);
    out
}

proof fn lemma_filter_all<A>(s: Seq<A>, pred: spec_fn(A) -> bool)
    requires
        forall|i: int| 0 <= i < s.len() ==> pred(#[trigger] s[i]),
    ensures
        s.filter(pred) == s,
    decreases s.len(),
{
    if s.len() == 0 {
        assert(s.filter(pred) =~= s) by {
            s.lemma_filter_len(pred);
        }
    } else {
        lemma_filter_all(s.drop_last(), pred);
        assert(pred(s[s.len() - 1]));
        s.drop_last().lemma_filter_push(s.last(), pred);
        assert(s.drop_last().push(s.last()) =~= s);
    }
}

/// The index is asked about just the shards that a storage node names in its query.
pub proof fn gc_queries_arrive(hashes: Seq<[u8; 32]>)
    ensures
        digests_among(
            remote::gc_hashes(
                text::split_all(text::joined(remote::hex_list(hashes), ","@), ','),
            ),
        ) == machine::hashes(hashes),
{
    let listed = remote::hex_list(hashes);
    let all = machine::hashes(hashes);
    reveal_strlit(",");
    assert(","@ =~= seq![',']);
    let parts = text::split_all(text::joined(listed, ","@), ',');
    if hashes.len() == 0 {
        assert(parts =~= seq![Seq::<char>::empty()]);
    } else {
        assert forall|i: int| 0 <= i < listed.len() implies !(#[trigger] listed[i]).contains(
            ',',
        ) by {
            if listed[i].contains(',') {
                let j = choose|j: int| 0 <= j < listed[i].len() && listed[i][j] == ',';
                codec::lemma_hex_chars(hashes[i]@, j);
            }
        }
        text::split_undoes_join(listed, ',');
    }
    assert forall|i: int| 0 <= i < parts.len() implies codec::is_hex(#[trigger] parts[i]) by {
        if hashes.len() > 0 {
            codec::hex_round_trip(hashes[i]@);
        }
    }
    lemma_filter_all(parts, |s: Seq<char>| codec::is_hex(s));
    let got = remote::gc_hashes(parts);
    if hashes.len() == 0 {
        assert(codec::hex_bytes(parts[0]) =~= Seq::<u8>::empty());
        assert(got =~= seq![Seq::<u8>::empty()]);
        assert(Seq::<Seq<u8>>::empty().push(Seq::<u8>::empty()) =~= got);
        Seq::<Seq<u8>>::empty().lemma_filter_push(
            Seq::<u8>::empty(),
            |h: Seq<u8>| h.len() == 32,
        );
        lemma_filter_all(Seq::<Seq<u8>>::empty(), |h: Seq<u8>| h.len() == 32);
        assert(digests_among(got) =~= all);
    } else {
        assert(got =~= all) by {
            assert forall|i: int| 0 <= i < got.len() implies got[i] == all[i] by {
                codec::hex_round_trip(hashes[i]@);
            }
        }
        lemma_filter_all(got, |h: Seq<u8>| h.len() == 32);
    }
}

/// The hexadecimal notation of some shards that may be deleted.
pub fn gc_answer(candidates: &Vec<Vec<u8>>) -> (r: Vec<String>)
    ensures
        text::texts(r@) == bytes::contents(candidates@).map_values(
            |h: Seq<u8>| codec::hex_text(h),
        ),
{
    let mut out: Vec<String> = Vec::new();
    let mut i: usize = 0;
    while i < candidates.len()
        invariant
            i <= candidates@.len(),
            out@.len() == i,
            forall|j: int| 0 <= j < i ==> (#[trigger] out@[j])@ == codec::hex_text(candidates@[j]@),
        decreases candidates@.len() - i,
    {
        out.push(codec::hex_encode(candidates[i].as_slice()));
        i = i + 1;
    }
    assert(text::texts(out@) =~= bytes::contents(candidates@).map_values(
        |h: Seq<u8>| codec::hex_text(h),
    ));
    out
}

/// A storage node reads of the answer just the shards that the index names in it.
pub proof fn gc_answers_arrive(candidates: Seq<Seq<u8>>)
    ensures
        remote::gc_hashes(candidates.map_values(|h: Seq<u8>| codec::hex_text(h))) == candidates,
{
    let sent = candidates.map_values(|h: Seq<u8>| codec::hex_text(h));
    assert forall|i: int| 0 <= i < sent.len() implies codec::is_hex(#[trigger] sent[i]) by {
        codec::hex_round_trip(candidates[i]);
    }
    lemma_filter_all(sent, |s: Seq<char>| codec::is_hex(s));
    assert forall|i: int| 0 <= i < sent.len() implies codec::hex_bytes(#[trigger] sent[i])
        == candidates[i] by {
        codec::hex_round_trip(candidates[i]);
    }
    assert(remote::gc_hashes(sent) =~= candidates);
}

} // verus!
