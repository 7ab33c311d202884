//! Laws of requests: what the API makes of them, what the index answers, and who is
//! let in.
//!
//! `call_ensures(f, args, r)` says that a call of `f` with `args` may return `r`.
use vstd::prelude::*;

use crate::api;
use crate::api::{
    BatchCollector, BatchOutcome, CommitManifestPayload, ListObjectsResponse, ListedNode,
    RegisterNode, RegisterNodePayload, TakeEvent,
};
use crate::bytes;
use crate::codec;
use crate::index::auth;
use crate::index::auth::AuthError;
use crate::index::log;
use crate::index::log::Bound;
use crate::index::machine;
use crate::index::machine::ArkelStateMachine;
use crate::index::model;
use crate::index::model::{Index, ObjectKey};
use crate::index::remote;
use crate::index::types::{IndexNodeRequest, IndexNodeResponse, NodeStats, NodeStatus};
use crate::keys;
use crate::laws::services;
use crate::order;
use crate::text;

verus! {

/// A listing holds keys of the bucket that begin with the prefix, in order and each as
/// often as it was given; all of them, unless there are more than were asked for.
pub proof fn listings_hold_the_keys_with_the_prefix(
    bucket: String,
    keys: &Vec<String>,
    prefix: String,
    max: usize,
    r: ListObjectsResponse,
    key: Seq<char>,
)
    requires
        call_ensures(api::list_objects, (bucket, keys, prefix, max), r),
    ensures
        ({
            let matching = text::texts(keys@).filter(|k: Seq<char>| prefix@.is_prefix_of(k));
            let listed = r.contents@.map_values(|o: api::ListedObject| o.key@);
            &&& r.bucket@ == bucket@
            &&& r.prefix@ == prefix@
            &&& r.max_keys == max
            &&& r.truncated <==> matching.len() > max
            &&& listed.len() <= max
            &&& listed.len() <= matching.len()
            &&& listed.len() == max || listed.len() == matching.len()
            &&& listed.contains(key) ==> text::texts(keys@).contains(key) && prefix@.is_prefix_of(
                key,
            )
            &&& !r.truncated && text::texts(keys@).contains(key) && prefix@.is_prefix_of(key)
                ==> listed.contains(key)
            &&& forall|i: int, j: int|
                0 <= i < j < listed.len() ==> order::text_le(#[trigger] listed[i], #[trigger] listed[j])
            &&& text::texts(keys@).contains(key) && prefix@.is_prefix_of(key) && !listed.contains(
                key,
            ) ==> forall|i: int| 0 <= i < listed.len() ==> order::text_le(#[trigger] listed[i], key)
        }),
{
    let pred = |k: Seq<char>| prefix@.is_prefix_of(k);
    let given = text::texts(keys@);
    let matching = given.filter(pred);
    let listed = r.contents@.map_values(|o: api::ListedObject| o.key@);
    let all = choose|all: Seq<Seq<char>>|
        #![trigger order::sorted(all)]
        order::sorted(all) && all.to_multiset() == api::with_prefix(
            given,
            prefix@,
        ).to_multiset() && api::listed_keys(r.contents@) == (if all.len() > max {
            all.take(max as int)
        } else {
            all
        });
    assert(listed =~= api::listed_keys(r.contents@));
    assert(matching =~= api::with_prefix(given, prefix@));
    services::filters_keep_members(given, pred, key);
    broadcast use vstd::seq_lib::group_to_multiset_ensures;

    vstd::seq_lib::to_multiset_len(all);
    vstd::seq_lib::to_multiset_len(matching);
    assert(all.contains(key) <==> all.to_multiset().count(key) > 0);
    assert(matching.contains(key) <==> matching.to_multiset().count(key) > 0);
    if listed.contains(key) {
        let i = choose|i: int| 0 <= i < listed.len() && listed[i] == key;
        assert(all[i] == key);
    }
    assert forall|i: int, j: int| 0 <= i < j < listed.len() implies order::text_le(
        #[trigger] listed[i],
        #[trigger] listed[j],
    ) by {
        assert(listed[i] == all[i] && listed[j] == all[j]);
        sorted_texts_are_in_order(all, i, j);
    }
    if given.contains(key) && prefix@.is_prefix_of(key) && !listed.contains(key) {
        let p = choose|p: int| 0 <= p < all.len() && all[p] == key;
        assert forall|i: int| 0 <= i < listed.len() implies order::text_le(
            #[trigger] listed[i],
            key,
        ) by {
            assert(listed[i] == all[i]);
            if p < listed.len() {
                assert(listed[p] == key);
            }
            sorted_texts_are_in_order(all, i, p);
        }
    }
}

/// In a sorted list no text stands before a smaller one.
pub proof fn sorted_texts_are_in_order(s: Seq<Seq<char>>, i: int, j: int)
    requires
        order::sorted(s),
        0 <= i <= j < s.len(),
    ensures
        order::text_le(s[i], s[j]),
    decreases j - i,
{
    order::le_reflexive(s[i]);
    if i < j {
        sorted_texts_are_in_order(s, i, j - 1);
        order::le_transitive(s[i], s[j - 1], s[j]);
    }
}

/// Texts are ordered by their first difference, and a text comes before those that
/// continue it.
pub proof fn first_differences_decide(p: Seq<char>, a: Seq<char>, b: Seq<char>, x: char, y: char)
    requires
        x < y,
    ensures
        order::text_le(p, p + a),
        a.len() > 0 ==> !order::text_le(p + a, p),
        order::text_le(p + seq![x] + a, p + seq![y] + b),
        !order::text_le(p + seq![y] + b, p + seq![x] + a),
    decreases p.len(),
{
    if p.len() > 0 {
        first_differences_decide(p.skip(1), a, b, x, y);
        assert((p + a).skip(1) =~= p.skip(1) + a);
        assert((p + seq![x] + a).skip(1) =~= p.skip(1) + seq![x] + a);
        assert((p + seq![y] + b).skip(1) =~= p.skip(1) + seq![y] + b);
        assert((p + a)[0] == p[0]);
        assert((p + seq![x] + a)[0] == p[0]);
        assert((p + seq![y] + b)[0] == p[0]);
    } else {
        assert((p + seq![x] + a)[0] == x);
        assert((p + seq![y] + b)[0] == y);
    }
}

/// How many keys a listing may hold: as `max-keys` says, where that is not given as
/// `max_keys` says, and 1000 where neither says a number.
pub proof fn listings_have_a_limit(
    dashed: Option<&str>,
    underscored: Option<&str>,
    n: usize,
    r: usize,
)
    requires
        call_ensures(api::max_keys, (dashed, underscored), r),
    ensures
        dashed is Some && dashed->0@ == text::decimal(n as nat) ==> r == n,
        dashed is None && underscored is Some && underscored->0@ == text::decimal(n as nat) ==> r
            == n,
        dashed is None && underscored is None ==> r == 1000,
        dashed is Some && dashed->0@.len() == 0 ==> r == 1000,
{
    text::decimal_round_trip(n as nat);
}

/// A batch is taken at once where something waits; while waiting, when it is full; and
/// when the delay is over in any case.
pub proof fn batches_are_taken_when_due<S>(c: BatchCollector<S>)
    ensures
        c.due(TakeEvent::Asked) <==> c.waiting().len() > 0,
        c.due(TakeEvent::Notified) <==> c.waiting().len() >= c.capacity(),
        c.due(TakeEvent::Elapsed),
{
}

/// A batch holds the writes in the order they came, and keeps the way back of each.
pub proof fn batches_keep_their_order<S>(
    batch: Vec<(IndexNodeRequest, S)>,
    r: (IndexNodeRequest, Vec<S>),
    i: int,
)
    requires
        call_ensures(api::batch_command::<S>, (batch,), r),
        0 <= i < batch@.len(),
    ensures
        r.0 is Batch,
        r.0->Batch_0@.len() == batch@.len(),
        r.1@.len() == batch@.len(),
        r.0->Batch_0@[i] == batch@[i].0,
        r.1@[i] == batch@[i].1,
{
}

/// Where consensus fails, everyone who waits is told why; where it succeeds, everyone
/// gets the answer in their place.
pub proof fn everyone_who_waits_is_told<S>(
    senders: Vec<S>,
    outcome: BatchOutcome,
    r: Vec<(S, IndexNodeResponse)>,
    i: int,
)
    requires
        call_ensures(api::deliver::<S>, (senders, outcome), r),
        0 <= i < senders@.len(),
    ensures
        outcome is Failed ==> r@.len() == senders@.len() && r@[i].0 == senders@[i]
            && !r@[i].1.success && r@[i].1.error is Some && r@[i].1.error->0@
            == "raft batch error: "@ + outcome->Failed_0@,
        outcome is Applied && outcome->Applied_0.batch_responses is None ==> r@.len()
            == senders@.len() && r@[i].0 == senders@[i] && r@[i].1.success
            && r@[i].1.error is None,
        outcome is Applied && outcome->Applied_0.batch_responses is Some
            && outcome->Applied_0.batch_responses->0@.len() == senders@.len() ==> r@.len()
            == senders@.len() && r@[i].0 == senders@[i] && r@[i].1
            == outcome->Applied_0.batch_responses->0@[i],
{
}

/// The commands that requests become carry what the requests carry.
pub proof fn commands_carry_their_requests(
    bucket: String,
    key: String,
    payload: CommitManifestPayload,
    node: RegisterNodePayload,
    blobs: Option<Vec<Vec<u8>>>,
    now: u64,
    caller: Vec<u8>,
    create: IndexNodeRequest,
    commit: IndexNodeRequest,
    repair: IndexNodeRequest,
    register: IndexNodeRequest,
)
    requires
        call_ensures(api::create_bucket, (bucket, now, caller), create),
        call_ensures(api::commit_manifest, (bucket, key, payload, blobs, now, caller), commit),
        call_ensures(api::repair_manifest, (bucket, key, payload, blobs, now, caller), repair),
        call_ensures(api::register_node, (node,), register),
    ensures
        create is CreateBucket,
        create->CreateBucket_name@ == bucket@,
        create->CreateBucket_created_at == now,
        create->CreateBucket_owner@ == caller@,
        commit is CommitManifest,
        commit->CommitManifest_bucket@ == bucket@,
        commit->CommitManifest_key@ == key@,
        commit->CommitManifest_object_hash@ == payload.object_hash@,
        commit->CommitManifest_manifest_bytes@ == payload.manifest_bytes@,
        commit->CommitManifest_signature@ == payload.signature@,
        commit->CommitManifest_blobs == blobs,
        commit->CommitManifest_created_at == now,
        commit->CommitManifest_caller@ == caller@,
        repair is RepairManifest,
        repair->RepairManifest_bucket@ == bucket@,
        repair->RepairManifest_key@ == key@,
        repair->RepairManifest_object_hash@ == payload.object_hash@,
        repair->RepairManifest_manifest_bytes@ == payload.manifest_bytes@,
        repair->RepairManifest_signature@ == payload.signature@,
        repair->RepairManifest_blobs == blobs,
        repair->RepairManifest_created_at == now,
        repair->RepairManifest_caller@ == caller@,
        register is RegisterNode,
        register->RegisterNode_node_id@ == node.node_id@,
        register->RegisterNode_capacity_bytes == node.capacity_bytes,
        register->RegisterNode_addr@ == node.addr@,
        register->RegisterNode_relay_url == node.relay_url,
{
}

/// What is read of an object is what the index keeps of it.
pub proof fn reads_show_what_is_kept<L, M>(
    sm: &ArkelStateMachine<L, M>,
    bucket: &str,
    key: &str,
    r: Option<(Vec<u8>, Vec<u8>)>,
)
    requires
        call_ensures(ArkelStateMachine::<L, M>::read_manifest, (sm, bucket, key), r),
    ensures
        ({
            let rows = sm.index().tables.manifests;
            &&& r is Some <==> rows.dom().contains((bucket@, key@))
            &&& r matches Some((manifest, signature)) ==> manifest@ == rows[(bucket@, key@)].manifest
                && signature@ == rows[(bucket@, key@)].signature
        }),
{
    match r {
        Some(p) => {},
        None => {},
    }
}

/// The listings of the index name each bucket, each object and each manifest once.
pub proof fn listings_are_complete<L, M>(
    sm: &ArkelStateMachine<L, M>,
    bucket: &str,
    buckets: Vec<String>,
    objects: Vec<String>,
    all: Vec<(String, String, Vec<u8>)>,
    id: ObjectKey,
)
    requires
        call_ensures(ArkelStateMachine::<L, M>::list_buckets, (sm,), buckets),
        call_ensures(ArkelStateMachine::<L, M>::list_objects, (sm, bucket), objects),
        call_ensures(ArkelStateMachine::<L, M>::list_all_manifests, (sm,), all),
    ensures
        text::texts(buckets@).no_duplicates(),
        text::texts(buckets@).contains(id.0) <==> sm.index().tables.buckets.dom().contains(id.0),
        text::texts(objects@).no_duplicates(),
        text::texts(objects@).contains(id.1) <==> sm.index().tables.manifests.dom().contains(
            (bucket@, id.1),
        ),
        (exists|i: int|
            0 <= i < all@.len() && ((#[trigger] all@[i]).0@, all@[i].1@) == id)
            <==> sm.index().tables.manifests.dom().contains(id),
        forall|i: int|
            0 <= i < all@.len() && ((#[trigger] all@[i]).0@, all@[i].1@) == id ==> all@[i].2@
                == sm.index().tables.manifests[id].manifest,
{
}

/// The index names of some shards just those that it counts no reference to.
pub proof fn garbage_is_named<L, M>(
    sm: &ArkelStateMachine<L, M>,
    blobs: &Vec<[u8; 32]>,
    r: Vec<Vec<u8>>,
    h: Seq<u8>,
)
    requires
        call_ensures(ArkelStateMachine::<L, M>::gc_candidates, (sm, blobs), r),
    ensures
        ({
            let refs = sm.index().tables.refs;
            (exists|i: int| 0 <= i < r@.len() && (#[trigger] r@[i])@ == h) <==> (exists|i: int|
                0 <= i < blobs@.len() && (#[trigger] blobs@[i])@ == h) && (!refs.dom().contains(h)
                || refs[h] == 0)
        }),
{
    let refs = sm.index().tables.refs;
    let pred = |h: Seq<u8>| machine::unreferenced(refs, h);
    let all = machine::hashes(blobs@);
    let named = bytes::contents(r@);
    assert(named == all.filter(pred));
    services::filters_keep_members(all, pred, h);
    if exists|i: int| 0 <= i < r@.len() && (#[trigger] r@[i])@ == h {
        let i = choose|i: int| 0 <= i < r@.len() && (#[trigger] r@[i])@ == h;
        assert(named[i] == h);
        let j = choose|j: int| 0 <= j < all.len() && all[j] == h;
        assert(blobs@[j]@ == h);
    }
    if (exists|i: int| 0 <= i < blobs@.len() && (#[trigger] blobs@[i])@ == h) && pred(h) {
        let i = choose|i: int| 0 <= i < blobs@.len() && (#[trigger] blobs@[i])@ == h;
        assert(all[i] == h);
        let j = choose|j: int| 0 <= j < named.len() && named[j] == h;
        assert(r@[j]@ == h);
    }
}

/// Nodes that are listed as online are, with the address and the relay that they
/// registered; each is listed once.
pub proof fn listed_nodes_are_online<L, M>(
    sm: &ArkelStateMachine<L, M>,
    count: usize,
    r: Vec<(Vec<u8>, String, Option<String>)>,
    i: int,
)
    requires
        call_ensures(ArkelStateMachine::<L, M>::get_healthy_nodes, (sm, count), r),
        0 <= i < r@.len(),
    ensures
        ({
            let id = r@[i].0@;
            let nodes = sm.index().nodes;
            &&& r@.len() <= count
            &&& nodes.dom().contains(id)
            &&& nodes[id].status == NodeStatus::Online
            &&& r@[i].1@ == nodes[id].addr
            &&& r@[i].2 is Some <==> nodes[id].relay_url is Some
            &&& r@[i].2 is Some ==> r@[i].2->0@ == nodes[id].relay_url->0
            &&& forall|j: int| 0 <= j < r@.len() && j != i ==> (#[trigger] r@[j]).0@ != id
        }),
{
    assert(machine::online(sm.index().nodes).contains(r@[i].0@));
    assert forall|j: int| 0 <= j < r@.len() && j != i implies (#[trigger] r@[j]).0@ != r@[i].0@ by {
        if j < i {
            assert(r@[j].0@ != r@[i].0@);
        } else {
            assert(r@[i].0@ != r@[j].0@);
        }
    }
}

/// A node that registered is listed with the address and the relay that it gave, as long
/// as the listing has room for all nodes.
pub proof fn registered_nodes_are_listed<L, M>(
    s: Index,
    cmd: IndexNodeRequest,
    log_index: u64,
    sm: &ArkelStateMachine<L, M>,
    count: usize,
    r: Vec<(Vec<u8>, String, Option<String>)>,
)
    requires
        cmd is RegisterNode,
        s.nodes.dom().finite(),
        sm.index() == model::outcome(s, cmd, log_index)->Ok_0.0,
        count > s.nodes.dom().len(),
        call_ensures(ArkelStateMachine::<L, M>::get_healthy_nodes, (sm, count), r),
    ensures
        exists|i: int|
            0 <= i < r@.len() && (#[trigger] r@[i]).0@ == cmd->RegisterNode_node_id@ && r@[i].1@
                == cmd->RegisterNode_addr@ && (r@[i].2 is Some
                <==> cmd->RegisterNode_relay_url is Some) && (r@[i].2 is Some ==> r@[i].2->0@
                == cmd->RegisterNode_relay_url->0@),
{
    let id = cmd->RegisterNode_node_id@;
    let nodes = sm.index().nodes;
    let up = machine::online(nodes);
    assert(nodes.dom() =~= s.nodes.dom().insert(id));
    assert(up.subset_of(nodes.dom()));
    vstd::set_lib::lemma_set_subset_finite(nodes.dom(), up);
    vstd::set_lib::lemma_len_subset(up, nodes.dom());
    assert(up.contains(id));
    assert(r@.len() == up.len());
    let listed = r@.map_values(|n: (Vec<u8>, String, Option<String>)| n.0@);
    assert(listed.no_duplicates()) by {
        assert forall|a: int, b: int|
            0 <= a < listed.len() && 0 <= b < listed.len() && a != b implies listed[a]
            != listed[b] by {
            if a < b {
                assert(r@[a].0@ != r@[b].0@);
            } else {
                assert(r@[b].0@ != r@[a].0@);
            }
        }
    }
    listed.unique_seq_to_set();
    vstd::seq_lib::seq_to_set_is_finite(listed);
    assert(listed.to_set().subset_of(up)) by {
        assert forall|x: Seq<u8>| #[trigger] listed.to_set().contains(x) implies up.contains(x) by {
            let k = choose|k: int| 0 <= k < listed.len() && listed[k] == x;
            assert(up.contains(r@[k].0@));
        }
    }
    vstd::set_lib::lemma_subset_equality(listed.to_set(), up);
    assert(listed.to_set().contains(id));
    let i = choose|i: int| 0 <= i < listed.len() && listed[i] == id;
    assert(r@[i].0@ == id);
    assert(up.contains(r@[i].0@));
}

/// Each registered node is shown with the log index at which it was last seen.
pub proof fn lags_show_the_last_heartbeat<L, M>(
    sm: &ArkelStateMachine<L, M>,
    r: Vec<(Vec<u8>, u64)>,
    id: Seq<u8>,
)
    requires
        call_ensures(ArkelStateMachine::<L, M>::list_node_lags, (sm,), r),
    ensures
        (exists|i: int| 0 <= i < r@.len() && (#[trigger] r@[i]).0@ == id)
            <==> sm.index().nodes.dom().contains(id),
        forall|i: int|
            0 <= i < r@.len() && (#[trigger] r@[i]).0@ == id ==> r@[i].1
                == sm.index().nodes[id].last_seen,
{
}

/// Only the repair operator is taken for it.
pub proof fn operators_are_recognised<L, M>(
    sm: &ArkelStateMachine<L, M>,
    caller: &[u8],
    r: bool,
)
    requires
        call_ensures(ArkelStateMachine::<L, M>::is_repair_operator, (sm, caller), r),
    ensures
        r <==> sm.index().tables.repair_operator is Some
            && sm.index().tables.repair_operator->0 == caller@,
{
}

/// The nodes in a listing are shown in hexadecimal, with address and relay, and in the
/// listing of all nodes with their status.
pub proof fn listings_show_the_nodes(
    online: &Vec<(Vec<u8>, String, Option<String>)>,
    shown: Vec<RegisterNode>,
    all: &Vec<(Vec<u8>, NodeStats)>,
    listed: Vec<ListedNode>,
    i: int,
    j: int,
)
    requires
        call_ensures(api::list_nodes, (online,), shown),
        call_ensures(api::list_all_nodes, (all,), listed),
        0 <= i < online@.len(),
        0 <= j < all@.len(),
    ensures
        shown@.len() == online@.len(),
        shown@[i].node_id@ == codec::hex_text(online@[i].0@),
        shown@[i].addr@ == online@[i].1@,
        shown@[i].relay_url is Some <==> online@[i].2 is Some,
        online@[i].2 is Some ==> shown@[i].relay_url->0@ == online@[i].2->0@,
        listed@.len() == all@.len(),
        listed@[j].node_id@ == codec::hex_text(all@[j].0@),
        listed@[j].addr@ == all@[j].1.addr@,
        listed@[j].relay_url is Some <==> all@[j].1.relay_url is Some,
        all@[j].1.relay_url is Some ==> listed@[j].relay_url->0@ == all@[j].1.relay_url->0@,
        all@[j].1.status == NodeStatus::Online ==> listed@[j].status@ == "Online"@,
        all@[j].1.status == NodeStatus::Offline ==> listed@[j].status@ == "Offline"@,
        api::MAX_LISTED_NODES == 64,
{
    assert(shown@[i].addr@ == online@[i].1@);
    assert(api::shows(listed@[j], all@[j].0@, all@[j].1@));
}

/// A storage node's question about its shards arrives as it was asked.
pub proof fn questions_about_shards_arrive(
    hashes: &Vec<[u8; 32]>,
    route: String,
    listed: &str,
    asked: Vec<[u8; 32]>,
    i: int,
)
    requires
        call_ensures(remote::gc_route, (hashes,), route),
        route@ == "shards/gc-candidates?hashes="@ + listed@,
        call_ensures(api::gc_query, (listed,), asked),
        0 <= i < hashes@.len(),
    ensures
        asked@.len() == hashes@.len(),
        asked@[i]@ == hashes@[i]@,
{
    let head = "shards/gc-candidates?hashes="@;
    let sent = text::joined(remote::hex_list(hashes@), ","@);
    assert(listed@ =~= route@.skip(head.len() as int));
    assert(sent =~= route@.skip(head.len() as int));
    api::gc_queries_arrive(hashes@);
    assert(machine::hashes(asked@) == machine::hashes(hashes@));
    assert(machine::hashes(asked@)[i] == asked@[i]@);
}

/// The index's answer about shards arrives as it was given.
pub proof fn answers_about_shards_arrive(
    named: &Vec<Vec<u8>>,
    sent: Vec<String>,
    r: Vec<Vec<u8>>,
    i: int,
)
    requires
        call_ensures(api::gc_answer, (named,), sent),
        call_ensures(remote::gc_reply, (&sent,), r),
        0 <= i < named@.len(),
    ensures
        r@.len() == named@.len(),
        r@[i]@ == named@[i]@,
{
    api::gc_answers_arrive(bytes::contents(named@));
    assert(bytes::contents(r@)[i] == r@[i]@);
}

/// Who is let in. A request that shows the time `t` and an authorization of a key and a
/// signature is refused where `t` is more than 60 seconds off; else it is let in as
/// coming from that key exactly where the signature is accepted for method, path, digest
/// of the body and time, with a blank between them.
pub proof fn requests_are_let_in_by_signature(
    method: &str,
    path: &str,
    body: &[u8],
    time: Option<&str>,
    authorization: Option<&str>,
    now: u64,
    t: u64,
    key: Seq<u8>,
    signature: Seq<u8>,
    r: Result<[u8; 32], AuthError>,
)
    requires
        call_ensures(auth::verify_request, (method, path, body, time, authorization, now), r),
        time is Some,
        time->0@ == text::decimal(t as nat),
        authorization is Some,
        authorization->0@ == "Arkel "@ + codec::hex_text(key) + ":"@ + codec::hex_text(signature),
        key.len() == 32,
        keys::valid_key(key),
        signature.len() == 64,
    ensures
        ({
            let message = vstd::utf8::encode_utf8(
                method@ + " "@ + path@ + " "@ + codec::hex_text(keys::digest_of(body@)) + " "@
                    + text::decimal(t as nat),
            );
            &&& now > t + 60 || t > now + 60 ==> r == Err::<[u8; 32], AuthError>(
                AuthError::OutsideSkew,
            )
            &&& now <= t + 60 && t <= now + 60 ==> {
                &&& r is Ok <==> keys::verifies(key, message, signature)
                &&& r is Ok ==> r->Ok_0@ == key
                &&& r is Err ==> r->Err_0 == AuthError::Rejected
            }
        }),
{
    let key_hex = codec::hex_text(key);
    let sig_hex = codec::hex_text(signature);
    let credentials = key_hex + seq![':'] + sig_hex;
    let shown = authorization->0@;
    reveal_strlit("Arkel ");
    reveal_strlit(":");
    assert(":"@ =~= seq![':']);
    assert(shown =~= "Arkel "@ + credentials);
    assert(shown.skip("Arkel "@.len() as int) =~= credentials);
    assert(shown.subrange(0, "Arkel "@.len() as int) =~= "Arkel "@);
    assert(!key_hex.contains(':')) by {
        if key_hex.contains(':') {
            let i = choose|i: int| 0 <= i < key_hex.len() && key_hex[i] == ':';
            codec::lemma_hex_chars(key, i);
        }
    }
    text::lemma_split_once(key_hex, ':', sig_hex);
    codec::hex_round_trip(key);
    codec::hex_round_trip(signature);
    text::decimal_round_trip(t as nat);
    assert(text::parsed(time->0@, u64::MAX as nat) == Some(t as nat));
}

/// Without a time or an authorization nobody is let in, nor with another scheme.
pub proof fn bare_requests_are_turned_away(
    method: &str,
    path: &str,
    body: &[u8],
    time: Option<&str>,
    authorization: Option<&str>,
    now: u64,
    r: Result<[u8; 32], AuthError>,
)
    requires
        call_ensures(auth::verify_request, (method, path, body, time, authorization, now), r),
    ensures
        time is None ==> r == Err::<[u8; 32], AuthError>(AuthError::MissingTime),
        authorization is None ==> r is Err,
        authorization is None && time is Some && time->0@ == text::decimal(now as nat) ==> r
            == Err::<[u8; 32], AuthError>(AuthError::MissingAuthorization),
        authorization is Some && !"Arkel "@.is_prefix_of(authorization->0@) ==> r is Err,
        time is Some && (time->0@.len() == 0 || !('0' <= time->0@[time->0@.len() - 1] <= '9'))
            ==> r == Err::<[u8; 32], AuthError>(AuthError::BadTime),
{
    text::decimal_round_trip(now as nat);
    if time is Some {
        crate::laws::settings::numbers_are_read_digit_by_digit(
            time->0@,
            '0',
            0,
            u64::MAX as nat,
        );
    }
}

/// What a client signs is let in: the headers that it makes are let in by a server whose
/// clock is within a minute, unless the signature is the degenerate one.
pub proof fn signed_requests_are_let_in(
    secret: &[u8; 32],
    method: &str,
    path: &str,
    body: &[u8],
    then: u64,
    headers: (String, String),
    authorization: &str,
    time: &str,
    now: u64,
    r: Result<[u8; 32], AuthError>,
)
    requires
        call_ensures(auth::auth_headers, (secret, method, path, body, then), headers),
        authorization@ == headers.0@,
        time@ == headers.1@,
        call_ensures(
            auth::verify_request,
            (method, path, body, Some(time), Some(authorization), now),
            r,
        ),
        !keys::degenerate(
            keys::signature_of(
                secret@,
                vstd::utf8::encode_utf8(
                    method@ + " "@ + path@ + " "@ + codec::hex_text(keys::digest_of(body@)) + " "@
                        + text::decimal(then as nat),
                ),
            ),
        ),
    ensures
        r is Ok <==> now <= then + 60 && then <= now + 60,
        r is Ok ==> r->Ok_0@ == keys::public_of(secret@),
        r is Err ==> r->Err_0 == AuthError::OutsideSkew,
{
    assert(auth::header(Some(time)) == Some(headers.1@));
    assert(auth::header(Some(authorization)) == Some(headers.0@));
}

/// The rows of a range of the log: bounds that are row numbers name just the rows
/// between them, and an unbounded side leaves none out.
pub proof fn ranges_name_their_rows(start: Bound, end: Bound, r: (i64, i64), i: u64)
    requires
        call_ensures(log::row_range, (start, end), r),
        start is Included ==> start->Included_0 <= i64::MAX,
        start is Excluded ==> start->Excluded_0 < i64::MAX,
        end is Included ==> end->Included_0 <= i64::MAX,
        end is Excluded ==> end->Excluded_0 <= i64::MAX,
        i <= i64::MAX,
    ensures
        (r.0 <= i && i <= r.1) <==> {
            &&& start is Included ==> start->Included_0 <= i
            &&& start is Excluded ==> start->Excluded_0 < i
            &&& end is Included ==> i <= end->Included_0
            &&& end is Excluded ==> i < end->Excluded_0
        },
{
}

/// A row has the number of its entry; beyond the range of row numbers the number wraps
/// round.
pub proof fn rows_are_numbered(i: u64)
    ensures
        i <= i64::MAX ==> log::row_number(i) == i,
        i > i64::MAX ==> log::row_number(i) == i - 0x1_0000_0000_0000_0000,
{
}

/// Cutting the log behind an entry drops the rows behind it, and all of them where no
/// entry is named.
pub proof fn cuts_drop_what_follows(last: Option<u64>, r: i64, i: u64)
    requires
        call_ensures(log::first_truncated, (last,), r),
        last is Some ==> last->0 < i64::MAX,
        i <= i64::MAX,
    ensures
        i >= r <==> last is None || i > last->0,
{
}

/// The last entry of a log is that of its last row, or the last one purged.
pub proof fn purged_logs_remember_their_end<L>(
    row: Option<L>,
    purged: Option<L>,
    r: Option<L>,
)
    requires
        call_ensures(log::last_log_id::<L>, (row, purged), r),
    ensures
        row is Some ==> r == row,
        row is None ==> r == purged,
{
}

/// Bytes are shown in hexadecimal two digits each, the higher one first.
pub proof fn bytes_are_shown_in_hexadecimal(b: Seq<u8>, i: int)
    requires
        0 <= i < b.len(),
    ensures
        ({
            let s = codec::hex_text(b);
            let digit = |n: int|
                if n < 10 {
                    48 + n
                } else {
                    87 + n
                };
            &&& s.len() == 2 * b.len()
            &&& s[2 * i] as u32 == digit(b[i] as int / 16)
            &&& s[2 * i + 1] as u32 == digit(b[i] as int % 16)
        }),
{
    assert(2 * i / 2 == i);
    assert((2 * i + 1) / 2 == i);
}

/// A command is described by its name and by what it is about.
pub proof fn descriptions_name_the_command(cmd: &IndexNodeRequest, r: String)
    requires
        call_ensures(IndexNodeRequest::describe, (cmd,), r),
    ensures
        cmd is CreateBucket ==> r@ == "CreateBucket("@ + cmd->CreateBucket_name@ + ", "@
            + text::decimal(cmd->CreateBucket_created_at as nat) + ")"@,
        cmd is DeleteBucket ==> r@ == "DeleteBucket("@ + cmd->DeleteBucket_name@ + ")"@,
        cmd is CommitManifest ==> r@ == "CommitManifest("@ + codec::hex_text(
            cmd->CommitManifest_object_hash@,
        ) + ")"@,
        cmd is DeleteManifest ==> r@ == "DeleteManifest("@ + cmd->DeleteManifest_bucket@ + ", "@
            + cmd->DeleteManifest_key@ + ")"@,
        cmd is SetRepairOperator ==> r@ == "SetRepairOperator"@,
        cmd is RepairManifest ==> r@ == "RepairManifest("@ + codec::hex_text(
            cmd->RepairManifest_object_hash@,
        ) + ")"@,
        cmd is Batch ==> r@ == "Batch("@ + text::decimal(cmd->Batch_0@.len()) + " entries)"@,
        cmd is RegisterNode ==> r@ == "RegisterNode("@ + codec::hex_text(cmd->RegisterNode_node_id@)
            + ")"@,
        cmd is MarkNodesOffline && cmd->MarkNodesOffline_node_ids@.len() == 1
            && cmd->MarkNodesOffline_node_ids@[0]@.len() >= 8 ==> r@ == "MarkNodesOffline("@
            + codec::hex_text(cmd->MarkNodesOffline_node_ids@[0]@.take(8)) + ")"@,
{
    if cmd is MarkNodesOffline && cmd->MarkNodesOffline_node_ids@.len() == 1
        && cmd->MarkNodesOffline_node_ids@[0]@.len() >= 8 {
        let id = cmd->MarkNodesOffline_node_ids@[0]@;
        let ids = bytes::contents(cmd->MarkNodesOffline_node_ids@);
        let shown = ids.map_values(|id: Seq<u8>| crate::index::types::short_id(id));
        assert(shown.len() == 1);
        assert(text::joined(shown, ", "@) == shown[0]);
        assert(crate::index::types::short_id(id) =~= codec::hex_text(id.take(8)));
    }
}

/// What is wrong with an authorization is said: whether there is no colon in it, the key
/// or the signature is not hexadecimal, or one of them is not as long as it must be.
pub proof fn bad_credentials_are_told_apart(
    method: &str,
    path: &str,
    body: &[u8],
    time: Option<&str>,
    authorization: Option<&str>,
    now: u64,
    key: Seq<char>,
    signature: Seq<char>,
    bare: Seq<char>,
    r: Result<[u8; 32], AuthError>,
)
    requires
        call_ensures(auth::verify_request, (method, path, body, time, authorization, now), r),
        time is Some,
        time->0@ == text::decimal(now as nat),
        authorization is Some,
        !key.contains(':'),
        !bare.contains(':'),
    ensures
        authorization->0@ == "Arkel "@ + bare ==> r is Err && r->Err_0 == AuthError::BadFormat,
        !"Arkel "@.is_prefix_of(authorization->0@) ==> r is Err && r->Err_0
            == AuthError::BadScheme,
        authorization->0@ == "Arkel "@ + key + ":"@ + signature ==> {
            let k = codec::hex_bytes(key);
            let s = codec::hex_bytes(signature);
            let spelt = codec::is_hex(key) && codec::is_hex(signature);
            &&& !codec::is_hex(key) ==> r is Err && r->Err_0 == AuthError::BadPubkey
            &&& codec::is_hex(key) && !codec::is_hex(signature) ==> r is Err && r->Err_0
                == AuthError::BadSignature
            &&& spelt && k.len() != 32 ==> r is Err && r->Err_0 == AuthError::BadPubkeyLen
            &&& spelt && k.len() == 32 && !keys::valid_key(k) ==> r is Err && r->Err_0
                == AuthError::BadPubkey
            &&& spelt && k.len() == 32 && keys::valid_key(k) && s.len() != 64 ==> r is Err
                && r->Err_0 == AuthError::BadSigLen
            &&& spelt && k.len() == 32 && keys::valid_key(k) && s.len() == 64 ==> {
                let message = vstd::utf8::encode_utf8(
                    method@ + " "@ + path@ + " "@ + codec::hex_text(keys::digest_of(body@)) + " "@
                        + text::decimal(now as nat),
                );
                &&& r is Ok <==> keys::verifies(k, message, s)
                &&& r is Ok ==> r->Ok_0@ == k
            }
        },
{
    reveal_strlit("Arkel ");
    reveal_strlit(":");
    assert(":"@ =~= seq![':']);
    text::decimal_round_trip(now as nat);
    assert(text::parsed(time->0@, u64::MAX as nat) == Some(now as nat));
    let shown = authorization->0@;
    let head = "Arkel "@;
    if shown == head + bare {
        assert(shown.skip(head.len() as int) =~= bare);
        assert(shown.subrange(0, head.len() as int) =~= head);
        assert(text::split_once(bare, ':') is None);
    }
    if shown == head + key + ":"@ + signature {
        assert(shown.skip(head.len() as int) =~= key + seq![':'] + signature);
        assert(shown.subrange(0, head.len() as int) =~= head);
        text::lemma_split_once(key, ':', signature);
    }
}

/// A listing of online nodes is as long as was asked for, or names all of them.
pub proof fn listings_are_as_long_as_they_can_be<L, M>(
    sm: &ArkelStateMachine<L, M>,
    count: usize,
    r: Vec<(Vec<u8>, String, Option<String>)>,
)
    requires
        call_ensures(ArkelStateMachine::<L, M>::get_healthy_nodes, (sm, count), r),
    ensures
        ({
            let nodes = sm.index().nodes;
            let up = nodes.dom().filter(|id: Seq<u8>| nodes[id].status == NodeStatus::Online);
            r@.len() == (if count < up.len() {
                count as nat
            } else {
                up.len()
            })
        }),
{
    let nodes = sm.index().nodes;
    assert(nodes.dom().filter(|id: Seq<u8>| nodes[id].status == NodeStatus::Online)
        =~= machine::online(nodes));
}

/// The keys of a bucket are listed in order.
pub proof fn keys_are_listed_in_order<L, M>(
    sm: &ArkelStateMachine<L, M>,
    bucket: &str,
    r: Vec<String>,
    i: int,
    j: int,
)
    requires
        call_ensures(ArkelStateMachine::<L, M>::list_objects, (sm, bucket), r),
        0 <= i < j < r@.len(),
    ensures
        order::text_le(r@[i]@, r@[j]@),
{
    let keys = text::texts(r@);
    sorted_texts_are_in_order(keys, i, j);
    assert(keys[i] == r@[i]@ && keys[j] == r@[j]@);
}

/// The question about shards names them in hexadecimal, with commas between them.
pub proof fn questions_name_the_shards(
    hashes: &Vec<[u8; 32]>,
    r: String,
    a: [u8; 32],
    b: [u8; 32],
)
    requires
        call_ensures(remote::gc_route, (hashes,), r),
    ensures
        "shards/gc-candidates?hashes="@.is_prefix_of(r@),
        hashes@.len() == 0 ==> r@ == "shards/gc-candidates?hashes="@,
        hashes@ == seq![a] ==> r@ == "shards/gc-candidates?hashes="@ + codec::hex_text(a@),
        hashes@ == seq![a, b] ==> r@ == "shards/gc-candidates?hashes="@ + codec::hex_text(a@)
            + ","@ + codec::hex_text(b@),
{
    let head = "shards/gc-candidates?hashes="@;
    let parts = remote::hex_list(hashes@);
    let tail = text::joined(parts, ","@);
    assert(r@.subrange(0, head.len() as int) =~= head);
    if hashes@.len() == 0 {
        assert(tail =~= Seq::<char>::empty());
        assert(r@ =~= head);
    }
    if hashes@ == seq![a] {
        assert(parts.len() == 1);
        assert(tail == parts[0]);
    }
    if hashes@ == seq![a, b] {
        let one = parts.drop_last();
        assert(one.len() == 1);
        assert(text::joined(one, ","@) == one[0]);
        assert(tail == one[0] + ","@ + parts.last());
        assert(r@ =~= head + codec::hex_text(a@) + ","@ + codec::hex_text(b@));
    }
}

/// The listing of the registry shows each node once, with all that is known of it.
pub proof fn the_registry_is_listed_in_full<L, M>(
    sm: &ArkelStateMachine<L, M>,
    r: Vec<(Vec<u8>, NodeStats)>,
    id: Seq<u8>,
)
    requires
        call_ensures(ArkelStateMachine::<L, M>::list_all_node_stats, (sm,), r),
    ensures
        (exists|i: int| 0 <= i < r@.len() && (#[trigger] r@[i]).0@ == id)
            <==> sm.index().nodes.dom().contains(id),
        forall|i: int|
            0 <= i < r@.len() && (#[trigger] r@[i]).0@ == id ==> r@[i].1@ == sm.index().nodes[id],
        forall|i: int, j: int|
            0 <= i < j < r@.len() ==> (#[trigger] r@[i]).0@ != (#[trigger] r@[j]).0@,
{
    let nodes = sm.index().nodes;
    if exists|i: int| 0 <= i < r@.len() && (#[trigger] r@[i]).0@ == id {
        let i = choose|i: int| 0 <= i < r@.len() && (#[trigger] r@[i]).0@ == id;
        crate::table::lemma_row(r@, i);
    }
    if nodes.dom().contains(id) {
        let i = crate::table::place(r@, id);
        assert(r@[i].0@ == id);
    }
    assert forall|i: int| 0 <= i < r@.len() && (#[trigger] r@[i]).0@ == id implies r@[i].1@
        == nodes[id] by {
        crate::table::lemma_row(r@, i);
    }
}

} // verus!
