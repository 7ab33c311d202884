//! Laws of the services: what their decisions come to, call by call.
//!
//! `call_ensures(f, args, r)` says that a call of `f` with `args` may return `r`.
use vstd::prelude::*;
use vstd::std_specs::hash::DefaultHasherAdditionalSpecFns;

use crate::audit;
use crate::bytes;
use crate::client::manifest::{Manifest, ShardPlacement};
use crate::codec;
use crate::dataplane;
use crate::dataplane::erasure;
use crate::dataplane::erasure::{ErasureConfig, Pieces};
use crate::dataplane::{PipelineError, PreparedUpload};
use crate::identity;
use crate::identity::NodeIdentity;
use crate::index::effects;
use crate::index::types::IndexNodeRequest;
use crate::keys;
use crate::node;
use crate::node::{ArkelIndexNode, ArkelNode, Bootstrap, MemberView, NodeMode};
use crate::repair;
use crate::repair::{Healing, RepairPass, Verdict};
use crate::storage;
use crate::storage::{DiskStore, ShardId};
use crate::table;
use crate::text;

verus! {

/// What a filter keeps of a list are its members with the property.
pub proof fn filters_keep_members<A>(s: Seq<A>, pred: spec_fn(A) -> bool, x: A)
    ensures
        s.filter(pred).contains(x) <==> s.contains(x) && pred(x),
        s.filter(pred).len() <= s.len(),
    decreases s.len(),
{
    if s.len() == 0 {
        s.lemma_filter_len(pred);
    } else {
        let front = s.drop_last();
        let last = s.last();
        filters_keep_members(front, pred, x);
        front.lemma_filter_push(last, pred);
        assert(front.push(last) =~= s);
        let kept = front.filter(pred);
        if pred(last) {
            if kept.push(last).contains(x) && x != last {
                let i = choose|i: int| 0 <= i < kept.push(last).len() && kept.push(last)[i] == x;
                assert(kept[i] == x);
            }
            if kept.contains(x) {
                let i = choose|i: int| 0 <= i < kept.len() && kept[i] == x;
                assert(kept.push(last)[i] == x);
            }
            assert(kept.push(last)[kept.len() as int] == last);
        }
        if front.contains(x) {
            let i = choose|i: int| 0 <= i < front.len() && front[i] == x;
            assert(s[i] == x);
        }
        if s.contains(x) && x != last {
            let i = choose|i: int| 0 <= i < s.len() && s[i] == x;
            assert(front[i] == x);
        }
    }
}

/// What is done with an object. Too few shards to decode make it unrecoverable. It is
/// left alone only where every shard was fetched, the scheme is the one that the pool
/// carries, and there are as many nodes as shards. In all other cases it is healed; so
/// a recoverable object that misses a shard never stays as it is.
pub proof fn sick_objects_are_healed(
    m: &Manifest,
    avail: usize,
    effective: ErasureConfig,
    r: Verdict,
)
    requires
        call_ensures(repair::verdict, (m, avail, effective), r),
    ensures
        r == Verdict::Unrecoverable <==> avail < m.k,
        m.k <= avail < m.k + m.m ==> r == Verdict::Heal,
        r == Verdict::Healthy ==> avail >= m.k + m.m && m.k == effective.k && m.m == effective.m,
        avail >= m.k && (m.k != effective.k || m.m != effective.m) ==> r == Verdict::Heal,
        ({
            let nodes = Set::new(
                |id: Seq<u8>|
                    exists|i: int| 0 <= i < m.shards@.len() && (#[trigger] m.shards@[i]).node_id@ == id,
            );
            &&& nodes.finite()
            &&& avail >= m.k + m.m && m.k == effective.k && m.m == effective.m ==> (r
                == Verdict::Healthy <==> nodes.len() >= m.k + m.m)
        }),
{
    let nodes = Set::new(
        |id: Seq<u8>|
            exists|i: int| 0 <= i < m.shards@.len() && (#[trigger] m.shards@[i]).node_id@ == id,
    );
    let ids = m.shards@.map_values(|p: ShardPlacement| p.node_id@);
    assert(nodes =~= ids.to_set()) by {
        assert forall|id: Seq<u8>| #[trigger] nodes.contains(id) <==> ids.to_set().contains(id) by {
            if nodes.contains(id) {
                let i = choose|i: int|
                    0 <= i < m.shards@.len() && (#[trigger] m.shards@[i]).node_id@ == id;
                assert(ids[i] == id);
            }
            if ids.contains(id) {
                let i = choose|i: int| 0 <= i < ids.len() && ids[i] == id;
                assert(m.shards@[i].node_id@ == id);
            }
        }
    }
    vstd::seq_lib::seq_to_set_is_finite(ids);
}

/// A shard is fetched unless its node is among those marked offline.
pub proof fn offline_nodes_are_not_asked(
    offline: &Vec<[u8; 32]>,
    p: &ShardPlacement,
    r: bool,
)
    requires
        call_ensures(repair::worth_fetching, (offline, p), r),
    ensures
        r <==> forall|i: int| 0 <= i < offline@.len() ==> (#[trigger] offline@[i])@ != p.node_id@,
{
}

/// Shards are counted as available where something was fetched, and an object needs
/// new ones where some are missing but enough are there.
pub proof fn available_shards_are_counted(
    m: &Manifest,
    fetched: &Vec<Option<Vec<u8>>>,
    avail: usize,
    needy: bool,
)
    requires
        call_ensures(repair::count_available, (fetched,), avail),
        call_ensures(repair::needs_shards, (m, avail), needy),
    ensures
        avail == fetched@.filter(|s: Option<Vec<u8>>| s is Some).len(),
        needy <==> m.k <= avail && avail < m.k + m.m,
{
    lemma_available(fetched@);
}

proof fn lemma_available(fetched: Seq<Option<Vec<u8>>>)
    ensures
        erasure::present(erasure::owned_pieces(fetched)) == fetched.filter(
            |s: Option<Vec<u8>>| s is Some,
        ).len(),
    decreases fetched.len(),
{
    let pred = |s: Option<Vec<u8>>| s is Some;
    let p = erasure::owned_pieces(fetched);
    if fetched.len() > 0 {
        lemma_available(fetched.drop_last());
        fetched.drop_last().lemma_filter_push(fetched.last(), pred);
        assert(fetched.drop_last().push(fetched.last()) =~= fetched);
        assert(p.drop_last() =~= erasure::owned_pieces(fetched.drop_last()));
    } else {
        fetched.lemma_filter_len(pred);
    }
}

/// Looking after an object comes to what the verdict on it says: shards are made anew
/// where it is to be healed, as many as the scheme of the pool has.
pub proof fn healing_follows_the_verdict(
    m: &Manifest,
    fetched: Vec<Option<Vec<u8>>>,
    effective: ErasureConfig,
    avail: usize,
    verdict: Verdict,
    r: Result<Healing, PipelineError>,
)
    requires
        call_ensures(repair::count_available, (&fetched,), avail),
        call_ensures(repair::verdict, (m, avail, effective), verdict),
        call_ensures(repair::heal, (m, fetched, effective), r),
    ensures
        verdict == Verdict::Healthy <==> r is Ok && r->Ok_0 is Healthy,
        verdict == Verdict::Unrecoverable <==> r is Ok && r->Ok_0 is Unrecoverable,
        verdict == Verdict::Heal <==> r is Err || r->Ok_0 is Shards,
        r is Ok && r->Ok_0 is Shards ==> r->Ok_0->Shards_0@.len() == effective.k + effective.m,
{
}

/// Healing restores an object to full strength: where shards of an upload are lost but
/// at least `k` of them were fetched, new shards come out, and any `k` of the new
/// scheme give the object back.
pub proof fn healed_uploads_give_the_object_back(
    upload: PreparedUpload,
    data: Seq<u8>,
    config: ErasureConfig,
    master: Seq<u8>,
    m: &Manifest,
    fetched: Vec<Option<Vec<u8>>>,
    effective: ErasureConfig,
    r: Result<Healing, PipelineError>,
    pieces: Pieces,
)
    requires
        dataplane::holds(upload, data, config, master),
        m.k == config.k,
        m.m == config.m,
        m.ciphertext_size == upload.ciphertext_size,
        m.shards@.len() == upload.shards@.len(),
        forall|i: int| 0 <= i < m.shards@.len() ==> (#[trigger] m.shards@[i]).shard_index == i,
        fetched@.len() == m.shards@.len(),
        forall|i: int|
            0 <= i < fetched@.len() && (#[trigger] fetched@[i]) is Some ==> fetched@[i]->0@
                == upload.shards@[i]@,
        config.k <= fetched@.filter(|s: Option<Vec<u8>>| s is Some).len() < config.k + config.m,
        effective.k >= 1,
        effective.m >= 1,
        effective.k + effective.m <= 256,
        call_ensures(repair::heal, (m, fetched, effective), r),
    ensures
        r is Ok,
        r->Ok_0 is Shards,
        r->Ok_0->Shards_0@.len() == effective.k + effective.m,
        ({
            let shards = r->Ok_0->Shards_0@;
            pieces.len() == shards.len() && (forall|i: int|
                0 <= i < pieces.len() && (#[trigger] pieces[i]) is Some ==> pieces[i]->0
                    == shards[i]@) && pieces.filter(|s: Option<Seq<u8>>| s is Some).len()
                >= effective.k ==> dataplane::reconstructed(
                pieces,
                effective,
                master,
                keys::digest_of(data),
                upload.ciphertext_size as nat,
            ) == Ok::<Seq<u8>, PipelineError>(data)
        }),
{
    let f = erasure::owned_pieces(fetched@);
    lemma_available(fetched@);
    dataplane::fetched_in_order(m.shards@, f);
    assert(erasure::taken_from(f, bytes::contents(upload.shards@))) by {
        assert forall|i: int| 0 <= i < f.len() && (#[trigger] f[i]) is Some implies f[i]->0
            == bytes::contents(upload.shards@)[i] by {
            assert(fetched@[i] is Some);
        }
    }
    let size = upload.ciphertext_size as nat;
    assert(dataplane::reconstructed(f, config, master, keys::digest_of(data), size) == Ok::<
        Seq<u8>,
        PipelineError,
    >(data));
    let old_text = erasure::decoded(f, config, size);
    assert(old_text is Ok);
    let shards = bytes::contents(r->Ok_0->Shards_0@);
    if pieces.len() == shards.len() && (forall|i: int|
        0 <= i < pieces.len() && (#[trigger] pieces[i]) is Some ==> pieces[i]->0
            == r->Ok_0->Shards_0@[i]@) && pieces.filter(|s: Option<Seq<u8>>| s is Some).len()
        >= effective.k {
        assert(erasure::taken_from(pieces, shards));
        lemma_pieces(pieces);
    }
}

proof fn lemma_pieces(pieces: Pieces)
    ensures
        erasure::present(pieces) == pieces.filter(|s: Option<Seq<u8>>| s is Some).len(),
    decreases pieces.len(),
{
    let pred = |s: Option<Seq<u8>>| s is Some;
    if pieces.len() > 0 {
        lemma_pieces(pieces.drop_last());
        pieces.drop_last().lemma_filter_push(pieces.last(), pred);
        assert(pieces.drop_last().push(pieces.last()) =~= pieces);
    } else {
        pieces.lemma_filter_len(pred);
    }
}

/// A repair pass goes on until as many objects were fixed as its limit says.
pub proof fn passes_end_at_their_limit(limit: usize, pass: RepairPass, on: bool, fixed: usize)
    requires
        call_ensures(RepairPass::goes_on, (&pass,), on),
        call_ensures(RepairPass::fixed, (&pass,), fixed),
    ensures
        on <==> fixed < pass.limit(),
        call_ensures(RepairPass::new, (limit,), pass) ==> fixed == 0 && (on <==> limit > 0),
{
}

/// A node is marked offline once it failed to serve two shards, and is named once.
pub proof fn two_failures_doom_a_node(failures: &Vec<Vec<u8>>, r: Vec<Vec<u8>>, id: Seq<u8>)
    requires
        call_ensures(audit::doomed, (failures,), r),
    ensures
        (exists|i: int| 0 <= i < r@.len() && (#[trigger] r@[i])@ == id) <==> effects::times(
            failures@,
            id,
        ) >= 2,
        forall|i: int, j: int|
            0 <= i < j < r@.len() ==> (#[trigger] r@[i])@ != (#[trigger] r@[j])@,
{
    let all = bytes::contents(failures@);
    let named = bytes::contents(r@);
    effects::occurrences_are_counted(all, id);
    assert(all =~= failures@.map_values(|b: Vec<u8>| b@));
    if named.contains(id) {
        let i = choose|i: int| 0 <= i < named.len() && named[i] == id;
        assert(r@[i]@ == id);
    }
    if exists|i: int| 0 <= i < r@.len() && (#[trigger] r@[i])@ == id {
        let i = choose|i: int| 0 <= i < r@.len() && (#[trigger] r@[i])@ == id;
        assert(named[i] == id);
    }
    assert forall|i: int, j: int| 0 <= i < j < r@.len() implies (#[trigger] r@[i])@ != (
    #[trigger] r@[j])@ by {
        assert(named[i] != named[j]);
    }
}

/// Doomed nodes are marked offline by name; where there are none, nothing is done.
pub proof fn doomed_nodes_are_marked(doomed: Vec<Vec<u8>>, r: Option<IndexNodeRequest>)
    requires
        call_ensures(audit::mark_command, (doomed,), r),
    ensures
        r is None <==> doomed@.len() == 0,
        r is Some ==> r->0 is MarkNodesOffline && r->0->MarkNodesOffline_node_ids@ == doomed@,
{
}

/// An audit knows a node by its identifier, where that is a public key.
pub proof fn audits_dial_public_keys(node_id: &[u8], r: Option<[u8; 32]>)
    requires
        call_ensures(audit::audit_key, (node_id,), r),
    ensures
        node_id@.len() == 32 ==> (r is Some <==> keys::valid_key(node_id@)),
        node_id@.len() == 32 && r is Some ==> r->0@ == node_id@,
        r is Some ==> keys::valid_key(r->0@),
        node_id@.len() != 32 && r is Some ==> forall|i: int| 0 <= i < 32 ==> r->0@[i] == 0,
{
}

/// The placements that an audit samples from are those of all manifests.
pub proof fn audits_see_every_placement(
    manifests: &Vec<Manifest>,
    r: Vec<ShardPlacement>,
    p: ShardPlacement,
)
    requires
        call_ensures(audit::all_placements, (manifests,), r),
    ensures
        r@.contains(p) <==> exists|i: int|
            0 <= i < manifests@.len() && (#[trigger] manifests@[i]).shards@.contains(p),
{
    lemma_placements(manifests@, p);
}

proof fn lemma_placements(manifests: Seq<Manifest>, p: ShardPlacement)
    ensures
        audit::placements_of(manifests).contains(p) <==> exists|i: int|
            0 <= i < manifests.len() && (#[trigger] manifests[i]).shards@.contains(p),
    decreases manifests.len(),
{
    if manifests.len() > 0 {
        let n = manifests.len() - 1;
        let front = manifests.drop_last();
        let a = audit::placements_of(front);
        let b = manifests.last().shards@;
        lemma_placements(front, p);
        if (a + b).contains(p) {
            let k = choose|k: int| 0 <= k < (a + b).len() && (a + b)[k] == p;
            if k < a.len() {
                assert(a[k] == p);
                let i = choose|i: int|
                    0 <= i < front.len() && (#[trigger] front[i]).shards@.contains(p);
                assert(manifests[i].shards@.contains(p));
            } else {
                assert(b[k - a.len()] == p);
                assert(manifests[n].shards@.contains(p));
            }
        }
        if exists|i: int|
            0 <= i < manifests.len() && (#[trigger] manifests[i]).shards@.contains(p) {
            let i = choose|i: int|
                0 <= i < manifests.len() && (#[trigger] manifests[i]).shards@.contains(p);
            if i < n {
                assert(front[i].shards@.contains(p));
                let k = choose|k: int| 0 <= k < a.len() && a[k] == p;
                assert((a + b)[k] == p);
            } else {
                let k = choose|k: int| 0 <= k < b.len() && b[k] == p;
                assert((a + b)[a.len() + k] == p);
            }
        }
    }
}

/// A sample has as many placements as were asked for, or all of them, and no others
/// than there are.
pub proof fn samples_come_from_the_list(
    all: &Vec<ShardPlacement>,
    count: usize,
    r: Vec<ShardPlacement>,
)
    requires
        call_ensures(audit::sample_placements, (all, count), r),
    ensures
        r@.len() <= count,
        r@.len() <= all@.len(),
        r@.len() == count || r@.len() == all@.len(),
        forall|i: int| 0 <= i < r@.len() ==> all@.contains(#[trigger] r@[i]),
        all@.no_duplicates() ==> r@.no_duplicates(),
{
    let order = choose|order: Seq<usize>| #[trigger]
        dataplane::distinct_places(order, all@.len()) && order.len() == r@.len() && forall|i: int|
            0 <= i < order.len() ==> (#[trigger] r@[i]) == all@[order[i] as int];
    assert forall|i: int| 0 <= i < r@.len() implies all@.contains(#[trigger] r@[i]) by {
        assert(order[i] < all@.len());
        assert(all@[order[i] as int] == r@[i]);
    }
    if all@.no_duplicates() {
        assert forall|i: int, j: int|
            0 <= i < r@.len() && 0 <= j < r@.len() && i != j implies r@[i] != r@[j] by {
            assert(r@[i] == all@[order[i] as int]);
            assert(r@[j] == all@[order[j] as int]);
            assert(order[i] != order[j]);
            assert(order[i] < all@.len() && order[j] < all@.len());
        }
    }
}

/// How often and how much is audited, and what lag makes a node stale.
pub proof fn audits_have_their_measure()
    ensures
        audit::SAMPLE == 32,
        audit::FAIL_THRESHOLD == 2,
        audit::DEFAULT_INTERVAL_SECS == 3600,
        node::LAG_THRESHOLD == 50,
{
}

/// The nodes that count as stale are those last seen more than 50 log entries ago.
pub proof fn silent_nodes_go_stale(
    lags: &Vec<(Vec<u8>, u64)>,
    current: u64,
    r: Vec<Vec<u8>>,
    id: Seq<u8>,
)
    requires
        call_ensures(node::stale_nodes, (lags, current), r),
    ensures
        (exists|i: int| 0 <= i < r@.len() && (#[trigger] r@[i])@ == id) <==> exists|i: int|
            0 <= i < lags@.len() && (#[trigger] lags@[i]).0@ == id && current > lags@[i].1 + 50,
        r@.len() <= lags@.len(),
{
    let pred = |l: (Vec<u8>, u64)| node::is_stale(current, l.1);
    let stale = lags@.filter(pred);
    let named = bytes::contents(r@);
    assert(named == node::lag_ids(stale));
    assert(named.len() == r@.len());
    lags@.lemma_filter_len(pred);
    assert(stale.len() == named.len());
    if exists|i: int| 0 <= i < r@.len() && (#[trigger] r@[i])@ == id {
        let i = choose|i: int| 0 <= i < r@.len() && (#[trigger] r@[i])@ == id;
        assert(named[i] == id);
        assert(stale[i].0@ == id);
        filters_keep_members(lags@, pred, stale[i]);
        assert(stale.contains(stale[i]));
        let j = choose|j: int| 0 <= j < lags@.len() && lags@[j] == stale[i];
        assert(lags@[j].0@ == id);
    }
    if exists|i: int|
        0 <= i < lags@.len() && (#[trigger] lags@[i]).0@ == id && current > lags@[i].1 + 50 {
        let i = choose|i: int|
            0 <= i < lags@.len() && (#[trigger] lags@[i]).0@ == id && current > lags@[i].1 + 50;
        filters_keep_members(lags@, pred, lags@[i]);
        assert(lags@.contains(lags@[i]));
        let j = choose|j: int| 0 <= j < stale.len() && stale[j] == lags@[i];
        assert(named[j] == id);
        assert(r@[j]@ == id);
    }
}

/// The members of a new cluster are this node, as it describes itself, and its peers,
/// each under its number; the node with the lowest number sets the cluster up.
pub proof fn clusters_have_all_their_members(
    me: &ArkelIndexNode,
    peers: &Vec<ArkelIndexNode>,
    r: Bootstrap,
    id: u64,
)
    requires
        call_ensures(node::initial_members, (me, peers), r),
    ensures
        (exists|i: int| 0 <= i < r.members@.len() && (#[trigger] r.members@[i]).0 == id) <==> id
            == me.id || exists|i: int| 0 <= i < peers@.len() && (#[trigger] peers@[i]).id == id,
        forall|i: int|
            0 <= i < r.members@.len() && (#[trigger] r.members@[i]).0 == me.id
                ==> r.members@[i].1@ == me@,
        forall|i: int|
            0 <= i < r.members@.len() && (#[trigger] r.members@[i]).0 != me.id ==> exists|j: int|
                0 <= j < peers@.len() && (#[trigger] peers@[j]).id == r.members@[i].0 && peers@[j]@
                    == r.members@[i].1@,
        forall|i: int, j: int|
            0 <= i < j < r.members@.len() ==> (#[trigger] r.members@[i]).0 != (
            #[trigger] r.members@[j]).0,
        r.initialize <==> forall|i: int|
            0 <= i < peers@.len() ==> me.id <= (#[trigger] peers@[i]).id,
{
    let views = node::member_views(peers@);
    let all = views.push(me@);
    let map = node::members_of(all);
    assert(all.drop_last() =~= views);
    lemma_members(views);
    assert(map == node::members_of(views).insert(me.id, me@));
    if exists|i: int| 0 <= i < r.members@.len() && (#[trigger] r.members@[i]).0 == id {
        let i = choose|i: int| 0 <= i < r.members@.len() && (#[trigger] r.members@[i]).0 == id;
        table::lemma_row(r.members@, i);
        assert(r.members@[i].0@ == id);
        if id != me.id {
            assert(node::members_of(views).dom().contains(id));
            let j = choose|j: int|
                0 <= j < views.len() && (#[trigger] views[j]).id == id && node::members_of(
                    views,
                )[id] == views[j];
            assert(peers@[j].id == id);
        }
    }
    if id == me.id || exists|i: int| 0 <= i < peers@.len() && (#[trigger] peers@[i]).id == id {
        if id != me.id {
            let j = choose|j: int| 0 <= j < peers@.len() && (#[trigger] peers@[j]).id == id;
            assert(views[j].id == id);
            assert(node::members_of(views).dom().contains(id));
        }
        assert(map.dom().contains(id));
        assert(table::map_of(r.members@).dom().contains(id));
        let i = table::place(r.members@, id);
        assert(r.members@[i].0@ == id);
    }
    assert forall|i: int|
        0 <= i < r.members@.len() && (#[trigger] r.members@[i]).0 == me.id implies r.members@[i].1@
        == me@ by {
        table::lemma_row(r.members@, i);
    }
    assert forall|i: int|
        0 <= i < r.members@.len() && (#[trigger] r.members@[i]).0 != me.id implies exists|j: int|
        0 <= j < peers@.len() && (#[trigger] peers@[j]).id == r.members@[i].0 && peers@[j]@
            == r.members@[i].1@ by {
        table::lemma_row(r.members@, i);
        let k = r.members@[i].0;
        assert(node::members_of(views).dom().contains(k));
        let j = choose|j: int|
            0 <= j < views.len() && (#[trigger] views[j]).id == k && node::members_of(views)[k]
                == views[j];
        assert(peers@[j].id == k);
        assert(peers@[j]@ == views[j]);
    }
    assert forall|i: int, j: int| 0 <= i < j < r.members@.len() implies (
    #[trigger] r.members@[i]).0 != (#[trigger] r.members@[j]).0 by {
        assert(r.members@[i].0@ != r.members@[j].0@);
    }
}

proof fn lemma_members(nodes: Seq<MemberView>)
    ensures
        forall|id: u64| #[trigger]
            node::members_of(nodes).dom().contains(id) <==> exists|i: int|
                0 <= i < nodes.len() && (#[trigger] nodes[i]).id == id,
        forall|id: u64| #[trigger]
            node::members_of(nodes).dom().contains(id) ==> exists|i: int|
                0 <= i < nodes.len() && (#[trigger] nodes[i]).id == id && node::members_of(
                    nodes,
                )[id] == nodes[i],
    decreases nodes.len(),
{
    if nodes.len() > 0 {
        let front = nodes.drop_last();
        let n = nodes.len() - 1;
        lemma_members(front);
        let before = node::members_of(front);
        assert(node::members_of(nodes) == before.insert(nodes.last().id, nodes.last()));
        assert forall|id: u64| #[trigger] node::members_of(nodes).dom().contains(id)
            <==> exists|i: int| 0 <= i < nodes.len() && (#[trigger] nodes[i]).id == id by {
            if node::members_of(nodes).dom().contains(id) {
                if id == nodes.last().id {
                    assert(nodes[n].id == id);
                } else {
                    assert(before.dom().contains(id));
                    let i = choose|i: int| 0 <= i < front.len() && (#[trigger] front[i]).id == id;
                    assert(nodes[i].id == id);
                }
            }
            if exists|i: int| 0 <= i < nodes.len() && (#[trigger] nodes[i]).id == id {
                let i = choose|i: int| 0 <= i < nodes.len() && (#[trigger] nodes[i]).id == id;
                if i < n {
                    assert(front[i].id == id);
                    assert(before.dom().contains(id));
                }
            }
        }
        assert forall|id: u64| #[trigger]
            node::members_of(nodes).dom().contains(id) implies exists|i: int|
            0 <= i < nodes.len() && (#[trigger] nodes[i]).id == id && node::members_of(nodes)[id]
                == nodes[i] by {
            if id == nodes.last().id {
                assert(nodes[n].id == id);
            } else {
                assert(before.dom().contains(id));
                let i = choose|i: int|
                    0 <= i < front.len() && (#[trigger] front[i]).id == id && node::members_of(
                        front,
                    )[id] == front[i];
                assert(nodes[i].id == id);
            }
        }
    }
}

/// The contents of a member are its fields.
pub proof fn members_show_their_fields(n: ArkelIndexNode)
    ensures
        n@.id == n.id,
        n@.rpc_url == n.params.rpc_url@,
        n@.bind_addr == n.params.bind_addr@,
        n@.http_addr == n.params.http_addr@,
        n@.peer_addresses.len() == n.bootstrap.peer_addresses@.len(),
        forall|i: int|
            0 <= i < n@.peer_addresses.len() ==> #[trigger] n@.peer_addresses[i]
                == n.bootstrap.peer_addresses@[i]@,
{
}

/// The host of a full address stands behind its first `@`; an address without one is
/// all host. A peer is reached there by HTTP.
pub proof fn peers_are_reached_at_their_host(
    key: Seq<char>,
    host: Seq<char>,
    addr: &str,
    h: String,
    url: String,
)
    requires
        !key.contains('@'),
        addr@ == key + seq!['@'] + host || (addr@ == host && !host.contains('@')),
        call_ensures(node::peer_host, (addr,), h),
        call_ensures(node::peer_url_from_addr, (addr,), url),
    ensures
        h@ == host,
        url@ == "http://"@ + host,
{
    if addr@ == key + seq!['@'] + host {
        text::lemma_split_once(key, '@', host);
    } else {
        assert(text::split_once(host, '@') is None);
    }
}

/// A seed address describes a peer: its number comes of the key, the URL of the host,
/// and it knows no further peers.
pub proof fn seed_addresses_describe_peers(
    addr: &str,
    http_addr: &str,
    number: u64,
    url: String,
    r: ArkelIndexNode,
)
    requires
        call_ensures(identity::raft_node_id_from_addr, (addr,), number),
        call_ensures(node::peer_url_from_addr, (addr,), url),
        call_ensures(node::peer_member, (addr, http_addr), r),
    ensures
        r@.id == number,
        r@.rpc_url == url@,
        r@.bind_addr == addr@,
        r@.http_addr == http_addr@,
        r@.peer_addresses.len() == 0,
{
}

/// A peer is another one exactly where its address is not the node's own.
pub proof fn others_are_not_oneself(
    peers: &Vec<String>,
    own_addr: &str,
    r: Vec<String>,
    p: Seq<char>,
)
    requires
        call_ensures(node::other_peers, (peers, own_addr), r),
    ensures
        text::texts(r@).contains(p) <==> text::texts(peers@).contains(p) && p != own_addr@,
{
    let pred = |p: Seq<char>| p != own_addr@;
    let all = text::texts(peers@);
    filters_keep_members(all, pred, p);
}

/// The node that runs here: its number comes of its key; an index node is reached at
/// its HTTP address, and its full address begins with its key.
pub proof fn nodes_run_under_their_key(identity: &NodeIdentity, mode: &NodeMode, r: ArkelNode)
    requires
        call_ensures(ArkelNode::with_identity, (identity, mode), r),
    ensures
        r.id == identity::raft_id(keys::public_of(identity.secret())),
        mode is Index <==> r.node_type is Index,
        mode is Index ==> {
            let p = r.node_type->Index_0;
            &&& p.rpc_url@ == "http://"@ + mode->Index_http_addr@
            &&& p.http_addr@ == mode->Index_http_addr@
            &&& p.bind_addr@ == codec::hex_text(keys::public_of(identity.secret())) + "@"@
                + mode->Index_http_addr@
        },
{
}

/// The number of a key is its first eight bytes, least significant first: each of them
/// can be read off it.
pub proof fn numbers_are_little_endian(key: Seq<u8>)
    requires
        key.len() >= 8,
    ensures
        ({
            let n = identity::raft_id(key);
            &&& 0 <= n <= u64::MAX
            &&& n % 256 == key[0]
            &&& n / 0x100 % 256 == key[1]
            &&& n / 0x1_0000 % 256 == key[2]
            &&& n / 0x100_0000 % 256 == key[3]
            &&& n / 0x1_0000_0000 % 256 == key[4]
            &&& n / 0x100_0000_0000 % 256 == key[5]
            &&& n / 0x1_0000_0000_0000 % 256 == key[6]
            &&& n / 0x100_0000_0000_0000 % 256 == key[7]
        }),
{
    let n7 = key[7] as int;
    let n6 = key[6] + 0x100 * n7;
    let n5 = key[5] + 0x100 * n6;
    let n4 = key[4] + 0x100 * n5;
    let n3 = key[3] + 0x100 * n4;
    let n2 = key[2] + 0x100 * n3;
    let n1 = key[1] + 0x100 * n2;
    let n = key[0] + 0x100 * n1;
    assert(n == identity::raft_id(key));
    lemma_low_byte(key[0], n1);
    lemma_low_byte(key[1], n2);
    lemma_low_byte(key[2], n3);
    lemma_low_byte(key[3], n4);
    lemma_low_byte(key[4], n5);
    lemma_low_byte(key[5], n6);
    lemma_low_byte(key[6], n7);
    vstd::arithmetic::div_mod::lemma_div_denominator(n, 0x100, 0x100);
    vstd::arithmetic::div_mod::lemma_div_denominator(n, 0x1_0000, 0x100);
    vstd::arithmetic::div_mod::lemma_div_denominator(n, 0x100_0000, 0x100);
    vstd::arithmetic::div_mod::lemma_div_denominator(n, 0x1_0000_0000, 0x100);
    vstd::arithmetic::div_mod::lemma_div_denominator(n, 0x100_0000_0000, 0x100);
    vstd::arithmetic::div_mod::lemma_div_denominator(n, 0x1_0000_0000_0000, 0x100);
    assert(n7 % 256 == n7);
}

proof fn lemma_low_byte(low: u8, high: int)
    requires
        high >= 0,
    ensures
        (low + 0x100 * high) % 0x100 == low,
        (low + 0x100 * high) / 0x100 == high,
{
}

/// A node's number is what its full address denotes.
pub proof fn full_addresses_denote_their_node(
    identity: &NodeIdentity,
    addr: &str,
    full: String,
    text: &str,
    number: u64,
    r: u64,
)
    requires
        call_ensures(NodeIdentity::raft_full_addr, (identity, addr), full),
        call_ensures(NodeIdentity::raft_node_id, (identity,), number),
        call_ensures(identity::raft_node_id_from_addr, (text,), r),
        text@ == full@,
        keys::public_of(identity.secret()).len() == 32,
        keys::valid_key(keys::public_of(identity.secret())),
    ensures
        r == number,
{
}

/// What was stored of an identity gives it back; anything but 32 bytes is refused.
pub proof fn stored_identities_come_back(
    identity: &NodeIdentity,
    key: &[u8; 32],
    stored: &[u8],
    r: Result<NodeIdentity, identity::CorruptKey>,
)
    requires
        call_ensures(NodeIdentity::secret_key, (identity,), key),
        call_ensures(NodeIdentity::from_stored, (stored,), r),
    ensures
        r is Ok <==> stored@.len() == 32,
        stored@ == key@ ==> r is Ok && r->Ok_0.secret() == identity.secret(),
{
}

/// A storage node spares exactly the shards that the index did not name.
pub proof fn named_shards_are_not_spared(
    all: &Vec<[u8; 32]>,
    candidates: &Vec<Vec<u8>>,
    r: Vec<[u8; 32]>,
    h: Seq<u8>,
)
    requires
        call_ensures(storage::protect, (all, candidates), r),
    ensures
        (exists|i: int| 0 <= i < r@.len() && (#[trigger] r@[i])@ == h) <==> (exists|i: int|
            0 <= i < all@.len() && (#[trigger] all@[i])@ == h) && !(exists|i: int|
            0 <= i < candidates@.len() && (#[trigger] candidates@[i])@ == h),
{
    let doomed = bytes::contents(candidates@);
    let pred = |h: Seq<u8>| !doomed.contains(h);
    let given = crate::index::machine::hashes(all@);
    let kept = given.filter(pred);
    assert(crate::index::machine::hashes(r@) == kept);
    if exists|i: int| 0 <= i < r@.len() && (#[trigger] r@[i])@ == h {
        let i = choose|i: int| 0 <= i < r@.len() && (#[trigger] r@[i])@ == h;
        assert(kept[i] == h);
        filters_keep_members(given, pred, h);
        assert(kept.contains(h));
        let j = choose|j: int| 0 <= j < given.len() && given[j] == h;
        assert(all@[j]@ == h);
        if exists|i: int| 0 <= i < candidates@.len() && (#[trigger] candidates@[i])@ == h {
            let c = choose|i: int| 0 <= i < candidates@.len() && (#[trigger] candidates@[i])@ == h;
            assert(doomed[c] == h);
        }
    }
    if (exists|i: int| 0 <= i < all@.len() && (#[trigger] all@[i])@ == h) && !(exists|i: int|
        0 <= i < candidates@.len() && (#[trigger] candidates@[i])@ == h) {
        let i = choose|i: int| 0 <= i < all@.len() && (#[trigger] all@[i])@ == h;
        if doomed.contains(h) {
            let c = choose|c: int| 0 <= c < doomed.len() && doomed[c] == h;
            assert(candidates@[c]@ == h);
        }
        assert(given[i] == h);
        filters_keep_members(given, pred, h);
        let j = choose|j: int| 0 <= j < kept.len() && kept[j] == h;
        assert(r@[j]@ == h);
    }
}

/// A pull succeeded exactly where zero came back.
pub proof fn zero_acknowledges(ack: u8, r: bool)
    requires
        call_ensures(storage::pull_accepted, (ack,), r),
    ensures
        r <==> ack == 0,
        storage::PULL_ACK == 0,
        storage::PULL_ALPN@ == "arkel-pull"@,
{
}

/// Sizes add up: those of two lists to those of the whole, and that of one file to
/// itself.
pub proof fn sizes_add_up(a: Seq<u64>, b: Seq<u64>, x: u64)
    ensures
        storage::sum(a + b) == storage::sum(a) + storage::sum(b),
        storage::sum(seq![x]) == x,
        storage::sum(Seq::empty()) == 0,
    decreases b.len(),
{
    if b.len() == 0 {
        assert(a + b =~= a);
    } else {
        assert((a + b).drop_last() =~= a + b.drop_last());
        sizes_add_up(a, b.drop_last(), x);
    }
    assert(seq![x].drop_last() =~= Seq::<u64>::empty());
    assert(storage::sum(Seq::<u64>::empty()) == 0);
}

/// A shard lies in the store's directory under its name in hexadecimal; the file that
/// it is first written to lies beside it.
pub proof fn shards_lie_under_their_name(
    store: &DiskStore,
    id: &ShardId,
    dir: Seq<char>,
    file: String,
    temp: String,
)
    requires
        call_ensures(DiskStore::shard_path, (store, id), file),
        call_ensures(DiskStore::temp_path, (store, id), temp),
        store.root() == dir || store.root() == dir + seq!['/'],
        dir.len() > 0,
        dir.last() != '/',
    ensures
        file@ == dir + "/"@ + codec::hex_text(id.0@) + ".shard"@,
        temp@ == dir + "/"@ + codec::hex_text(id.0@) + ".tmp"@,
{
    reveal_strlit("/");
    reveal_strlit("");
    assert("/"@ =~= seq!['/']);
    assert(file@ =~= dir + "/"@ + codec::hex_text(id.0@) + ".shard"@);
    assert(temp@ =~= dir + "/"@ + codec::hex_text(id.0@) + ".tmp"@);
}

/// The placements of two lists of manifests are those of the first and then those of the
/// second; those of one manifest are its shards.
pub proof fn placements_come_in_order(a: Seq<Manifest>, b: Seq<Manifest>, m: Manifest)
    ensures
        audit::placements_of(a + b) == audit::placements_of(a) + audit::placements_of(b),
        audit::placements_of(seq![m]) == m.shards@,
    decreases b.len(),
{
    if b.len() == 0 {
        assert(a + b =~= a);
        assert(audit::placements_of(a) + Seq::<ShardPlacement>::empty() =~= audit::placements_of(
            a,
        ));
    } else {
        placements_come_in_order(a, b.drop_last(), m);
        assert((a + b).drop_last() =~= a + b.drop_last());
        assert((a + b).last() == b.last());
        let x = audit::placements_of(a);
        let y = audit::placements_of(b.drop_last());
        let z = b.last().shards@;
        assert(x + y + z =~= x + (y + z));
    }
    assert(seq![m].drop_last() =~= Seq::<Manifest>::empty());
    assert(audit::placements_of(Seq::<Manifest>::empty()) =~= Seq::<ShardPlacement>::empty());
    assert(Seq::<ShardPlacement>::empty() + m.shards@ =~= m.shards@);
}

/// A store without a directory keeps its shards where it runs.
pub proof fn shards_may_lie_anywhere(store: &DiskStore, id: &ShardId, file: String, temp: String)
    requires
        call_ensures(DiskStore::shard_path, (store, id), file),
        call_ensures(DiskStore::temp_path, (store, id), temp),
        store.root().len() == 0,
    ensures
        file@ == codec::hex_text(id.0@) + ".shard"@,
        temp@ == codec::hex_text(id.0@) + ".tmp"@,
{
    reveal_strlit("");
    assert(file@ =~= codec::hex_text(id.0@) + ".shard"@);
    assert(temp@ =~= codec::hex_text(id.0@) + ".tmp"@);
}

/// An address whose key cannot be read gets the hash of its text as its number.
pub proof fn unreadable_addresses_are_hashed(addr: &str, r: u64)
    requires
        call_ensures(identity::raft_node_id_from_addr, (addr,), r),
        keys::parsed_key(addr@) is None,
        !addr@.contains('@'),
    ensures
        r == <std::collections::hash_map::DefaultHasher as DefaultHasherAdditionalSpecFns>::spec_finish(
            seq![vstd::utf8::encode_utf8(addr@), seq![0xffu8]],
        ),
{
    assert(text::split_once(addr@, '@') is None);
}

} // verus!
