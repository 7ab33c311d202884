//! The index's audit: storage nodes that fail to serve shards that they should hold.
use vstd::prelude::*;

use crate::bytes;
use crate::client::manifest::{Manifest, ShardPlacement};
use crate::dataplane;
use crate::index::laws;
use crate::index::model;
use crate::index::types::IndexNodeRequest;
use crate::keys;

verus! {

/// How many placements an audit samples.
pub const SAMPLE: usize = 32;

/// How many failures mark a node offline.
pub const FAIL_THRESHOLD: u32 = 2;

/// How often, in seconds, an audit runs by default.
pub const DEFAULT_INTERVAL_SECS: u64 = 3600;

/// The bytes by which an audit knows a node: its identifier, or zeros where that does
/// not have 32 bytes.
pub open spec fn audit_bytes(node_id: Seq<u8>) -> Seq<u8> {
    if node_id.len() == 32 {
        node_id
    } else {
        Seq::new(32, |i: int| 0u8)
    }
}

/// The key under which an audit dials a node; none where the identifier is no key.
pub fn audit_key(node_id: &[u8]) -> (r: Option<[u8; 32]>)
    ensures
        r is Some <==> keys::valid_key(audit_bytes(node_id@)),
        r matches Some(k) ==> k@ == audit_bytes(node_id@),
{
    let key: [u8; 32] = match bytes::to_array32(node_id) {
        Some(k) => k,
        None => [0u8; 32],
    };
    assert(key@ =~= audit_bytes(node_id@));
    if keys::is_key(&key) {
        Some(key)
    } else {
        None
    }
}

/// The placements of some manifests, one manifest after the other.
pub open spec fn placements_of(manifests: Seq<Manifest>) -> Seq<ShardPlacement>
    decreases manifests.len(),
{
    if manifests.len() == 0 {
        seq![]
    } else {
        placements_of(manifests.drop_last()) + manifests.last().shards@
    }
}

/// The placements of some manifests, one manifest after the other.
pub fn all_placements(manifests: &Vec<Manifest>) -> (r: Vec<ShardPlacement>)
    ensures
        r@ == placements_of(manifests@),
{
    let mut out: Vec<ShardPlacement> = Vec::new();
    let mut i: usize = 0;
    while i < manifests.len()
        invariant
            i <= manifests@.len(),
            out@ == placements_of(manifests@.take(i as int)),
        decreases manifests@.len() - i,
    {
        let ghost before = out@;
        let shards = &manifests[i].shards;
        let mut j: usize = 0;
        assert(before + shards@.take(0) =~= before);
        while j < shards.len()
            invariant
                j <= shards@.len(),
                out@ == before + shards@.take(j as int),
            decreases shards@.len() - j,
        {
            out.push(shards[j]);
            j = j + 1;
            assert(out@ =~= before + shards@.take(j as int));
        }
        i = i + 1;
        proof {
            assert(shards@.take(j as int) =~= shards@);
            assert(manifests@.take(i as int).drop_last() =~= manifests@.take(i - 1));
        }
    }
    assert(manifests@.take(i as int) =~= manifests@);
    out
}

/// Picks up to `count` different places of a list at random, and gives what lies
/// there. Which ones is not said.
pub fn sample_placements(all: &Vec<ShardPlacement>, count: usize) -> (r: Vec<ShardPlacement>)
    ensures
        r@.len() == (if count < all@.len() {
            count as int
        } else {
            all@.len() as int
        }),
        exists|order: Seq<usize>| #[trigger]
            dataplane::distinct_places(order, all@.len()) && order.len() == r@.len()
                && forall|i: int| 0 <= i < order.len() ==> (#[trigger] r@[i]) == all@[order[i] as int],
{
    let order = dataplane::random_order(all.len());
    let mut out: Vec<ShardPlacement> = Vec::new();
    let ghost mut picked: Seq<usize> = seq![];
    while out.len() < count && out.len() < all.len()
        invariant
            out@.len() <= count,
            out@.len() <= all@.len(),
            order@.len() == all@.len(),
            dataplane::distinct_places(order@, all@.len()),
            picked == order@.take(out@.len() as int),
            forall|i: int| 0 <= i < out@.len() ==> (#[trigger] out@[i]) == all@[order@[i] as int],
        decreases all@.len() - out@.len(),
    {
        let at: usize = order[out.len()];
        out.push(all[at]);
        proof {
            picked = order@.take(out@.len() as int);
        }
    }
    proof {
        assert(dataplane::distinct_places(picked, all@.len())) by {
            assert forall|j: int| 0 <= j < picked.len() implies (#[trigger] picked[j])
                < all@.len() by {
                assert(picked[j] == order@[j]);
            }
        }
        assert forall|j: int| 0 <= j < picked.len() implies (#[trigger] out@[j])
            == all@[picked[j] as int] by {
            assert(picked[j] == order@[j]);
        }
    }
    out
}

/// Which nodes failed often enough to be marked offline. `failures` holds the
/// identifier of a node once for each shard that it failed to serve.
pub fn doomed(failures: &Vec<Vec<u8>>) -> (r: Vec<Vec<u8>>)
    requires
        failures@.len() <= u32::MAX,
    ensures
        bytes::contents(r@).no_duplicates(),
        forall|id: Seq<u8>| #[trigger]
            bytes::contents(r@).contains(id) <==> model::occurrences(
                bytes::contents(failures@),
                id,
            ) >= FAIL_THRESHOLD,
{
    let ghost all = bytes::contents(failures@);
    let mut out: Vec<Vec<u8>> = Vec::new();
    let mut i: usize = 0;
    while i < failures.len()
        invariant
            i <= failures@.len() <= u32::MAX,
            all == bytes::contents(failures@),
            bytes::contents(out@).no_duplicates(),
            forall|id: Seq<u8>| #[trigger]
                bytes::contents(out@).contains(id) <==> all.take(i as int).contains(id)
                    && model::occurrences(all, id) >= FAIL_THRESHOLD,
        decreases failures@.len() - i,
    {
        let ghost before = bytes::contents(out@);
        let known = bytes::contains_bytes(&out, failures[i].as_slice());
        let n: u32 = count(failures, failures[i].as_slice());
        let ghost id = failures@[i as int]@;
        if n >= FAIL_THRESHOLD && !known {
            out.push(bytes::to_vec(failures[i].as_slice()));
            assert(bytes::contents(out@) =~= before.push(id));
        }
        proof {
            let t = all.take(i + 1);
            let after = bytes::contents(out@);
            assert(t =~= all.take(i as int).push(id));
            assert forall|x: Seq<u8>| #[trigger] after.contains(x) <==> t.contains(x)
                && model::occurrences(all, x) >= FAIL_THRESHOLD by {
                if all.take(i as int).contains(x) {
                    let j = choose|j: int| 0 <= j < i && all.take(i as int)[j] == x;
                    assert(t[j] == x);
                }
                if t.contains(x) && x != id {
                    let j = choose|j: int| 0 <= j < t.len() && t[j] == x;
                    assert(all.take(i as int)[j] == x);
                }
                assert(t[i as int] == id);
                if before.contains(x) {
                    let j = choose|j: int| 0 <= j < before.len() && before[j] == x;
                    assert(after[j] == x);
                }
                if after.contains(x) && x != id {
                    let j = choose|j: int| 0 <= j < after.len() && after[j] == x;
                    assert(before[j] == x);
                }
                if x == id && n >= FAIL_THRESHOLD && !known {
                    assert(after[after.len() - 1] == id);
                }
            }
        }
        i = i + 1;
    }
    proof {
        assert(all.take(i as int) =~= all);
        assert forall|id: Seq<u8>| #[trigger] bytes::contents(out@).contains(id)
            <==> model::occurrences(all, id) >= FAIL_THRESHOLD by {
            laws::occurrences_positive(all, id);
        }
    }
    out
}

fn count(list: &Vec<Vec<u8>>, id: &[u8]) -> (r: u32)
    requires
        list@.len() <= u32::MAX,
    ensures
        r == model::occurrences(bytes::contents(list@), id@),
{
    let ghost all = bytes::contents(list@);
    let mut n: u32 = 0;
    let mut i: usize = 0;
    while i < list.len()
        invariant
            i <= list@.len() <= u32::MAX,
            all == bytes::contents(list@),
            n == model::occurrences(all.take(i as int), id@),
            n <= i,
        decreases list@.len() - i,
    {
        assert(all.take(i + 1).drop_last() =~= all.take(i as int));
        if bytes::same_bytes(list[i].as_slice(), id) {
            n = n + 1;
        }
        i = i + 1;
    }
    assert(all.take(i as int) =~= all);
    n
}

/// The command that marks nodes offline; none where there is nobody to mark.
pub fn mark_command(doomed: Vec<Vec<u8>>) -> (r: Option<IndexNodeRequest>)
    ensures
        r is None <==> doomed@.len() == 0,
        r matches Some(cmd) ==> cmd == (IndexNodeRequest::MarkNodesOffline { node_ids: doomed }),
{
    if doomed.len() == 0 {
        None
    } else {
        Some(IndexNodeRequest::MarkNodesOffline { node_ids: doomed })
    }
}

} // verus!
