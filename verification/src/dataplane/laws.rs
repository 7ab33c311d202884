//! Laws of the object pipeline: what placement, upload and download owe each other.
use vstd::prelude::*;

use crate::bytes;
use crate::client::encrypt;
use crate::client::encrypt::DecryptError;
use crate::client::manifest::{Manifest, ShardPlacement};
use crate::dataplane;
use crate::dataplane::erasure;
use crate::dataplane::erasure::{CodecError, DecodeError, ErasureConfig, Pieces};
use crate::dataplane::{ManifestError, PipelineError, PreparedUpload, StorageTarget};
use crate::gateway;
use crate::keys;
use crate::text;

verus! {

/// The places of some shards that are filled.
pub open spec fn filled_places(pieces: Pieces) -> Set<int> {
    Set::new(|i: int| 0 <= i < pieces.len() && pieces[i] is Some)
}

/// The shards that are present are counted by their places.
pub proof fn present_counts_places(pieces: Pieces)
    ensures
        filled_places(pieces).finite(),
        erasure::present(pieces) == filled_places(pieces).len(),
    decreases pieces.len(),
{
    let all = filled_places(pieces);
    if pieces.len() == 0 {
        assert(all =~= Set::empty());
    } else {
        let n = pieces.len() - 1;
        let front = pieces.drop_last();
        present_counts_places(front);
        if pieces.last() is Some {
            assert(all =~= filled_places(front).insert(n));
            assert(!filled_places(front).contains(n));
        } else {
            assert(all =~= filled_places(front));
        }
    }
}

/// How many shards were fetched.
pub open spec fn fetched_count(fetched: Seq<Option<Seq<u8>>>) -> nat {
    fetched.filter(|s: Option<Seq<u8>>| s is Some).len()
}

/// The shards that are present are those that were fetched.
pub proof fn fetched_shards_are_present(fetched: Seq<Option<Seq<u8>>>)
    ensures
        erasure::present(fetched) == fetched_count(fetched),
    decreases fetched.len(),
{
    let pred = |s: Option<Seq<u8>>| s is Some;
    if fetched.len() > 0 {
        fetched_shards_are_present(fetched.drop_last());
        fetched.drop_last().lemma_filter_push(fetched.last(), pred);
        assert(fetched.drop_last().push(fetched.last()) =~= fetched);
    } else {
        fetched.lemma_filter_len(pred);
    }
}

/// What was fetched for a placement lies in the place that the placement names: a
/// place is filled exactly where something was fetched for it, and holds what was
/// fetched for the last such placement.
pub proof fn places_hold_what_was_fetched(
    total: nat,
    placements: Seq<ShardPlacement>,
    fetched: Seq<Option<Seq<u8>>>,
    p: int,
)
    requires
        fetched.len() == placements.len(),
        forall|i: int| 0 <= i < placements.len() ==> (#[trigger] placements[i]).shard_index < total,
        0 <= p < total,
    ensures
        ({
            let f = dataplane::filled(total, placements, fetched);
            &&& f.len() == total
            &&& f[p] is None ==> forall|i: int|
                0 <= i < placements.len() && (#[trigger] placements[i]).shard_index == p
                    ==> fetched[i] is None
            &&& f[p] is Some ==> exists|i: int|
                0 <= i < placements.len() && (#[trigger] placements[i]).shard_index == p
                    && fetched[i] == f[p] && forall|j: int|
                    i < j < placements.len() && (#[trigger] placements[j]).shard_index == p
                        ==> fetched[j] is None
        }),
    decreases placements.len(),
{
    if placements.len() > 0 {
        let n = placements.len() - 1;
        let ps = placements.drop_last();
        let fs = fetched.drop_last();
        assert forall|i: int| 0 <= i < ps.len() implies (#[trigger] ps[i]).shard_index < total by {
            assert(ps[i] == placements[i]);
        }
        places_hold_what_was_fetched(total, ps, fs, p);
        let before = dataplane::filled(total, ps, fs);
        let f = dataplane::filled(total, placements, fetched);
        assert(placements[n].shard_index < total);
        if f[p] is None {
            assert forall|i: int|
                0 <= i < placements.len() && (#[trigger] placements[i]).shard_index
                    == p implies fetched[i] is None by {
                if i < n {
                    assert(ps[i] == placements[i]);
                }
            }
        } else if placements[n].shard_index == p && fetched[n] is Some {
            assert(fetched[n] == f[p]);
        } else {
            let i = choose|i: int|
                0 <= i < ps.len() && (#[trigger] ps[i]).shard_index == p && fs[i] == before[p]
                    && forall|j: int|
                    i < j < ps.len() && (#[trigger] ps[j]).shard_index == p ==> fs[j] is None;
            assert(placements[i] == ps[i]);
            assert forall|j: int|
                i < j < placements.len() && (#[trigger] placements[j]).shard_index
                    == p implies fetched[j] is None by {
                if j < n {
                    assert(ps[j] == placements[j]);
                }
            }
        }
    }
}

proof fn lemma_padding(
    total: nat,
    placements: Seq<ShardPlacement>,
    fetched: Seq<Option<Seq<u8>>>,
    padded: Seq<Option<Seq<u8>>>,
    n: int,
)
    requires
        fetched.len() <= n <= placements.len(),
        padded.len() == placements.len(),
        forall|i: int|
            0 <= i < padded.len() ==> (#[trigger] padded[i]) == (if i < fetched.len() {
                fetched[i]
            } else {
                None
            }),
    ensures
        dataplane::filled(total, placements.take(n), padded.take(n)) == dataplane::filled(
            total,
            placements.take(fetched.len() as int),
            fetched,
        ),
    decreases n,
{
    if n == fetched.len() {
        assert(padded.take(n) =~= fetched);
    } else {
        lemma_padding(total, placements, fetched, padded, n - 1);
        assert(placements.take(n).drop_last() =~= placements.take(n - 1));
        assert(padded.take(n).drop_last() =~= padded.take(n - 1));
        assert(padded.take(n).last() == padded[n - 1]);
    }
}

/// Fetching stops for good reason: what was fetched is enough exactly where the places
/// it fills do not leave decoding short of shards.
pub proof fn enough_means_decodable(m: Manifest, fetched: Seq<Option<Seq<u8>>>, len: nat)
    requires
        fetched.len() <= m.shards@.len(),
        forall|i: int|
            0 <= i < m.shards@.len() ==> (#[trigger] m.shards@[i]).shard_index < m.k + m.m,
    ensures
        ({
            let places = dataplane::filled(
                (m.k + m.m) as nat,
                m.shards@.take(fetched.len() as int),
                fetched,
            );
            let config = ErasureConfig { k: m.k as usize, m: m.m as usize };
            let r = erasure::decoded(places, config, len);
            &&& dataplane::enough(m, fetched) <==> filled_places(places).len() >= m.k
            &&& dataplane::enough(m, fetched) <==> !(r is Err && r->Err_0 is NotEnough)
        }),
{
    let ps = m.shards@.take(fetched.len() as int);
    let places = dataplane::filled((m.k + m.m) as nat, ps, fetched);
    present_counts_places(places);
    assert forall|i: int| 0 <= i < ps.len() implies (#[trigger] ps[i]).shard_index < m.k + m.m by {
        assert(ps[i] == m.shards@[i]);
    }
    if m.k + m.m > 0 {
        places_hold_what_was_fetched((m.k + m.m) as nat, ps, fetched, 0);
    } else {
        lemma_filled_len((m.k + m.m) as nat, ps, fetched);
    }
}

proof fn lemma_filled_len(
    total: nat,
    placements: Seq<ShardPlacement>,
    fetched: Seq<Option<Seq<u8>>>,
)
    requires
        fetched.len() == placements.len(),
        forall|i: int| 0 <= i < placements.len() ==> (#[trigger] placements[i]).shard_index < total,
    ensures
        dataplane::filled(total, placements, fetched).len() == total,
    decreases placements.len(),
{
    if placements.len() > 0 {
        let ps = placements.drop_last();
        assert forall|i: int| 0 <= i < ps.len() implies (#[trigger] ps[i]).shard_index < total by {
            assert(ps[i] == placements[i]);
        }
        assert(placements[placements.len() - 1].shard_index < total);
        lemma_filled_len(total, placements.drop_last(), fetched.drop_last());
    }
}

/// A download that stops with enough gives the object back: where the shards fetched
/// so far are those of an upload, and the rest is left out, they reconstruct it.
pub proof fn enough_gives_back_upload(
    upload: PreparedUpload,
    data: Seq<u8>,
    config: ErasureConfig,
    master: Seq<u8>,
    manifest: Manifest,
    fetched: Seq<Option<Seq<u8>>>,
    padded: Seq<Option<Seq<u8>>>,
)
    requires
        dataplane::holds(upload, data, config, master),
        manifest.k == config.k,
        manifest.m == config.m,
        manifest.object_hash == upload.object_hash,
        manifest.ciphertext_size == upload.ciphertext_size,
        manifest.shards@.len() == upload.shards@.len(),
        forall|i: int|
            0 <= i < manifest.shards@.len() ==> (#[trigger] manifest.shards@[i]).shard_index == i,
        fetched.len() <= manifest.shards@.len(),
        forall|i: int|
            0 <= i < fetched.len() && (#[trigger] fetched[i]) is Some ==> fetched[i]->0
                == upload.shards@[i]@,
        padded.len() == manifest.shards@.len(),
        forall|i: int|
            0 <= i < padded.len() ==> (#[trigger] padded[i]) == (if i < fetched.len() {
                fetched[i]
            } else {
                None
            }),
        dataplane::enough(manifest, fetched),
    ensures
        dataplane::reconstructed(
            dataplane::filled((manifest.k + manifest.m) as nat, manifest.shards@, padded),
            ErasureConfig { k: manifest.k as usize, m: manifest.m as usize },
            master,
            manifest.object_hash@,
            manifest.ciphertext_size as nat,
        ) == Ok::<Seq<u8>, PipelineError>(data),
{
    let n = manifest.shards@.len() as int;
    lemma_padding((manifest.k + manifest.m) as nat, manifest.shards@, fetched, padded, n);
    assert(manifest.shards@.take(n) =~= manifest.shards@);
    assert(padded.take(n) =~= padded);
    dataplane::fetched_in_order(manifest.shards@, padded);
    assert(erasure::taken_from(padded, bytes::contents(upload.shards@))) by {
        assert forall|i: int| 0 <= i < padded.len() && (#[trigger] padded[i]) is Some implies padded[i]->0
            == bytes::contents(upload.shards@)[i] by {
            assert(fetched[i] is Some);
        }
    }
    dataplane::download_gives_back_upload(upload, data, config, master, manifest, padded);
}

/// A download of an object whose placements are in order goes on until `k` shards were
/// fetched, and no further.
pub proof fn downloads_take_k_shards(m: Manifest, fetched: Seq<Option<Seq<u8>>>)
    requires
        m.shards@.len() == m.k + m.m,
        forall|i: int| 0 <= i < m.shards@.len() ==> (#[trigger] m.shards@[i]).shard_index == i,
        fetched.len() <= m.shards@.len(),
    ensures
        dataplane::enough(m, fetched) <==> fetched_count(fetched) >= m.k,
{
    let n = m.shards@.len();
    let padded = Seq::new(
        n,
        |i: int|
            if i < fetched.len() {
                fetched[i]
            } else {
                None
            },
    );
    lemma_padding(n, m.shards@, fetched, padded, n as int);
    assert(m.shards@.take(n as int) =~= m.shards@);
    assert(padded.take(n as int) =~= padded);
    dataplane::fetched_in_order(m.shards@, padded);
    lemma_pad_present(fetched, n);
    fetched_shards_are_present(fetched);
}

proof fn lemma_pad_present(fetched: Seq<Option<Seq<u8>>>, n: nat)
    requires
        fetched.len() <= n,
    ensures
        erasure::present(
            Seq::new(
                n,
                |i: int|
                    if i < fetched.len() {
                        fetched[i]
                    } else {
                        None
                    },
            ),
        ) == erasure::present(fetched),
    decreases n,
{
    let pad = |k: nat|
        Seq::new(
            k,
            |i: int|
                if i < fetched.len() {
                    fetched[i]
                } else {
                    None::<Seq<u8>>
                },
        );
    if n == fetched.len() {
        assert(pad(n) =~= fetched);
    } else {
        lemma_pad_present(fetched, (n - 1) as nat);
        assert(pad(n).drop_last() =~= pad((n - 1) as nat));
    }
}

/// The nodes take turns: as long as there are nodes left each shard goes to the next
/// one, and then the turn begins anew.
pub proof fn nodes_take_turns(i: int, nodes: nat)
    requires
        i >= 0,
        nodes > 0,
    ensures
        i < nodes ==> dataplane::round_robin(i, nodes) == i,
        dataplane::round_robin(i + nodes, nodes) == dataplane::round_robin(i, nodes),
        0 <= dataplane::round_robin(i, nodes) < nodes,
{
    vstd::arithmetic::div_mod::lemma_mod_add_multiples_vanish(i, nodes as int);
    if i < nodes {
        vstd::arithmetic::div_mod::lemma_small_mod(i as nat, nodes);
    }
}

/// Two of as many shards as there are nodes never go to the same node.
pub proof fn turns_do_not_collide(i: int, j: int, nodes: nat)
    requires
        0 <= i < j,
        j - i < nodes,
    ensures
        dataplane::round_robin(i, nodes) != dataplane::round_robin(j, nodes),
{
    let n = nodes as int;
    assert(i % n != j % n) by {
        if i % n == j % n {
            vstd::arithmetic::div_mod::lemma_fundamental_div_mod(i, n);
            vstd::arithmetic::div_mod::lemma_fundamental_div_mod(j, n);
            let d = j / n - i / n;
            assert(j - i == n * d) by (nonlinear_arith)
                requires
                    i == n * (i / n) + i % n,
                    j == n * (j / n) + j % n,
                    i % n == j % n,
                    d == j / n - i / n,
            ;
            assert(false) by (nonlinear_arith)
                requires
                    j - i == n * d,
                    0 < j - i < n,
            ;
        }
    }
}

/// How many of the first `shards` shards go to the node in place `node`.
pub open spec fn share(shards: nat, nodes: nat, node: int) -> nat
    decreases shards,
{
    if shards == 0 {
        0
    } else {
        share((shards - 1) as nat, nodes, node) + if dataplane::round_robin(shards - 1, nodes)
            == node {
            1nat
        } else {
            0nat
        }
    }
}

proof fn lemma_share(shards: nat, nodes: nat, node: int)
    requires
        0 <= node < nodes,
    ensures
        share(shards, nodes, node) == shards as int / nodes as int + (if node < shards as int
            % nodes as int {
            1int
        } else {
            0
        }),
    decreases shards,
{
    let n = nodes as int;
    if shards == 0 {
        assert(0int / n == 0 && 0int % n == 0) by (nonlinear_arith)
            requires
                n > 0,
        ;
    } else {
        let s = shards - 1;
        lemma_share(s as nat, nodes, node);
        let q = s / n;
        let r = s % n;
        vstd::arithmetic::div_mod::lemma_fundamental_div_mod(s, n);
        if r + 1 < n {
            vstd::arithmetic::div_mod::lemma_fundamental_div_mod_converse(s + 1, n, q, r + 1);
        } else {
            assert((q + 1) * n == q * n + n) by (nonlinear_arith);
            assert(s + 1 == n * (q + 1) + 0) by (nonlinear_arith)
                requires
                    s == n * q + r,
                    r + 1 == n,
            ;
            vstd::arithmetic::div_mod::lemma_fundamental_div_mod_converse(s + 1, n, q + 1, 0);
        }
    }
}

/// Shards are spread as evenly as the nodes allow: the shares of any two nodes differ
/// by at most one.
pub proof fn shares_are_even(shards: nat, nodes: nat, a: int, b: int)
    requires
        0 <= a < nodes,
        0 <= b < nodes,
    ensures
        share(shards, nodes, a) <= share(shards, nodes, b) + 1,
{
    lemma_share(shards, nodes, a);
    lemma_share(shards, nodes, b);
}

/// Where there are at least as many nodes as shards, and the nodes are different ones,
/// each shard lies on a node of its own.
pub proof fn placements_name_different_nodes(
    placements: Seq<ShardPlacement>,
    targets: Seq<StorageTarget>,
)
    requires
        placements.len() <= targets.len(),
        forall|i: int, j: int|
            0 <= i < j < targets.len() ==> (#[trigger] targets[i]).node_id@ != (
            #[trigger] targets[j]).node_id@,
        forall|i: int|
            0 <= i < placements.len() ==> (#[trigger] placements[i]).node_id
                == targets[dataplane::round_robin(i, targets.len())].node_id,
    ensures
        forall|i: int, j: int|
            0 <= i < j < placements.len() ==> (#[trigger] placements[i]).node_id@ != (
            #[trigger] placements[j]).node_id@,
        forall|i: int|
            0 <= i < placements.len() ==> (#[trigger] placements[i]).node_id == targets[i].node_id,
{
    assert forall|i: int| 0 <= i < placements.len() implies (#[trigger] placements[i]).node_id
        == targets[i].node_id by {
        nodes_take_turns(i, targets.len());
    }
    assert forall|i: int, j: int| 0 <= i < j < placements.len() implies (
    #[trigger] placements[i]).node_id@ != (#[trigger] placements[j]).node_id@ by {
        assert(targets[i].node_id@ != targets[j].node_id@);
    }
}

/// An upload whose shards were given to different nodes, one each, survives the loss of
/// as many nodes as it has parity shards, whichever they are.
pub proof fn uploads_survive_lost_nodes(
    upload: PreparedUpload,
    data: Seq<u8>,
    config: ErasureConfig,
    master: Seq<u8>,
    manifest: Manifest,
    targets: Seq<StorageTarget>,
    lost: Set<Seq<u8>>,
)
    requires
        dataplane::holds(upload, data, config, master),
        config.k < 256,
        config.m < 256,
        targets.len() >= config.k + config.m,
        forall|i: int, j: int|
            0 <= i < j < targets.len() ==> (#[trigger] targets[i]).node_id@ != (
            #[trigger] targets[j]).node_id@,
        manifest.k == config.k,
        manifest.m == config.m,
        manifest.object_hash == upload.object_hash,
        manifest.ciphertext_size == upload.ciphertext_size,
        manifest.shards@.len() == config.k + config.m,
        forall|i: int|
            0 <= i < manifest.shards@.len() ==> (#[trigger] manifest.shards@[i]).shard_index == i
                && manifest.shards@[i].node_id == targets[dataplane::round_robin(
                i,
                targets.len(),
            )].node_id,
        lost.finite(),
        lost.len() <= config.m,
    ensures
        ({
            let fetched = Seq::new(
                manifest.shards@.len(),
                |i: int|
                    if lost.contains(manifest.shards@[i].node_id@) {
                        None
                    } else {
                        Some(upload.shards@[i]@)
                    },
            );
            dataplane::reconstructed(
                dataplane::filled((manifest.k + manifest.m) as nat, manifest.shards@, fetched),
                ErasureConfig { k: manifest.k as usize, m: manifest.m as usize },
                master,
                manifest.object_hash@,
                manifest.ciphertext_size as nat,
            ) == Ok::<Seq<u8>, PipelineError>(data)
        }),
{
    placements_name_different_nodes(manifest.shards@, targets);
    dataplane::objects_survive_lost_nodes(upload, data, config, master, manifest, lost);
    let fetched = Seq::new(
        manifest.shards@.len(),
        |i: int|
            if lost.contains(manifest.shards@[i].node_id@) {
                None
            } else {
                Some(upload.shards@[i]@)
            },
    );
    assert(fetched =~= dataplane::without_nodes(
        bytes::contents(upload.shards@),
        manifest.shards@,
        lost,
    ));
}

/// The scheme that a pool carries. A pool with a node for each shard carries the wanted
/// one. A smaller one has one shard on each node, and as many data shards as wanted,
/// but leaves room for a parity shard as soon as it has two nodes.
pub proof fn pools_carry_what_they_can(target: ErasureConfig, pool: nat)
    requires
        pool >= 1,
    ensures
        ({
            let (k, m) = dataplane::degraded(target, pool);
            &&& pool >= target.k + target.m ==> k == target.k && m == target.m
            &&& pool < target.k + target.m ==> {
                &&& k + m == pool
                &&& k <= target.k
                &&& k < target.k && pool >= 2 ==> m == 1
                &&& pool >= 2 ==> m >= 1
                &&& pool == 1 && target.k >= 1 ==> k == 1
            }
        }),
{
}

/// The places that an assignment picks are different and lie in the pool.
pub proof fn picked_places_differ(order: Seq<usize>, n: nat)
    ensures
        dataplane::distinct_places(order, n) <==> (forall|i: int|
            0 <= i < order.len() ==> (#[trigger] order[i]) < n) && (forall|i: int, j: int|
            0 <= i < j < order.len() ==> #[trigger] order[i] != #[trigger] order[j]),
{
    if forall|i: int, j: int|
        0 <= i < j < order.len() ==> #[trigger] order[i] != #[trigger] order[j] {
        assert forall|i: int, j: int|
            0 <= i < order.len() && 0 <= j < order.len() && i != j implies order[i] != order[j] by {
            if i < j {
                assert(order[i] != order[j]);
            } else {
                assert(order[j] != order[i]);
            }
        }
        assert(order.no_duplicates());
    }
}

/// The contents of a target are its fields, and those of a list of targets are the
/// contents of its members.
pub proof fn targets_show_their_fields(targets: Seq<StorageTarget>, i: int)
    requires
        0 <= i < targets.len(),
    ensures
        dataplane::target_views(targets).len() == targets.len(),
        dataplane::target_views(targets)[i] == targets[i]@,
        targets[i]@.node_id == targets[i].node_id@,
        targets[i]@.addr == targets[i].addr@,
        targets[i]@.relay_url is Some <==> targets[i].relay_url is Some,
        targets[i].relay_url is Some ==> targets[i]@.relay_url->0 == targets[i].relay_url->0@,
{
}

/// The scheme that a manifest records is its own.
pub proof fn manifests_record_their_scheme(m: Manifest)
    ensures
        dataplane::scheme(m).k == m.k,
        dataplane::scheme(m).m == m.m,
{
}

/// Each hash of an upload is the digest of the shard in its place, the object's hash is
/// that of its data, and the ciphertext is longer than the data by nonce and tag.
pub proof fn uploads_are_hashed(
    upload: PreparedUpload,
    data: Seq<u8>,
    config: ErasureConfig,
    master: Seq<u8>,
)
    requires
        dataplane::holds(upload, data, config, master),
    ensures
        upload.object_hash@ == keys::digest_of(data),
        upload.ciphertext_size == data.len() + 40,
        upload.shards@.len() == config.k + config.m,
        upload.shard_hashes@.len() == config.k + config.m,
        upload.erasure_config == config,
        forall|i: int|
            0 <= i < upload.shards@.len() ==> (#[trigger] upload.shard_hashes@[i])@
                == keys::digest_of(upload.shards@[i]@),
{
}

/// Nothing but the object is ever given back: what comes out has the hash that was
/// asked for.
pub proof fn downloads_have_the_right_hash(
    pieces: Pieces,
    config: ErasureConfig,
    master: Seq<u8>,
    object_hash: Seq<u8>,
    len: nat,
)
    ensures
        dataplane::reconstructed(pieces, config, master, object_hash, len) is Ok
            ==> keys::digest_of(
            dataplane::reconstructed(pieces, config, master, object_hash, len)->Ok_0,
        ) == object_hash,
        gateway::reconstructed(pieces, config, master, object_hash, len) is Ok ==> keys::digest_of(
            gateway::reconstructed(pieces, config, master, object_hash, len)->Ok_0,
        ) == object_hash,
{
}

/// What comes of an attempt to reconstruct: a failure to decode or to decrypt shows as
/// such, and data with another hash is turned down.
pub proof fn reconstruction_goes_step_by_step(
    pieces: Pieces,
    config: ErasureConfig,
    master: Seq<u8>,
    object_hash: Seq<u8>,
    len: nat,
)
    ensures
        ({
            let r = dataplane::reconstructed(pieces, config, master, object_hash, len);
            let ciphertext = erasure::decoded(pieces, config, len);
            let key = encrypt::object_key(master, object_hash);
            let plain = encrypt::decrypted(ciphertext->Ok_0, key);
            &&& ciphertext is Err ==> r == Err::<Seq<u8>, PipelineError>(
                PipelineError::Decode(ciphertext->Err_0),
            )
            &&& ciphertext is Ok && plain is Err ==> r == Err::<Seq<u8>, PipelineError>(
                PipelineError::Decrypt(plain->Err_0),
            )
            &&& ciphertext is Ok && plain is Ok ==> r == (if keys::digest_of(plain->Ok_0)
                == object_hash {
                Ok::<Seq<u8>, PipelineError>(plain->Ok_0)
            } else {
                Err::<Seq<u8>, PipelineError>(PipelineError::Integrity)
            })
        }),
{
}

/// Cutting anew fails where the old shards do not decode, or where the new scheme
/// cannot be; else it gives the shards of the same ciphertext.
pub proof fn cutting_anew_keeps_the_ciphertext(
    pieces: Pieces,
    from: ErasureConfig,
    len: nat,
    to: ErasureConfig,
)
    ensures
        ({
            let r = dataplane::reencoded(pieces, from, len, to);
            let ciphertext = erasure::decoded(pieces, from, len);
            let shards = erasure::encoded(ciphertext->Ok_0, to.k as nat, to.m as nat);
            &&& ciphertext is Err ==> r == Err::<Seq<Seq<u8>>, PipelineError>(
                PipelineError::Decode(ciphertext->Err_0),
            )
            &&& ciphertext is Ok && shards is Err ==> r == Err::<Seq<Seq<u8>>, PipelineError>(
                PipelineError::Encode(shards->Err_0),
            )
            &&& ciphertext is Ok && shards is Ok ==> r == Ok::<Seq<Seq<u8>>, PipelineError>(
                shards->Ok_0,
            )
        }),
{
}

/// A manifest's route leads back to its bucket and key.
pub proof fn routes_name_bucket_and_key(bucket: Seq<char>, key: Seq<char>)
    requires
        !bucket.contains('/'),
    ensures
        "manifest/"@.is_prefix_of(dataplane::manifest_route_of(bucket, key)),
        text::split_once(
            dataplane::manifest_route_of(bucket, key).skip("manifest/"@.len() as int),
            '/',
        ) == Some((bucket, key)),
{
    reveal_strlit("manifest/");
    reveal_strlit("/");
    let route = dataplane::manifest_route_of(bucket, key);
    assert("/"@ =~= seq!['/']);
    assert(route.skip("manifest/"@.len() as int) =~= bucket + seq!['/'] + key);
    assert(route.subrange(0, "manifest/"@.len() as int) =~= "manifest/"@);
    text::lemma_split_once(bucket, '/', key);
}

/// A manifest is believed exactly where its signature has 64 bytes and is accepted
/// under the owner's key.
pub proof fn only_the_owner_is_believed(
    manifest_bytes: Seq<u8>,
    signature: Seq<u8>,
    owner: Seq<u8>,
)
    ensures
        ({
            let r = dataplane::believed(manifest_bytes, signature, owner);
            &&& r is Ok <==> signature.len() == 64 && keys::verifies(
                owner,
                manifest_bytes,
                signature,
            )
            &&& signature.len() != 64 ==> r == Err::<(), ManifestError>(
                ManifestError::SignatureLength,
            )
            &&& signature.len() == 64 && r is Err ==> r == Err::<(), ManifestError>(
                ManifestError::Signature,
            )
        }),
{
}

/// The schemes that there are: at least one data and one parity shard, and no more than
/// 256 in all.
pub proof fn schemes_have_limits(k: nat, m: nat)
    ensures
        erasure::config_fault(k, m) is None <==> k >= 1 && m >= 1 && k + m <= 256,
        k == 0 ==> erasure::config_fault(k, m) == Some(CodecError::TooFewDataShards),
        k >= 1 && m == 0 ==> erasure::config_fault(k, m) == Some(CodecError::TooFewParityShards),
        k >= 1 && m >= 1 && k + m > 256 ==> erasure::config_fault(k, m) == Some(
            CodecError::TooManyShards,
        ),
{
}

/// What encoding makes of data. It fails just where there is no such scheme or no data.
/// The data shards hold the data in order, filled up with zeros, and are no longer than
/// they must be; the parity shards follow.
pub proof fn data_shards_hold_the_data(data: Seq<u8>, k: nat, m: nat, at: int)
    ensures
        ({
            let r = erasure::encoded(data, k, m);
            let size = erasure::shard_size(data.len(), k);
            &&& r is Ok <==> k >= 1 && m >= 1 && k + m <= 256 && data.len() > 0
            &&& k >= 1 && m >= 1 && k + m <= 256 && data.len() == 0 ==> r->Err_0
                == CodecError::EmptyShard
            &&& r is Ok ==> {
                &&& size >= 1
                &&& data.len() <= k * size < data.len() + k
                &&& r->Ok_0.len() >= k
                &&& r->Ok_0.skip(k as int) == erasure::parity_of(k, m, r->Ok_0.take(k as int))
                &&& forall|i: int| 0 <= i < k ==> (#[trigger] r->Ok_0[i]).len() == size
                &&& 0 <= at < k * size ==> 0 <= at / size as int && at / size as int <= k - 1
                    && r->Ok_0[at / size as int][at % size as int] == (if at < data.len() {
                    data[at]
                } else {
                    0u8
                })
            }
        }),
{
    let r = erasure::encoded(data, k, m);
    if r is Ok {
        let size = erasure::shard_size(data.len(), k);
        let len = data.len();
        assert(k * size <= len + k - 1 && len + k - 1 < k * size + k) by (nonlinear_arith)
            requires
                k > 0,
                size == (len + k - 1) / k as int,
        ;
        if size == 0 {
            assert(k * size == 0) by (nonlinear_arith)
                requires
                    size == 0,
            ;
        }
        assert(r->Ok_0.take(k as int) =~= erasure::data_shards(data, k));
        assert(r->Ok_0.skip(k as int) =~= erasure::parity_of(k, m, r->Ok_0.take(k as int)));
        if 0 <= at < k * size {
            let s = size as int;
            vstd::arithmetic::div_mod::lemma_fundamental_div_mod(at, s);
            let q = at / s;
            assert(0 <= q <= k - 1) by (nonlinear_arith)
                requires
                    at == s * q + at % s,
                    0 <= at % s < s,
                    0 <= at < k * s,
            ;
            assert(q * s == s * q) by (nonlinear_arith);
            assert(erasure::data_shards(data, k)[q] == r->Ok_0[q]);
        }
    }
}

/// What comes of decoding: the number of places, then the number of shards present, is
/// checked; what comes out is no longer than was asked for.
pub proof fn decoding_checks_its_input(pieces: Pieces, config: ErasureConfig, len: nat)
    requires
        pieces.len() <= usize::MAX,
        config.k + config.m <= usize::MAX,
    ensures
        ({
            let r = erasure::decoded(pieces, config, len);
            let there = filled_places(pieces).len();
            &&& pieces.len() != config.k + config.m ==> r == Err::<Seq<u8>, DecodeError>(
                DecodeError::WrongCount {
                    expected: (config.k + config.m) as usize,
                    got: pieces.len() as usize,
                },
            )
            &&& pieces.len() == config.k + config.m && there < config.k ==> r == Err::<
                Seq<u8>,
                DecodeError,
            >(DecodeError::NotEnough { need: config.k, have: there as usize })
            &&& pieces.len() == config.k + config.m && there >= config.k && r is Err
                ==> r->Err_0 is Codec
            &&& r is Ok ==> r->Ok_0.len() <= len
            &&& r is Ok ==> config.k >= 1 && config.m >= 1 && config.k + config.m <= 256
        }),
{
    present_counts_places(pieces);
}

/// The codec takes shards exactly where they have one length, and it is not zero.
pub proof fn shards_have_one_length(pieces: Pieces, n: nat)
    ensures
        erasure::size_fault(pieces) is None ==> forall|i: int, j: int|
            0 <= i < pieces.len() && 0 <= j < pieces.len() && (#[trigger] pieces[i]) is Some && (
            #[trigger] pieces[j]) is Some ==> pieces[i]->0.len() == pieces[j]->0.len()
                && pieces[i]->0.len() > 0,
        n > 0 && (forall|i: int|
            0 <= i < pieces.len() && (#[trigger] pieces[i]) is Some ==> pieces[i]->0.len() == n)
            ==> erasure::size_fault(pieces) is None,
{
    lemma_piece_size(pieces);
    if n > 0 && (forall|i: int|
        0 <= i < pieces.len() && (#[trigger] pieces[i]) is Some ==> pieces[i]->0.len() == n) {
        lemma_no_size_fault(pieces, n);
    }
}

proof fn lemma_piece_size(pieces: Pieces)
    ensures
        erasure::size_fault(pieces) is None ==> forall|i: int|
            0 <= i < pieces.len() && (#[trigger] pieces[i]) is Some ==> erasure::piece_size(pieces)
                == Some(pieces[i]->0.len()) && pieces[i]->0.len() > 0,
        (erasure::piece_size(pieces) is None) <==> forall|i: int|
            0 <= i < pieces.len() ==> (#[trigger] pieces[i]) is None,
    decreases pieces.len(),
{
    if pieces.len() > 0 {
        let front = pieces.drop_last();
        let n = pieces.len() - 1;
        lemma_piece_size(front);
        assert forall|i: int| 0 <= i < n implies front[i] == pieces[i] by {}
        if erasure::size_fault(pieces) is None {
            assert forall|i: int|
                0 <= i < pieces.len() && (#[trigger] pieces[i]) is Some implies erasure::piece_size(
                pieces,
            ) == Some(pieces[i]->0.len()) && pieces[i]->0.len() > 0 by {
                if i < n {
                    assert(front[i] is Some);
                }
            }
        }
        if erasure::piece_size(pieces) is None {
            assert forall|i: int| 0 <= i < pieces.len() implies (#[trigger] pieces[i]) is None by {
                if i < n {
                    assert(front[i] is None);
                }
            }
        } else if pieces.last() is None {
            let i = choose|i: int| 0 <= i < front.len() && !((#[trigger] front[i]) is None);
            assert(pieces[i] is Some);
        } else {
            assert(pieces[n] is Some);
        }
    }
}

proof fn lemma_no_size_fault(pieces: Pieces, n: nat)
    requires
        n > 0,
        forall|i: int|
            0 <= i < pieces.len() && (#[trigger] pieces[i]) is Some ==> pieces[i]->0.len() == n,
    ensures
        erasure::size_fault(pieces) is None,
        erasure::piece_size(pieces) is Some ==> erasure::piece_size(pieces)->0 == n,
    decreases pieces.len(),
{
    if pieces.len() > 0 {
        let front = pieces.drop_last();
        assert forall|i: int| 0 <= i < front.len() && (#[trigger] front[i]) is Some implies front[i]->0.len()
            == n by {
            assert(pieces[i] is Some);
        }
        lemma_no_size_fault(front, n);
        if pieces.last() is Some {
            assert(pieces[pieces.len() - 1] is Some);
        }
    }
}

/// The key of an object comes of the master key by HKDF, salted with the object's hash,
/// for the purpose "arkel-shard-key".
pub proof fn keys_are_derived_per_object(master: Seq<u8>, object_hash: Seq<u8>)
    ensures
        encrypt::object_key(master, object_hash) == encrypt::hkdf_of(
            object_hash,
            master,
            vstd::utf8::encode_utf8("arkel-shard-key"@),
        ),
{
}

/// An encrypted shard is the nonce and then what was sealed under it; decrypting parts
/// them in the same place.
pub proof fn shards_begin_with_their_nonce(
    data: Seq<u8>,
    key: Seq<u8>,
    nonce: Seq<u8>,
    sealed: Seq<u8>,
)
    requires
        nonce.len() == 24,
    ensures
        encrypt::encrypted_with(data, key, nonce) == nonce + encrypt::sealed_of(key, nonce, data),
        sealed.len() <= 64 * (u32::MAX - 1) + 16 ==> encrypt::decrypted(nonce + sealed, key) == (
        match encrypt::opened_of(key, nonce, sealed) {
            Some(plain) => Ok::<Seq<u8>, DecryptError>(plain),
            None => Err::<Seq<u8>, DecryptError>(DecryptError::Failed),
        }),
{
    assert((nonce + sealed).take(24) =~= nonce);
    assert((nonce + sealed).skip(24) =~= sealed);
}

/// What has no room for a nonce is too short to be decrypted.
pub proof fn short_texts_do_not_decrypt(encrypted: Seq<u8>, key: Seq<u8>)
    requires
        encrypted.len() < 24,
    ensures
        encrypt::decrypted(encrypted, key) == Err::<Seq<u8>, DecryptError>(DecryptError::TooShort),
{
}

/// The gateway decrypts shard by shard: each that is there has to decrypt, and then
/// lies in the place it was in.
pub proof fn gateways_open_each_shard(pieces: Pieces, key: Seq<u8>)
    ensures
        gateway::opened(pieces, key) is Ok <==> forall|i: int|
            0 <= i < pieces.len() && (#[trigger] pieces[i]) is Some ==> encrypt::decrypted(
                pieces[i]->0,
                key,
            ) is Ok,
        gateway::opened(pieces, key) is Ok ==> gateway::opened(pieces, key)->Ok_0.len()
            == pieces.len() && forall|i: int|
            0 <= i < pieces.len() ==> (#[trigger] gateway::opened(pieces, key)->Ok_0[i]) == (
            match pieces[i] {
                Some(s) => Some(encrypt::decrypted(s, key)->Ok_0),
                None => None,
            }),
    decreases pieces.len(),
{
    if pieces.len() > 0 {
        let front = pieces.drop_last();
        let n = pieces.len() - 1;
        gateways_open_each_shard(front, key);
        assert forall|i: int| 0 <= i < n implies front[i] == pieces[i] by {}
        if gateway::opened(pieces, key) is Ok {
            assert forall|i: int|
                0 <= i < pieces.len() && (#[trigger] pieces[i]) is Some implies encrypt::decrypted(
                pieces[i]->0,
                key,
            ) is Ok by {
                if i < n {
                    assert(front[i] is Some);
                }
            }
        }
        if forall|i: int|
            0 <= i < pieces.len() && (#[trigger] pieces[i]) is Some ==> encrypt::decrypted(
                pieces[i]->0,
                key,
            ) is Ok {
            assert forall|i: int| 0 <= i < front.len() && (#[trigger] front[i]) is Some implies encrypt::decrypted(
                front[i]->0,
                key,
            ) is Ok by {
                assert(pieces[i] is Some);
            }
            assert(pieces[n] is Some ==> encrypt::decrypted(pieces[n]->0, key) is Ok);
        }
    }
}

} // verus!
