//! Repair: which objects are below their scheme, and their shards made anew.
//!
//! A repair works on ciphertext shards and needs no keys. Shards on nodes that are
//! marked offline count as missing.
use vstd::prelude::*;

use crate::bytes;
use crate::client::manifest::{Manifest, ShardPlacement};
use crate::dataplane;
use crate::dataplane::erasure;
use crate::dataplane::erasure::{ErasureConfig, Pieces};
use crate::dataplane::PipelineError;

verus! {

/// What a repair makes of an object.
#[derive(Debug, Clone, Copy, PartialEq, Eq, Structural)]
pub enum Verdict {
    /// All shards are there, at the effective scheme, on as many nodes: nothing to do.
    Healthy,
    /// Too few shards are there, until a node returns.
    Unrecoverable,
    /// The shards are to be made anew and spread again.
    Heal,
}

/// Whether the node of a placement is marked offline.
pub open spec fn is_offline(offline: Seq<[u8; 32]>, p: ShardPlacement) -> bool {
    exists|i: int| 0 <= i < offline.len() && (#[trigger] offline[i])@ == p.node_id@
}

/// Whether a placement is worth a fetch: its node is not marked offline.
pub fn worth_fetching(offline: &Vec<[u8; 32]>, p: &ShardPlacement) -> (r: bool)
    ensures
        r == !is_offline(offline@, *p),
{
    let mut i: usize = 0;
    while i < offline.len()
        invariant
            i <= offline@.len(),
            forall|j: int| 0 <= j < i ==> (#[trigger] offline@[j])@ != p.node_id@,
        decreases offline@.len() - i,
    {
        if bytes::same_bytes(
            vstd::array::array_as_slice(&offline[i]),
            vstd::array::array_as_slice(&p.node_id),
        ) {
            assert(offline@[i as int]@ == p.node_id@);
            return false;
        }
        i = i + 1;
    }
    true
}

/// The different nodes that some placements name.
pub open spec fn nodes_of(placements: Seq<ShardPlacement>) -> Set<Seq<u8>> {
    placements.map_values(|p: ShardPlacement| p.node_id@).to_set()
}

/// How many different nodes some placements name.
pub fn distinct_nodes(placements: &Vec<ShardPlacement>) -> (r: usize)
    ensures
        r == nodes_of(placements@).len(),
{
    let ghost all = placements@.map_values(|p: ShardPlacement| p.node_id@);
    let mut seen: Vec<Vec<u8>> = Vec::new();
    let mut i: usize = 0;
    assert(bytes::contents(seen@).to_set() =~= all.take(0).to_set());
    while i < placements.len()
        invariant
            i <= placements@.len(),
            all == placements@.map_values(|p: ShardPlacement| p.node_id@),
            bytes::contents(seen@).no_duplicates(),
            bytes::contents(seen@).to_set() == all.take(i as int).to_set(),
        decreases placements@.len() - i,
    {
        let ghost before = bytes::contents(seen@);
        let id = bytes::array_to_vec(&placements[i].node_id);
        let ghost item = all[i as int];
        let known = bytes::contains_bytes(&seen, id.as_slice());
        if !known {
            seen.push(id);
            assert(bytes::contents(seen@) =~= before.push(item));
        }
        proof {
            let after = bytes::contents(seen@);
            let t = all.take(i + 1);
            assert(t =~= all.take(i as int).push(item));
            assert(t.to_set() =~= all.take(i as int).to_set().insert(item)) by {
                assert forall|x: Seq<u8>| t.to_set().contains(x) <==> #[trigger] all.take(
                    i as int,
                ).to_set().insert(item).contains(x) by {
                    if all.take(i as int).contains(x) {
                        let j = choose|j: int| 0 <= j < i && all.take(i as int)[j] == x;
                        assert(t[j] == x);
                    }
                    assert(t[i as int] == item);
                    if t.contains(x) && x != item {
                        let j = choose|j: int| 0 <= j < t.len() && t[j] == x;
                        assert(all.take(i as int)[j] == x);
                    }
                }
            }
            assert(after.to_set() =~= before.to_set().insert(item)) by {
                assert forall|x: Seq<u8>| after.to_set().contains(x) <==> #[trigger]
                    before.to_set().insert(item).contains(x) by {
                    if before.contains(x) {
                        let j = choose|j: int| 0 <= j < before.len() && before[j] == x;
                        assert(after[j] == x);
                    }
                    if !known {
                        assert(after[after.len() - 1] == item);
                    }
                    if after.contains(x) && x != item {
                        let j = choose|j: int| 0 <= j < after.len() && after[j] == x;
                        assert(before[j] == x);
                    }
                }
            }
        }
        i = i + 1;
    }
    proof {
        assert(all.take(i as int) =~= all);
        bytes::contents(seen@).unique_seq_to_set();
    }
    seen.len()
}

/// How many shards were fetched.
pub open spec fn available(fetched: Seq<Option<Seq<u8>>>) -> nat {
    erasure::present(fetched)
}

/// The verdict on an object: `avail` of its shards were fetched, and `effective` is
/// the scheme that the pool can carry now.
pub open spec fn verdict_on(m: Manifest, avail: nat, effective: ErasureConfig) -> Verdict {
    let total = (m.k + m.m) as nat;
    if avail < m.k {
        Verdict::Unrecoverable
    } else if avail >= total && dataplane::scheme(m) == effective && nodes_of(m.shards@).len()
        >= total {
        Verdict::Healthy
    } else {
        Verdict::Heal
    }
}

/// Decides what to do with an object. Beside missing shards, an outdated scheme and
/// shards crammed onto fewer nodes than the scheme implies call for healing.
pub fn verdict(manifest: &Manifest, avail: usize, effective: ErasureConfig) -> (r: Verdict)
    ensures
        r == verdict_on(*manifest, avail as nat, effective),
{
    let k: usize = manifest.k as usize;
    let m: usize = manifest.m as usize;
    let total: usize = k + m;
    if avail < k {
        return Verdict::Unrecoverable;
    }
    let concentrated = distinct_nodes(&manifest.shards) < total;
    if avail >= total && k == effective.k && m == effective.m && !concentrated {
        Verdict::Healthy
    } else {
        Verdict::Heal
    }
}

/// Whether shards of an object are missing and the others are enough to make them anew.
pub fn needs_shards(manifest: &Manifest, avail: usize) -> (r: bool)
    ensures
        r == (manifest.k <= avail < manifest.k + manifest.m),
{
    let k: usize = manifest.k as usize;
    let total: usize = k + manifest.m as usize;
    !(avail >= total || avail < k)
}

/// How many shards were fetched.
pub fn count_available(fetched: &Vec<Option<Vec<u8>>>) -> (r: usize)
    ensures
        r == available(erasure::owned_pieces(fetched@)),
        r <= fetched@.len(),
{
    let ghost all = erasure::owned_pieces(fetched@);
    let mut n: usize = 0;
    let mut i: usize = 0;
    while i < fetched.len()
        invariant
            i <= fetched@.len(),
            all == erasure::owned_pieces(fetched@),
            n == erasure::present(all.take(i as int)),
            n <= i,
        decreases fetched@.len() - i,
    {
        assert(all.take(i + 1).drop_last() =~= all.take(i as int));
        if fetched[i].is_some() {
            n = n + 1;
        }
        i = i + 1;
    }
    assert(all.take(i as int) =~= all);
    n
}

/// The outcome of looking after one object.
#[derive(Debug)]
pub enum Healing {
    /// Nothing to do.
    Healthy,
    /// Nothing that could be done.
    Unrecoverable,
    /// New shards to spread, under the effective scheme.
    Shards(Vec<Vec<u8>>),
}

/// Looks after one object: decides, and where it is to be healed makes its shards
/// anew, any `k` of which give back what the old ones gave back. `fetched` holds what
/// came of each placement.
pub fn heal(manifest: &Manifest, fetched: Vec<Option<Vec<u8>>>, effective: ErasureConfig) -> (r: Result<
    Healing,
    PipelineError,
>)
    requires
        fetched@.len() == manifest.shards@.len(),
        dataplane::in_places(manifest.shards@, (manifest.k + manifest.m) as nat),
        effective.k >= 1,
        effective.k + effective.m <= usize::MAX,
        manifest.ciphertext_size + effective.k <= usize::MAX,
    ensures
        match verdict_on(
            *manifest,
            available(erasure::owned_pieces(fetched@)),
            effective,
        ) {
            Verdict::Healthy => r is Ok && r->Ok_0 is Healthy,
            Verdict::Unrecoverable => r is Ok && r->Ok_0 is Unrecoverable,
            Verdict::Heal => match dataplane::reencoded(
                dataplane::filled(
                    (manifest.k + manifest.m) as nat,
                    manifest.shards@,
                    erasure::owned_pieces(fetched@),
                ),
                dataplane::scheme(*manifest),
                manifest.ciphertext_size as nat,
                effective,
            ) {
                Ok(shards) => r is Ok && r->Ok_0 is Shards && bytes::contents(
                    r->Ok_0->Shards_0@,
                ) == shards && shards.len() == effective.k + effective.m && dataplane::keeps(
                    dataplane::filled(
                        (manifest.k + manifest.m) as nat,
                        manifest.shards@,
                        erasure::owned_pieces(fetched@),
                    ),
                    dataplane::scheme(*manifest),
                    manifest.ciphertext_size as nat,
                    shards,
                    effective,
                ),
                Err(e) => r is Err && r->Err_0 == e,
            },
        },
{
    let avail: usize = count_available(&fetched);
    match verdict(manifest, avail, effective) {
        Verdict::Healthy => Ok(Healing::Healthy),
        Verdict::Unrecoverable => Ok(Healing::Unrecoverable),
        Verdict::Heal => {
            let total: usize = manifest.k as usize + manifest.m as usize;
            let slots = dataplane::fill_slots(total, &manifest.shards, fetched);
            let refs = dataplane::borrow_all(&slots);
            let from = ErasureConfig { k: manifest.k as usize, m: manifest.m as usize };
            match dataplane::reencode(
                refs.as_slice(),
                from,
                manifest.ciphertext_size as usize,
                effective,
            ) {
                Ok(shards) => Ok(Healing::Shards(shards)),
                Err(e) => Err(e),
            }
        },
    }
}

/// A repair pass that fixes a limited number of objects.
pub struct RepairPass {
    fixed: usize,
    rate_limit: usize,
}

impl RepairPass {
    /// How many objects were fixed.
    pub closed spec fn done(&self) -> nat {
        self.fixed as nat
    }

    /// How many objects may be fixed.
    pub closed spec fn limit(&self) -> nat {
        self.rate_limit as nat
    }

    /// No more objects were fixed than may be.
    pub open spec fn wf(&self) -> bool {
        self.done() <= self.limit()
    }

    /// A pass that fixed nothing yet.
    pub fn new(rate_limit: usize) -> (r: Self)
        ensures
            r.wf(),
            r.done() == 0,
            r.limit() == rate_limit,
    {
        RepairPass { fixed: 0, rate_limit }
    }

    /// Whether the pass goes on to the next object.
    pub fn goes_on(&self) -> (r: bool)
        ensures
            r == (self.done() < self.limit()),
    {
        self.fixed < self.rate_limit
    }

    /// Counts an object that was fixed.
    pub fn record(&mut self)
        requires
            old(self).done() < old(self).limit(),
        ensures
            final(self).wf(),
            final(self).done() == old(self).done() + 1,
            final(self).limit() == old(self).limit(),
    {
        self.fixed = self.fixed + 1;
    }

    /// How many objects were fixed.
    pub fn fixed(&self) -> (r: usize)
        ensures
            r as nat == self.done(),
    {
        self.fixed
    }
}

/// Some placements on different nodes name as many nodes as there are placements.
proof fn lemma_spread(placements: Seq<ShardPlacement>)
    requires
        forall|i: int, j: int|
            0 <= i < j < placements.len() ==> (#[trigger] placements[i]).node_id@ != (
            #[trigger] placements[j]).node_id@,
    ensures
        nodes_of(placements).len() == placements.len(),
{
    let ids = placements.map_values(|p: ShardPlacement| p.node_id@);
    assert(ids.no_duplicates()) by {
        assert forall|i: int, j: int| 0 <= i < ids.len() && 0 <= j < ids.len() && i
            != j implies ids[i] != ids[j] by {
            if i < j {
                assert(placements[i].node_id@ != placements[j].node_id@);
            } else {
                assert(placements[j].node_id@ != placements[i].node_id@);
            }
        }
    }
    ids.unique_seq_to_set();
}

/// Repair is idempotent: an object at the effective scheme whose shards lie on
/// different nodes and were all fetched is left alone.
pub proof fn healed_objects_are_left_alone(m: Manifest, avail: nat, effective: ErasureConfig)
    requires
        dataplane::scheme(m) == effective,
        m.shards@.len() == m.k + m.m,
        avail == m.shards@.len(),
        forall|i: int, j: int|
            0 <= i < j < m.shards@.len() ==> (#[trigger] m.shards@[i]).node_id@ != (
            #[trigger] m.shards@[j]).node_id@,
    ensures
        verdict_on(m, avail, effective) == Verdict::Healthy,
{
    lemma_spread(m.shards@);
}

/// Healing keeps the ciphertext: shards that decode to it give, healed, shards of
/// which any `k` decode to it again.
pub proof fn healing_keeps_the_object(
    pieces: Pieces,
    from: ErasureConfig,
    ciphertext: Seq<u8>,
    to: ErasureConfig,
)
    requires
        erasure::decoded(pieces, from, ciphertext.len()) == Ok::<Seq<u8>, erasure::DecodeError>(
            ciphertext,
        ),
    ensures
        dataplane::reencoded(pieces, from, ciphertext.len(), to) == (match erasure::encoded(
            ciphertext,
            to.k as nat,
            to.m as nat,
        ) {
            Ok(shards) => Ok::<Seq<Seq<u8>>, PipelineError>(shards),
            Err(e) => Err(PipelineError::Encode(e)),
        }),
{
}

} // verus!
