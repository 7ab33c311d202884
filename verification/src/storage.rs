//! Storage nodes: where shards lie on disk and which of them are kept.
use vstd::prelude::*;

use crate::bytes;
use crate::codec;
use crate::index::machine;
use crate::text;

verus! {

/// The protocol by which a storage node is told to pull a shard.
pub const PULL_ALPN: &'static str = "arkel-pull";

/// The acknowledgement of a pull that succeeded.
pub const PULL_ACK: u8 = 0;

/// Whether an acknowledgement says that a pull succeeded.
pub fn pull_accepted(ack: u8) -> (r: bool)
    ensures
        r == (ack == PULL_ACK),
{
    ack == PULL_ACK
}

/// The name of a shard: the hash of its contents.
#[derive(Debug, Clone, Copy, PartialEq, Eq, Hash)]
pub struct ShardId(pub [u8; 32]);

impl ShardId {
    /// The name in hexadecimal.
    pub fn to_hex(&self) -> (r: String)
        ensures
            r@ == codec::hex_text(self.0@),
    {
        codec::hex_encode(vstd::array::array_as_slice(&self.0))
    }
}

/// Shards as files in a directory.
pub struct DiskStore {
    dir: String,
}

/// What stands between a directory and the name of a file in it: a slash, unless the
/// directory is empty or ends in one.
pub open spec fn separator(dir: Seq<char>) -> Seq<char> {
    if dir.len() == 0 || dir.last() == '/' {
        ""@
    } else {
        "/"@
    }
}

/// The path of a file in a directory.
pub open spec fn file_in(dir: Seq<char>, name: Seq<char>) -> Seq<char> {
    dir + separator(dir) + name
}

fn path_in(dir: &str, name: &str) -> (r: String)
    ensures
        r@ == file_in(dir@, name@),
{
    let v = text::chars_of(dir);
    if v.len() == 0 || v[v.len() - 1] == '/' {
        text::join3(dir, "", name)
    } else {
        text::join3(dir, "/", name)
    }
}

impl DiskStore {
    /// The directory.
    pub closed spec fn root(&self) -> Seq<char> {
        self.dir@
    }

    /// A store in a directory.
    pub fn new(dir: String) -> (r: Self)
        ensures
            r.root() == dir@,
    {
        DiskStore { dir }
    }

    /// The directory.
    pub fn data_dir(&self) -> (r: &str)
        ensures
            r@ == self.root(),
    {
        self.dir.as_str()
    }

    /// The file of a shard.
    pub open spec fn shard_file(&self, id: ShardId) -> Seq<char> {
        file_in(self.root(), codec::hex_text(id.0@) + ".shard"@)
    }

    /// The file that a shard is written to before it takes its place.
    pub open spec fn temp_file(&self, id: ShardId) -> Seq<char> {
        file_in(self.root(), codec::hex_text(id.0@) + ".tmp"@)
    }

    /// The file of a shard.
    pub fn shard_path(&self, shard_id: &ShardId) -> (r: String)
        ensures
            r@ == self.shard_file(*shard_id),
    {
        let name = text::join2(shard_id.to_hex().as_str(), ".shard");
        path_in(self.dir.as_str(), name.as_str())
    }

    /// The file that a shard is written to before it takes its place.
    pub fn temp_path(&self, shard_id: &ShardId) -> (r: String)
        ensures
            r@ == self.temp_file(*shard_id),
    {
        let name = text::join2(shard_id.to_hex().as_str(), ".tmp");
        path_in(self.dir.as_str(), name.as_str())
    }
}

/// Different shards lie in different files.
pub proof fn shards_do_not_collide(store: DiskStore, a: ShardId, b: ShardId)
    requires
        store.shard_file(a) == store.shard_file(b),
    ensures
        a.0@ == b.0@,
{
    let x = codec::hex_text(a.0@);
    let y = codec::hex_text(b.0@);
    let head = store.root() + separator(store.root());
    let p = store.shard_file(a);
    let q = store.shard_file(b);
    assert(p =~= head + x + ".shard"@);
    assert(q =~= head + y + ".shard"@);
    assert(x.len() == 64 && y.len() == 64);
    assert(p.subrange(head.len() as int, head.len() as int + 64) =~= x);
    assert(q.subrange(head.len() as int, head.len() as int + 64) =~= y);
    codec::hex_injective(a.0@, b.0@);
}

/// A file that is still being written is never taken for a shard.
pub proof fn temporary_files_are_no_shards(store: DiskStore, a: ShardId, b: ShardId)
    ensures
        store.temp_file(a) != store.shard_file(b),
{
    reveal_strlit(".shard");
    reveal_strlit(".tmp");
    let p = store.temp_file(a);
    let q = store.shard_file(b);
    let head = store.root() + separator(store.root());
    assert(p.len() == head.len() + 64 + 4);
    assert(q.len() == head.len() + 64 + 6);
}

/// The sum of some sizes.
pub open spec fn sum(sizes: Seq<u64>) -> nat
    decreases sizes.len(),
{
    if sizes.len() == 0 {
        0
    } else {
        sum(sizes.drop_last()) + sizes.last() as nat
    }
}

proof fn lemma_sum_monotone(sizes: Seq<u64>, i: int)
    requires
        0 <= i <= sizes.len(),
    ensures
        sum(sizes.take(i)) <= sum(sizes),
    decreases sizes.len() - i,
{
    if i < sizes.len() {
        assert(sizes.drop_last().take(i) =~= sizes.take(i));
        lemma_sum_monotone(sizes.drop_last(), i);
    } else {
        assert(sizes.take(i) =~= sizes);
    }
}

/// How many bytes files of the given sizes take up together.
pub fn total_bytes(sizes: &Vec<u64>) -> (r: u64)
    requires
        sum(sizes@) <= u64::MAX,
    ensures
        r == sum(sizes@),
{
    let mut total: u64 = 0;
    let mut i: usize = 0;
    while i < sizes.len()
        invariant
            i <= sizes@.len(),
            total == sum(sizes@.take(i as int)),
            sum(sizes@) <= u64::MAX,
        decreases sizes@.len() - i,
    {
        proof {
            assert(sizes@.take(i + 1).drop_last() =~= sizes@.take(i as int));
            lemma_sum_monotone(sizes@, i + 1);
        }
        total = total + sizes[i];
        i = i + 1;
    }
    assert(sizes@.take(i as int) =~= sizes@);
    total
}

/// Which blobs a collection of garbage spares: all but those that the index named as
/// candidates.
pub fn protect(all: &Vec<[u8; 32]>, candidates: &Vec<Vec<u8>>) -> (r: Vec<[u8; 32]>)
    ensures
        machine::hashes(r@) == machine::hashes(all@).filter(
            |h: Seq<u8>| !bytes::contents(candidates@).contains(h),
        ),
{
    let ghost doomed = bytes::contents(candidates@);
    let ghost pred = |h: Seq<u8>| !doomed.contains(h);
    let ghost given = machine::hashes(all@);
    let mut out: Vec<[u8; 32]> = Vec::new();
    let mut i: usize = 0;
    assert(given.take(0).filter(pred) =~= Seq::<Seq<u8>>::empty());
    assert(machine::hashes(out@) =~= Seq::<Seq<u8>>::empty());
    while i < all.len()
        invariant
            i <= all@.len(),
            doomed == bytes::contents(candidates@),
            pred == (|h: Seq<u8>| !doomed.contains(h)),
            given == machine::hashes(all@),
            machine::hashes(out@) == given.take(i as int).filter(pred),
        decreases all@.len() - i,
    {
        let ghost before = out@;
        proof {
            assert(given.take(i + 1) =~= given.take(i as int).push(given[i as int]));
            given.take(i as int).lemma_filter_push(given[i as int], pred);
        }
        if !bytes::contains_bytes(candidates, vstd::array::array_as_slice(&all[i])) {
            out.push(all[i]);
            assert(machine::hashes(out@) =~= machine::hashes(before).push(all@[i as int]@));
        }
        i = i + 1;
    }
    assert(given.take(i as int) =~= given);
    out
}

/// What is protected after the index was asked which of some blobs are garbage: those
/// that it does not count as unreferenced.
pub proof fn referenced_blobs_are_protected(
    all: Seq<Seq<u8>>,
    refs: Map<Seq<u8>, i64>,
    blob: Seq<u8>,
)
    requires
        all.contains(blob),
        !machine::unreferenced(refs, blob),
    ensures
        ({
            let candidates = all.filter(|h: Seq<u8>| machine::unreferenced(refs, h));
            all.filter(|h: Seq<u8>| !candidates.contains(h)).contains(blob)
        }),
{
    broadcast use vstd::seq_lib::group_filter_ensures;

    let garbage = |h: Seq<u8>| machine::unreferenced(refs, h);
    let candidates = all.filter(garbage);
    let spared = |h: Seq<u8>| !candidates.contains(h);
    if candidates.contains(blob) {
        let i = choose|i: int| 0 <= i < candidates.len() && candidates[i] == blob;
        assert(garbage(candidates[i]));
    }
    let j = choose|j: int| 0 <= j < all.len() && all[j] == blob;
    assert(spared(all[j]));
    assert(all.filter(spared).contains(all[j]));
}

} // verus!
