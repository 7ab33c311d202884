//! What the replicated state is and what each command makes of it.
use vstd::prelude::*;

use crate::bytes;
use crate::index::types::{Answer, IndexNodeRequest, IndexNodeResponse, NodeStatus, NodeView};
use crate::index::types;

verus! {

/// The contents of a row of the bucket table.
pub struct BucketView {
    pub created_at: u64,
    pub owner: Seq<u8>,
}

/// The contents of a row of the manifest table. `blobs` are the blob hashes of
/// the shards that the manifest lists, where its bytes decode.
pub struct ManifestView {
    pub object_hash: Seq<u8>,
    pub manifest: Seq<u8>,
    pub signature: Seq<u8>,
    pub created_at: u64,
    pub blobs: Option<Seq<Seq<u8>>>,
}

/// A bucket and a key in it.
pub type ObjectKey = (Seq<char>, Seq<char>);

/// The durable tables.
#[verifier::ext_equal]
pub struct Tables {
    pub buckets: Map<Seq<char>, BucketView>,
    pub manifests: Map<ObjectKey, ManifestView>,
    pub refs: Map<Seq<u8>, i64>,
    pub repair_operator: Option<Seq<u8>>,
}

/// The durable tables and the node registry.
#[verifier::ext_equal]
pub struct Index {
    pub tables: Tables,
    pub nodes: Map<Seq<u8>, NodeView>,
}

/// Why a command could not be applied at all.
#[derive(Debug, Clone, Copy, PartialEq, Eq, Structural)]
pub enum StateError {
    /// The bytes of a manifest do not decode.
    BadManifest,
    /// A reference count has no successor.
    TooManyRefs,
    /// Two rows of a snapshot have the same key.
    DuplicateRow,
}

/// The owner of a bucket.
pub open spec fn owner_of(t: Tables, bucket: Seq<char>) -> Option<Seq<u8>> {
    if t.buckets.dom().contains(bucket) {
        Some(t.buckets[bucket].owner)
    } else {
        None
    }
}

/// The reference counts with one reference to a blob given back. A count of
/// zero stays.
pub open spec fn release_one(refs: Map<Seq<u8>, i64>, blob: Seq<u8>) -> Map<Seq<u8>, i64> {
    if refs.dom().contains(blob) && refs[blob] > 0 {
        refs.insert(blob, (refs[blob] - 1) as i64)
    } else {
        refs
    }
}

/// The reference counts with one reference to each listed blob given back.
pub open spec fn release(refs: Map<Seq<u8>, i64>, blobs: Seq<Seq<u8>>) -> Map<Seq<u8>, i64>
    decreases blobs.len(),
{
    if blobs.len() == 0 {
        refs
    } else {
        release_one(release(refs, blobs.drop_last()), blobs.last())
    }
}

/// How often a blob occurs in a list.
pub open spec fn occurrences(blobs: Seq<Seq<u8>>, blob: Seq<u8>) -> nat
    decreases blobs.len(),
{
    if blobs.len() == 0 {
        0
    } else {
        occurrences(blobs.drop_last(), blob) + if blobs.last() == blob {
            1nat
        } else {
            0nat
        }
    }
}

/// How often a manifest lists a blob.
pub open spec fn uses(row: ManifestView, blob: Seq<u8>) -> nat {
    match row.blobs {
        Some(blobs) => occurrences(blobs, blob),
        None => 0,
    }
}

/// How often the manifests of a table list a blob, all together.
pub open spec fn live(manifests: Map<ObjectKey, ManifestView>, blob: Seq<u8>) -> nat
    decreases manifests.dom().len(),
    when manifests.dom().finite()
{
    if manifests.dom().len() == 0 {
        0
    } else {
        let id = manifests.dom().choose();
        uses(manifests[id], blob) + live(manifests.remove(id), blob)
    }
}

/// The listings of a table are those of one row and those of the others.
pub proof fn lemma_live_remove(m: Map<ObjectKey, ManifestView>, blob: Seq<u8>, id: ObjectKey)
    requires
        m.dom().finite(),
        m.dom().contains(id),
    ensures
        live(m, blob) == uses(m[id], blob) + live(m.remove(id), blob),
    decreases m.dom().len(),
{
    let c = m.dom().choose();
    assert(m.dom().contains(c));
    if c != id {
        lemma_live_remove(m.remove(c), blob, id);
        lemma_live_remove(m.remove(id), blob, c);
        assert(m.remove(c).remove(id) =~= m.remove(id).remove(c));
    }
}

/// The listings of a table with a row put into it.
pub proof fn lemma_live_insert(
    m: Map<ObjectKey, ManifestView>,
    blob: Seq<u8>,
    id: ObjectKey,
    row: ManifestView,
)
    requires
        m.dom().finite(),
    ensures
        live(m.insert(id, row), blob) == uses(row, blob) + live(m.remove(id), blob),
{
    lemma_live_remove(m.insert(id, row), blob, id);
    assert(m.insert(id, row).remove(id) =~= m.remove(id));
}

/// A count with some references given back. It does not fall below zero.
pub open spec fn lowered(n: i64, times: nat) -> i64 {
    if n <= 0 {
        n
    } else if n > times {
        (n - times) as i64
    } else {
        0
    }
}

/// The reference counts with the references of all rows of a table given back.
pub open spec fn release_rows(
    refs: Map<Seq<u8>, i64>,
    rows: Map<ObjectKey, ManifestView>,
) -> Map<Seq<u8>, i64> {
    refs.map_entries(|blob: Seq<u8>, n: i64| lowered(n, live(rows, blob)))
}

pub proof fn lemma_release_counts(refs: Map<Seq<u8>, i64>, blobs: Seq<Seq<u8>>, blob: Seq<u8>)
    ensures
        release(refs, blobs).dom() == refs.dom(),
        refs.dom().contains(blob) ==> release(refs, blobs)[blob] == lowered(
            refs[blob],
            occurrences(blobs, blob),
        ),
    decreases blobs.len(),
{
    if blobs.len() > 0 {
        lemma_release_counts(refs, blobs.drop_last(), blob);
        let before = release(refs, blobs.drop_last());
        assert(release_one(before, blobs.last()).dom() =~= refs.dom());
    } else {
        assert(release(refs, blobs) =~= refs);
    }
}

/// Giving back a list of references is giving back those of a table, where both list
/// every blob equally often.
pub proof fn lemma_release_rows(
    refs: Map<Seq<u8>, i64>,
    blobs: Seq<Seq<u8>>,
    rows: Map<ObjectKey, ManifestView>,
)
    requires
        forall|blob: Seq<u8>| #[trigger] occurrences(blobs, blob) == live(rows, blob),
    ensures
        release(refs, blobs) == release_rows(refs, rows),
{
    lemma_release_counts(refs, blobs, seq![]);
    assert forall|blob: Seq<u8>| #[trigger] refs.dom().contains(blob) implies release(
        refs,
        blobs,
    )[blob] == release_rows(refs, rows)[blob] by {
        lemma_release_counts(refs, blobs, blob);
        assert(occurrences(blobs, blob) == live(rows, blob));
    }
    assert(release(refs, blobs) =~= release_rows(refs, rows));
}

/// The reference counts with one more reference to a blob.
pub open spec fn retain_one(refs: Map<Seq<u8>, i64>, blob: Seq<u8>) -> Result<
    Map<Seq<u8>, i64>,
    StateError,
> {
    if !refs.dom().contains(blob) {
        Ok(refs.insert(blob, 1))
    } else if refs[blob] == i64::MAX {
        Err(StateError::TooManyRefs)
    } else {
        Ok(refs.insert(blob, (refs[blob] + 1) as i64))
    }
}

/// The reference counts with one more reference to each listed blob.
pub open spec fn retain(refs: Map<Seq<u8>, i64>, blobs: Seq<Seq<u8>>) -> Result<
    Map<Seq<u8>, i64>,
    StateError,
>
    decreases blobs.len(),
{
    if blobs.len() == 0 {
        Ok(refs)
    } else {
        match retain(refs, blobs.drop_last()) {
            Ok(r) => retain_one(r, blobs.last()),
            Err(e) => Err(e),
        }
    }
}

/// The reference counts with one more reference to each listed blob, up to the first
/// that has no successor.
pub open spec fn retain_far(refs: Map<Seq<u8>, i64>, blobs: Seq<Seq<u8>>) -> Map<Seq<u8>, i64>
    decreases blobs.len(),
{
    if blobs.len() == 0 {
        refs
    } else {
        match retain(refs, blobs.drop_last()) {
            Err(_) => retain_far(refs, blobs.drop_last()),
            Ok(r) => match retain_one(r, blobs.last()) {
                Ok(more) => more,
                Err(_) => r,
            },
        }
    }
}

/// The reference counts once the references of the row under `id` are given back.
pub open spec fn without_row(t: Tables, id: ObjectKey) -> Result<Map<Seq<u8>, i64>, StateError> {
    if !t.manifests.dom().contains(id) {
        Ok(t.refs)
    } else {
        match t.manifests[id].blobs {
            Some(blobs) => Ok(release(t.refs, blobs)),
            None => Err(StateError::BadManifest),
        }
    }
}

/// The tables with `row` under `id`: references of the row it replaces are given
/// back, then those of the new row taken.
pub open spec fn with_row(t: Tables, id: ObjectKey, row: ManifestView) -> Result<
    Tables,
    StateError,
> {
    match without_row(t, id) {
        Err(e) => Err(e),
        Ok(released) => match row.blobs {
            None => Err(StateError::BadManifest),
            Some(blobs) => match retain(released, blobs) {
                Err(e) => Err(e),
                Ok(refs) => Ok(
                    Tables { manifests: t.manifests.insert(id, row), refs: refs, ..t },
                ),
            },
        },
    }
}

/// What a write of `row` under `id` leaves of the tables where it fails.
pub open spec fn with_row_failed(t: Tables, id: ObjectKey, row: ManifestView) -> Tables {
    match without_row(t, id) {
        Err(_) => t,
        Ok(released) => match row.blobs {
            None => Tables { refs: released, ..t },
            Some(blobs) => Tables { refs: retain_far(released, blobs), ..t },
        },
    }
}

/// The tables with a bucket that was not there before.
pub open spec fn with_bucket(t: Tables, name: Seq<char>, created_at: u64, owner: Seq<u8>) -> Tables {
    Tables { buckets: t.buckets.insert(name, BucketView { created_at, owner }), ..t }
}

/// The tables without a bucket and without the manifests in it, whose references are
/// given back.
pub open spec fn without_bucket(t: Tables, name: Seq<char>) -> Tables {
    Tables {
        buckets: t.buckets.remove(name),
        manifests: without_manifests_of(t.manifests, name),
        refs: release_rows(t.refs, manifests_of(t.manifests, name)),
        ..t
    }
}

/// The manifests that lie in a bucket.
pub open spec fn manifests_of(
    manifests: Map<ObjectKey, ManifestView>,
    bucket: Seq<char>,
) -> Map<ObjectKey, ManifestView> {
    manifests.restrict(Set::new(|id: ObjectKey| id.0 == bucket))
}

/// The manifests that lie in other buckets.
pub open spec fn without_manifests_of(
    manifests: Map<ObjectKey, ManifestView>,
    bucket: Seq<char>,
) -> Map<ObjectKey, ManifestView> {
    manifests.restrict(Set::new(|id: ObjectKey| id.0 != bucket))
}

/// The registry with some nodes marked as offline.
pub open spec fn marked_offline(nodes: Map<Seq<u8>, NodeView>, ids: Seq<Seq<u8>>) -> Map<
    Seq<u8>,
    NodeView,
> {
    nodes.map_entries(
        |id: Seq<u8>, n: NodeView|
            if ids.contains(id) {
                NodeView { status: NodeStatus::Offline, ..n }
            } else {
                n
            },
    )
}

/// The row that a commit writes.
pub open spec fn manifest_row(
    object_hash: Seq<u8>,
    manifest: Seq<u8>,
    signature: Seq<u8>,
    created_at: u64,
    blobs: Option<Vec<Vec<u8>>>,
) -> ManifestView {
    ManifestView {
        object_hash,
        manifest,
        signature,
        created_at,
        blobs: optional_contents(blobs),
    }
}

/// The contents of an optional list of byte strings.
pub open spec fn optional_contents(blobs: Option<Vec<Vec<u8>>>) -> Option<Seq<Seq<u8>>> {
    match blobs {
        Some(b) => Some(bytes::contents(b@)),
        None => None,
    }
}

/// What a command makes of the index, and what is answered.
pub open spec fn outcome(s: Index, cmd: IndexNodeRequest, log_index: u64) -> Result<
    (Index, Answer),
    StateError,
>
    decreases cmd,
{
    let t = s.tables;
    match cmd {
        IndexNodeRequest::CommitManifest {
            bucket,
            key,
            object_hash,
            manifest_bytes,
            signature,
            blobs,
            created_at,
            caller,
        } => {
            let owner = owner_of(t, bucket@);
            if owner is Some && owner->0 != caller@ {
                Ok((s, Answer::Refused("forbidden"@)))
            } else {
                let row = manifest_row(
                    object_hash@,
                    manifest_bytes@,
                    signature@,
                    created_at,
                    blobs,
                );
                match with_row(t, (bucket@, key@), row) {
                    Err(e) => Err(e),
                    Ok(t2) => {
                        let t3 = if owner is Some {
                            t2
                        } else {
                            with_bucket(t2, bucket@, created_at, caller@)
                        };
                        Ok((Index { tables: t3, ..s }, Answer::Done))
                    },
                }
            }
        },
        IndexNodeRequest::CreateBucket { name, created_at, owner } => {
            let existing = owner_of(t, name@);
            if existing is None {
                Ok((Index { tables: with_bucket(t, name@, created_at, owner@), ..s }, Answer::Done))
            } else if existing->0 == owner@ {
                Ok((s, Answer::Done))
            } else {
                Ok((s, Answer::Refused("bucket owned by another key"@)))
            }
        },
        IndexNodeRequest::DeleteBucket { name, caller } => {
            if owner_of(t, name@) != Some(caller@) {
                Ok((s, Answer::Refused("forbidden"@)))
            } else {
                Ok((Index { tables: without_bucket(t, name@), ..s }, Answer::Done))
            }
        },
        IndexNodeRequest::DeleteManifest { bucket, key, caller } => {
            let id = (bucket@, key@);
            if owner_of(t, bucket@) != Some(caller@) {
                Ok((s, Answer::Refused("forbidden"@)))
            } else if !t.manifests.dom().contains(id) {
                Ok((s, Answer::Refused("object not found"@)))
            } else {
                match without_row(t, id) {
                    Err(e) => Err(e),
                    Ok(refs) => Ok(
                        (
                            Index {
                                tables: Tables { manifests: t.manifests.remove(id), refs, ..t },
                                ..s
                            },
                            Answer::Done,
                        ),
                    ),
                }
            }
        },
        IndexNodeRequest::SetRepairOperator { caller } => {
            if t.repair_operator is None {
                Ok(
                    (
                        Index {
                            tables: Tables { repair_operator: Some(caller@), ..t },
                            ..s
                        },
                        Answer::Done,
                    ),
                )
            } else if t.repair_operator->0 == caller@ {
                Ok((s, Answer::Done))
            } else {
                Ok((s, Answer::Refused("forbidden"@)))
            }
        },
        IndexNodeRequest::RepairManifest {
            bucket,
            key,
            object_hash,
            manifest_bytes,
            signature,
            blobs,
            created_at,
            caller,
        } => {
            let id = (bucket@, key@);
            if t.repair_operator != Some(caller@) {
                Ok((s, Answer::Refused("forbidden"@)))
            } else if !t.manifests.dom().contains(id) {
                Ok((s, Answer::Refused("object not found"@)))
            } else {
                let row = manifest_row(
                    object_hash@,
                    manifest_bytes@,
                    signature@,
                    created_at,
                    blobs,
                );
                match with_row(t, id, row) {
                    Err(e) => Err(e),
                    Ok(t2) => Ok((Index { tables: t2, ..s }, Answer::Done)),
                }
            }
        },
        IndexNodeRequest::Batch(entries) => match outcomes(s, entries@, log_index) {
            Err(e) => Err(e),
            Ok((s2, answers)) => Ok((s2, Answer::Each(answers))),
        },
        IndexNodeRequest::RegisterNode { node_id, capacity_bytes, addr, relay_url } => {
            let n = NodeView {
                node_id: node_id@,
                capacity_bytes,
                addr: addr@,
                relay_url: types::optional_text(relay_url),
                last_seen: log_index,
                status: NodeStatus::Online,
            };
            Ok((Index { nodes: s.nodes.insert(node_id@, n), ..s }, Answer::Done))
        },
        IndexNodeRequest::MarkNodesOffline { node_ids } => {
            let ids = bytes::contents(node_ids@);
            Ok((Index { nodes: marked_offline(s.nodes, ids), ..s }, Answer::Done))
        },
    }
}

/// What a list of commands makes of the index, one after the other, and what is
/// answered to each.
pub open spec fn outcomes(s: Index, cmds: Seq<IndexNodeRequest>, log_index: u64) -> Result<
    (Index, Seq<Answer>),
    StateError,
>
    decreases cmds,
{
    if cmds.len() == 0 {
        Ok((s, seq![]))
    } else {
        match outcomes(s, cmds.drop_last(), log_index) {
            Err(e) => Err(e),
            Ok((s2, answers)) => match outcome(s2, cmds.last(), log_index) {
                Err(e) => Err(e),
                Ok((s3, a)) => Ok((s3, answers.push(a))),
            },
        }
    }
}

/// What a command that could not be applied leaves of the index: of a batch, what the
/// commands before it made of it, and of a write what it did up to its failure.
pub open spec fn left_behind(s: Index, cmd: IndexNodeRequest, log_index: u64) -> Index
    decreases cmd,
{
    match cmd {
        IndexNodeRequest::CommitManifest {
            bucket,
            key,
            object_hash,
            manifest_bytes,
            signature,
            blobs,
            created_at,
            caller,
        } => {
            let row = manifest_row(
                object_hash@,
                manifest_bytes@,
                signature@,
                created_at,
                blobs,
            );
            Index { tables: with_row_failed(s.tables, (bucket@, key@), row), ..s }
        },
        IndexNodeRequest::RepairManifest {
            bucket,
            key,
            object_hash,
            manifest_bytes,
            signature,
            blobs,
            created_at,
            caller,
        } => {
            let row = manifest_row(
                object_hash@,
                manifest_bytes@,
                signature@,
                created_at,
                blobs,
            );
            Index { tables: with_row_failed(s.tables, (bucket@, key@), row), ..s }
        },
        IndexNodeRequest::Batch(entries) => left_behind_by_all(s, entries@, log_index),
        _ => s,
    }
}

/// What a list of commands, one of which could not be applied, leaves of the index.
pub open spec fn left_behind_by_all(s: Index, cmds: Seq<IndexNodeRequest>, log_index: u64) -> Index
    decreases cmds,
{
    if cmds.len() == 0 {
        s
    } else {
        match outcomes(s, cmds.drop_last(), log_index) {
            Err(_) => left_behind_by_all(s, cmds.drop_last(), log_index),
            Ok((s2, _)) => left_behind(s2, cmds.last(), log_index),
        }
    }
}

/// Whether `r` is the answer to a command and `after` what it makes of the index.
pub open spec fn applied(
    s: Index,
    cmd: IndexNodeRequest,
    log_index: u64,
    r: Result<IndexNodeResponse, StateError>,
    after: Index,
) -> bool {
    match outcome(s, cmd, log_index) {
        Ok((s2, answer)) => r is Ok && r->Ok_0.says(answer) && after == s2,
        Err(e) => r == Err::<IndexNodeResponse, StateError>(e) && after == left_behind(
            s,
            cmd,
            log_index,
        ),
    }
}

} // verus!
