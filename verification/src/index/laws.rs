//! Laws of the replicated index.
use vstd::prelude::*;

use crate::bytes;
use crate::client::manifest;
use crate::dataplane;
use crate::index::machine;
use crate::index::machine::{EntryPayload, LogEntry};
use crate::index::model;
use crate::index::model::{Index, ManifestView, ObjectKey, StateError, Tables};
use crate::index::types::{Answer, IndexNodeRequest, IndexNodeResponse};
use crate::keys;

verus! {

/// The reference count of a blob; zero where there is no row.
pub open spec fn refs_of(refs: Map<Seq<u8>, i64>, blob: Seq<u8>) -> int {
    if refs.dom().contains(blob) {
        refs[blob] as int
    } else {
        0
    }
}

/// Whether every blob is counted at least as often as live manifests list it.
pub open spec fn covered(t: Tables) -> bool {
    t.manifests.dom().finite() && forall|blob: Seq<u8>| #[trigger]
        refs_of(t.refs, blob) >= model::live(t.manifests, blob)
}

/// Whether every blob is counted exactly as often as live manifests list it.
pub open spec fn exact(t: Tables) -> bool {
    t.manifests.dom().finite() && forall|blob: Seq<u8>| #[trigger]
        refs_of(t.refs, blob) == model::live(t.manifests, blob)
}

/// The listings of a table are those of the manifests in a bucket and those of the
/// others.
proof fn lemma_live_split(m: Map<ObjectKey, ManifestView>, blob: Seq<u8>, bucket: Seq<char>)
    requires
        m.dom().finite(),
    ensures
        model::without_manifests_of(m, bucket).dom().finite(),
        model::live(m, blob) == model::live(model::manifests_of(m, bucket), blob) + model::live(
            model::without_manifests_of(m, bucket),
            blob,
        ),
    decreases m.dom().len(),
{
    let gone = model::manifests_of(m, bucket);
    let kept = model::without_manifests_of(m, bucket);
    assert(gone.dom().subset_of(m.dom()));
    assert(kept.dom().subset_of(m.dom()));
    vstd::set_lib::lemma_set_subset_finite(m.dom(), gone.dom());
    vstd::set_lib::lemma_set_subset_finite(m.dom(), kept.dom());
    if exists|id: ObjectKey| m.dom().contains(id) && id.0 == bucket {
        let id = choose|id: ObjectKey| m.dom().contains(id) && id.0 == bucket;
        model::lemma_live_remove(m, blob, id);
        model::lemma_live_remove(gone, blob, id);
        lemma_live_split(m.remove(id), blob, bucket);
        assert(model::without_manifests_of(m.remove(id), bucket) =~= kept);
        assert(model::manifests_of(m.remove(id), bucket) =~= gone.remove(id));
    } else {
        assert(kept =~= m);
        assert(gone =~= Map::<ObjectKey, ManifestView>::empty());
    }
}

proof fn lemma_without_bucket(t: Tables, name: Seq<char>, blob: Seq<u8>)
    requires
        covered(t),
    ensures
        ({
            let t2 = model::without_bucket(t, name);
            refs_of(t2.refs, blob) - model::live(t2.manifests, blob) == refs_of(t.refs, blob)
                - model::live(t.manifests, blob)
        }),
{
    lemma_live_split(t.manifests, blob, name);
    assert(refs_of(t.refs, blob) >= model::live(t.manifests, blob));
}

proof fn lemma_live_positive(m: Map<ObjectKey, ManifestView>, blob: Seq<u8>)
    requires
        m.dom().finite(),
        model::live(m, blob) > 0,
    ensures
        exists|id: ObjectKey| #[trigger] m.dom().contains(id) && model::uses(m[id], blob) > 0,
    decreases m.dom().len(),
{
    let c = m.dom().choose();
    assert(m.dom().contains(c));
    if model::uses(m[c], blob) == 0 {
        lemma_live_positive(m.remove(c), blob);
        let id = choose|id: ObjectKey| #[trigger]
            m.remove(c).dom().contains(id) && model::uses(m.remove(c)[id], blob) > 0;
        assert(m.dom().contains(id));
    }
}

/// A blob occurs in a list just where the list contains it.
pub proof fn occurrences_positive(blobs: Seq<Seq<u8>>, blob: Seq<u8>)
    ensures
        model::occurrences(blobs, blob) > 0 <==> blobs.contains(blob),
    decreases blobs.len(),
{
    if blobs.len() > 0 {
        occurrences_positive(blobs.drop_last(), blob);
        if blobs.drop_last().contains(blob) {
            let i = choose|i: int| 0 <= i < blobs.len() - 1 && blobs.drop_last()[i] == blob;
            assert(blobs[i] == blob);
        }
        if blobs.contains(blob) && blobs.last() != blob {
            let i = choose|i: int| 0 <= i < blobs.len() && blobs[i] == blob;
            assert(blobs.drop_last()[i] == blob);
        }
    }
}

proof fn lemma_release(refs: Map<Seq<u8>, i64>, blobs: Seq<Seq<u8>>, blob: Seq<u8>)
    requires
        refs_of(refs, blob) >= model::occurrences(blobs, blob),
    ensures
        refs_of(model::release(refs, blobs), blob) == refs_of(refs, blob) - model::occurrences(
            blobs,
            blob,
        ),
    decreases blobs.len(),
{
    if blobs.len() > 0 {
        lemma_release(refs, blobs.drop_last(), blob);
    }
}

proof fn lemma_retain(refs: Map<Seq<u8>, i64>, blobs: Seq<Seq<u8>>, blob: Seq<u8>)
    requires
        model::retain(refs, blobs) is Ok,
    ensures
        refs_of(model::retain(refs, blobs)->Ok_0, blob) == refs_of(refs, blob) + model::occurrences(
            blobs,
            blob,
        ),
    decreases blobs.len(),
{
    if blobs.len() > 0 {
        lemma_retain(refs, blobs.drop_last(), blob);
    }
}

proof fn lemma_without_row(t: Tables, id: ObjectKey, blob: Seq<u8>)
    requires
        covered(t),
        model::without_row(t, id) is Ok,
    ensures
        refs_of(model::without_row(t, id)->Ok_0, blob) - model::live(t.manifests.remove(id), blob)
            == refs_of(t.refs, blob) - model::live(t.manifests, blob),
{
    assert(refs_of(t.refs, blob) >= model::live(t.manifests, blob));
    if t.manifests.dom().contains(id) {
        model::lemma_live_remove(t.manifests, blob, id);
        lemma_release(t.refs, t.manifests[id].blobs->0, blob);
    } else {
        assert(t.manifests.remove(id) =~= t.manifests);
    }
}

proof fn lemma_with_row(t: Tables, id: ObjectKey, row: ManifestView, blob: Seq<u8>)
    requires
        covered(t),
        model::with_row(t, id, row) is Ok,
    ensures
        ({
            let t2 = model::with_row(t, id, row)->Ok_0;
            refs_of(t2.refs, blob) - model::live(t2.manifests, blob) == refs_of(t.refs, blob) - model::live(
                t.manifests,
                blob,
            )
        }),
{
    lemma_without_row(t, id, blob);
    let released = model::without_row(t, id)->Ok_0;
    lemma_retain(released, row.blobs->0, blob);
    model::lemma_live_insert(t.manifests, blob, id, row);
}

/// A command, or a batch of them, never lets a reference count fall below the
/// number of times that live manifests list the blob.
pub proof fn references_stay_covered(s: Index, cmd: IndexNodeRequest, log_index: u64)
    requires
        covered(s.tables),
        model::outcome(s, cmd, log_index) is Ok,
    ensures
        covered(model::outcome(s, cmd, log_index)->Ok_0.0.tables),
    decreases cmd,
{
    let t = s.tables;
    let t2 = model::outcome(s, cmd, log_index)->Ok_0.0.tables;
    match cmd {
        IndexNodeRequest::Batch(entries) => {
            references_stay_covered_by_all(s, entries@, log_index);
        },
        _ => {
            lemma_single(s, cmd, log_index);
            assert forall|blob: Seq<u8>| #[trigger] refs_of(t2.refs, blob) >= model::live(
                t2.manifests,
                blob,
            ) by {
                assert(refs_of(t.refs, blob) >= model::live(t.manifests, blob));
            }
        },
    }
}

/// The same of a list of commands.
pub proof fn references_stay_covered_by_all(s: Index, cmds: Seq<IndexNodeRequest>, log_index: u64)
    requires
        covered(s.tables),
        model::outcomes(s, cmds, log_index) is Ok,
    ensures
        covered(model::outcomes(s, cmds, log_index)->Ok_0.0.tables),
    decreases cmds,
{
    if cmds.len() > 0 {
        references_stay_covered_by_all(s, cmds.drop_last(), log_index);
        let s2 = model::outcomes(s, cmds.drop_last(), log_index)->Ok_0.0;
        references_stay_covered(s2, cmds.last(), log_index);
    }
}

/// Of commands other than batches: the excess of counts over live listings stays as
/// it is.
proof fn lemma_single(s: Index, cmd: IndexNodeRequest, log_index: u64)
    requires
        covered(s.tables),
        model::outcome(s, cmd, log_index) is Ok,
        !(cmd is Batch),
    ensures
        ({
            let t = s.tables;
            let t2 = model::outcome(s, cmd, log_index)->Ok_0.0.tables;
            t2.manifests.dom().finite() && forall|blob: Seq<u8>| #[trigger]
                refs_of(t2.refs, blob) - model::live(t2.manifests, blob) == refs_of(t.refs, blob) - model::live(
                    t.manifests,
                    blob,
                )
        }),
{
    let t = s.tables;
    let t2 = model::outcome(s, cmd, log_index)->Ok_0.0.tables;
    match cmd {
        IndexNodeRequest::CommitManifest {
            bucket,
            key,
            object_hash,
            manifest_bytes,
            signature,
            blobs,
            created_at,
            caller,
        } => {
            let row = model::manifest_row(
                object_hash@,
                manifest_bytes@,
                signature@,
                created_at,
                blobs,
            );
            if t2 != t {
                assert forall|blob: Seq<u8>| #[trigger] refs_of(t2.refs, blob) - model::live(
                    t2.manifests,
                    blob,
                ) == refs_of(t.refs, blob) - model::live(t.manifests, blob) by {
                    lemma_with_row(t, (bucket@, key@), row, blob);
                }
            }
        },
        IndexNodeRequest::RepairManifest {
            bucket,
            key,
            object_hash,
            manifest_bytes,
            signature,
            blobs,
            created_at,
            caller,
        } => {
            let row = model::manifest_row(
                object_hash@,
                manifest_bytes@,
                signature@,
                created_at,
                blobs,
            );
            if t2 != t {
                assert forall|blob: Seq<u8>| #[trigger] refs_of(t2.refs, blob) - model::live(
                    t2.manifests,
                    blob,
                ) == refs_of(t.refs, blob) - model::live(t.manifests, blob) by {
                    lemma_with_row(t, (bucket@, key@), row, blob);
                }
            }
        },
        IndexNodeRequest::DeleteManifest { bucket, key, caller } => {
            if t2 != t {
                assert forall|blob: Seq<u8>| #[trigger] refs_of(t2.refs, blob) - model::live(
                    t2.manifests,
                    blob,
                ) == refs_of(t.refs, blob) - model::live(t.manifests, blob) by {
                    lemma_without_row(t, (bucket@, key@), blob);
                }
            }
        },
        IndexNodeRequest::DeleteBucket { name, caller } => {
            if t2 != t {
                lemma_live_split(t.manifests, seq![], name@);
                assert forall|blob: Seq<u8>| #[trigger] refs_of(t2.refs, blob) - model::live(
                    t2.manifests,
                    blob,
                ) == refs_of(t.refs, blob) - model::live(t.manifests, blob) by {
                    lemma_without_bucket(t, name@, blob);
                }
            }
        },
        _ => {},
    }
}

/// The same of the log, so that it holds of every state that a state machine which
/// began with covered tables comes to.
pub proof fn references_stay_covered_by_log<L, M>(s: Index, entries: Seq<LogEntry<L, M>>)
    requires
        covered(s.tables),
        machine::batch_outcome(s, entries) is Ok,
    ensures
        covered(machine::batch_outcome(s, entries)->Ok_0.0.tables),
    decreases entries.len(),
{
    if entries.len() > 0 {
        references_stay_covered_by_log(s, entries.drop_last());
        let s2 = machine::batch_outcome(s, entries.drop_last())->Ok_0.0;
        match entries.last().payload {
            EntryPayload::Normal(cmd) => {
                references_stay_covered(s2, cmd, entries.last().index);
            },
            _ => {},
        }
    }
}

/// Reference counts that are exact stay exact: what a commit takes, the overwriting
/// commit, the deletion of the object or that of its bucket gives back.
pub proof fn references_stay_exact(s: Index, cmd: IndexNodeRequest, log_index: u64)
    requires
        exact(s.tables),
        model::outcome(s, cmd, log_index) is Ok,
    ensures
        exact(model::outcome(s, cmd, log_index)->Ok_0.0.tables),
    decreases cmd,
{
    let t = s.tables;
    let t2 = model::outcome(s, cmd, log_index)->Ok_0.0.tables;
    assert(covered(t)) by {
        assert forall|blob: Seq<u8>| #[trigger] refs_of(t.refs, blob) >= model::live(
            t.manifests,
            blob,
        ) by {}
    }
    match cmd {
        IndexNodeRequest::Batch(entries) => {
            references_stay_exact_by_all(s, entries@, log_index);
        },
        _ => {
            lemma_single(s, cmd, log_index);
            assert forall|blob: Seq<u8>| #[trigger] refs_of(t2.refs, blob) == model::live(
                t2.manifests,
                blob,
            ) by {
                assert(refs_of(t.refs, blob) == model::live(t.manifests, blob));
            }
        },
    }
}

/// The same of a list of commands.
pub proof fn references_stay_exact_by_all(s: Index, cmds: Seq<IndexNodeRequest>, log_index: u64)
    requires
        exact(s.tables),
        model::outcomes(s, cmds, log_index) is Ok,
    ensures
        exact(model::outcomes(s, cmds, log_index)->Ok_0.0.tables),
    decreases cmds,
{
    if cmds.len() > 0 {
        references_stay_exact_by_all(s, cmds.drop_last(), log_index);
        let s2 = model::outcomes(s, cmds.drop_last(), log_index)->Ok_0.0;
        references_stay_exact(s2, cmds.last(), log_index);
    }
}

/// The same of the log.
pub proof fn references_stay_exact_by_log<L, M>(s: Index, entries: Seq<LogEntry<L, M>>)
    requires
        exact(s.tables),
        machine::batch_outcome(s, entries) is Ok,
    ensures
        exact(machine::batch_outcome(s, entries)->Ok_0.0.tables),
    decreases entries.len(),
{
    if entries.len() > 0 {
        references_stay_exact_by_log(s, entries.drop_last());
        let s2 = machine::batch_outcome(s, entries.drop_last())->Ok_0.0;
        match entries.last().payload {
            EntryPayload::Normal(cmd) => {
                references_stay_exact(s2, cmd, entries.last().index);
            },
            _ => {},
        }
    }
}

/// An index without rows counts exactly.
pub proof fn empty_index_is_exact(t: Tables)
    requires
        t.manifests == Map::<ObjectKey, ManifestView>::empty(),
        t.refs == Map::<Seq<u8>, i64>::empty(),
    ensures
        exact(t),
        covered(t),
{
}

/// Garbage collection is safe: a blob that a stored manifest lists is never among
/// the candidates.
pub proof fn live_blobs_are_no_candidates(t: Tables, id: ObjectKey, blob: Seq<u8>)
    requires
        covered(t),
        t.manifests.dom().contains(id),
        t.manifests[id].blobs is Some,
        t.manifests[id].blobs->0.contains(blob),
    ensures
        !machine::unreferenced(t.refs, blob),
{
    model::lemma_live_remove(t.manifests, blob, id);
    occurrences_positive(t.manifests[id].blobs->0, blob);
    assert(refs_of(t.refs, blob) >= model::live(t.manifests, blob));
}

/// Whether a stored manifest lists a blob.
pub open spec fn listed(t: Tables, blob: Seq<u8>) -> bool {
    exists|id: ObjectKey| #[trigger]
        t.manifests.dom().contains(id) && t.manifests[id].blobs is Some
            && t.manifests[id].blobs->0.contains(blob)
}

/// Where the counts are exact, the candidates are just the blobs that no stored
/// manifest lists.
pub proof fn exact_counts_find_all_garbage(t: Tables, blob: Seq<u8>)
    requires
        exact(t),
    ensures
        machine::unreferenced(t.refs, blob) <==> !listed(t, blob),
{
    assert(refs_of(t.refs, blob) == model::live(t.manifests, blob));
    if model::live(t.manifests, blob) > 0 {
        lemma_live_positive(t.manifests, blob);
        let id = choose|id: ObjectKey| #[trigger]
            t.manifests.dom().contains(id) && model::uses(t.manifests[id], blob) > 0;
        occurrences_positive(t.manifests[id].blobs->0, blob);
    } else {
        assert forall|id: ObjectKey| #[trigger]
            t.manifests.dom().contains(id) && t.manifests[id].blobs is Some
            implies !t.manifests[id].blobs->0.contains(blob) by {
            model::lemma_live_remove(t.manifests, blob, id);
            occurrences_positive(t.manifests[id].blobs->0, blob);
        }
    }
}

/// Whatever log an index that began empty has applied, the candidates for garbage
/// collection are just the blobs that no stored manifest lists.
pub proof fn garbage_is_what_no_manifest_lists<L, M>(
    s: Index,
    entries: Seq<LogEntry<L, M>>,
    blob: Seq<u8>,
)
    requires
        s.tables.manifests == Map::<ObjectKey, ManifestView>::empty(),
        s.tables.refs == Map::<Seq<u8>, i64>::empty(),
        machine::batch_outcome(s, entries) is Ok,
    ensures
        ({
            let t = machine::batch_outcome(s, entries)->Ok_0.0.tables;
            machine::unreferenced(t.refs, blob) <==> !listed(t, blob)
        }),
{
    empty_index_is_exact(s.tables);
    references_stay_exact_by_log(s, entries);
    exact_counts_find_all_garbage(machine::batch_outcome(s, entries)->Ok_0.0.tables, blob);
}

/// A refused command changes nothing.
pub proof fn refusal_changes_nothing(s: Index, cmd: IndexNodeRequest, log_index: u64)
    requires
        model::outcome(s, cmd, log_index) is Ok,
        model::outcome(s, cmd, log_index)->Ok_0.1 is Refused,
    ensures
        model::outcome(s, cmd, log_index)->Ok_0.0 == s,
{
}

/// Whether a command writes to, or deletes from, a bucket on behalf of a caller.
pub open spec fn writes_to(cmd: IndexNodeRequest, bucket: Seq<char>, caller: Seq<u8>) -> bool {
    match cmd {
        IndexNodeRequest::CommitManifest { bucket: b, caller: c, .. } => b@ == bucket && c@
            == caller,
        IndexNodeRequest::DeleteManifest { bucket: b, caller: c, .. } => b@ == bucket && c@
            == caller,
        IndexNodeRequest::DeleteBucket { name, caller: c } => name@ == bucket && c@ == caller,
        _ => false,
    }
}

/// Who does not own a bucket is answered "forbidden" on every write to it, and
/// nothing changes.
pub proof fn strangers_are_refused(
    s: Index,
    cmd: IndexNodeRequest,
    log_index: u64,
    bucket: Seq<char>,
    caller: Seq<u8>,
)
    requires
        writes_to(cmd, bucket, caller),
        s.tables.buckets.dom().contains(bucket),
        s.tables.buckets[bucket].owner != caller,
    ensures
        model::outcome(s, cmd, log_index) == Ok::<(Index, Answer), StateError>(
            (s, Answer::Refused("forbidden"@)),
        ),
{
}

/// Whether a command deletes a bucket on behalf of a caller, itself or in a batch.
pub open spec fn deletes_for(cmd: IndexNodeRequest, bucket: Seq<char>, caller: Seq<u8>) -> bool
    decreases cmd,
{
    match cmd {
        IndexNodeRequest::DeleteBucket { name, caller: c } => name@ == bucket && c@ == caller,
        IndexNodeRequest::Batch(entries) => any_deletes_for(entries@, bucket, caller),
        _ => false,
    }
}

/// Whether one of some commands deletes a bucket on behalf of a caller.
pub open spec fn any_deletes_for(cmds: Seq<IndexNodeRequest>, bucket: Seq<char>, caller: Seq<u8>) -> bool
    decreases cmds,
{
    cmds.len() > 0 && (any_deletes_for(cmds.drop_last(), bucket, caller) || deletes_for(
        cmds.last(),
        bucket,
        caller,
    ))
}

/// The owner of a bucket stays who they are, whatever command or batch is applied,
/// unless the owner deletes the bucket.
pub proof fn owners_are_stable(
    s: Index,
    cmd: IndexNodeRequest,
    log_index: u64,
    bucket: Seq<char>,
    owner: Seq<u8>,
)
    requires
        model::outcome(s, cmd, log_index) is Ok,
        model::owner_of(s.tables, bucket) == Some(owner),
        !deletes_for(cmd, bucket, owner),
    ensures
        model::owner_of(model::outcome(s, cmd, log_index)->Ok_0.0.tables, bucket) == Some(owner),
    decreases cmd,
{
    match cmd {
        IndexNodeRequest::Batch(entries) => {
            owners_are_stable_in_all(s, entries@, log_index, bucket, owner);
        },
        _ => {},
    }
}

/// The same of a list of commands.
pub proof fn owners_are_stable_in_all(
    s: Index,
    cmds: Seq<IndexNodeRequest>,
    log_index: u64,
    bucket: Seq<char>,
    owner: Seq<u8>,
)
    requires
        model::outcomes(s, cmds, log_index) is Ok,
        model::owner_of(s.tables, bucket) == Some(owner),
        !any_deletes_for(cmds, bucket, owner),
    ensures
        model::owner_of(model::outcomes(s, cmds, log_index)->Ok_0.0.tables, bucket) == Some(owner),
    decreases cmds,
{
    if cmds.len() > 0 {
        owners_are_stable_in_all(s, cmds.drop_last(), log_index, bucket, owner);
        let s2 = model::outcomes(s, cmds.drop_last(), log_index)->Ok_0.0;
        owners_are_stable(s2, cmds.last(), log_index, bucket, owner);
    }
}

/// What is read of an object after a commit that was carried out is what was
/// committed.
pub proof fn read_after_commit(s: Index, cmd: IndexNodeRequest, log_index: u64)
    requires
        cmd is CommitManifest,
        model::outcome(s, cmd, log_index) is Ok,
        model::outcome(s, cmd, log_index)->Ok_0.1 is Done,
    ensures
        ({
            let t = model::outcome(s, cmd, log_index)->Ok_0.0.tables;
            let id = (cmd->CommitManifest_bucket@, cmd->CommitManifest_key@);
            &&& t.manifests.dom().contains(id)
            &&& t.manifests[id].manifest == cmd->CommitManifest_manifest_bytes@
            &&& t.manifests[id].signature == cmd->CommitManifest_signature@
            &&& t.manifests[id].object_hash == cmd->CommitManifest_object_hash@
            &&& model::owner_of(t, id.0) == Some(cmd->CommitManifest_caller@)
            &&& forall|other: ObjectKey|
                other != id ==> (#[trigger] t.manifests.dom().contains(other)
                    <==> s.tables.manifests.dom().contains(other)) && (t.manifests.dom().contains(
                    other,
                ) ==> t.manifests[other] == s.tables.manifests[other])
        }),
{
}

/// What is read of an object after a repair that was carried out is what the repair
/// operator wrote; the bucket's owner stays.
pub proof fn read_after_repair(s: Index, cmd: IndexNodeRequest, log_index: u64)
    requires
        cmd is RepairManifest,
        model::outcome(s, cmd, log_index) is Ok,
        model::outcome(s, cmd, log_index)->Ok_0.1 is Done,
    ensures
        ({
            let t = model::outcome(s, cmd, log_index)->Ok_0.0.tables;
            let id = (cmd->RepairManifest_bucket@, cmd->RepairManifest_key@);
            &&& t.repair_operator == Some(cmd->RepairManifest_caller@)
            &&& t.manifests.dom().contains(id)
            &&& t.manifests[id].manifest == cmd->RepairManifest_manifest_bytes@
            &&& t.manifests[id].signature == cmd->RepairManifest_signature@
            &&& t.manifests[id].object_hash == cmd->RepairManifest_object_hash@
            &&& t.buckets == s.tables.buckets
            &&& forall|other: ObjectKey|
                other != id ==> (#[trigger] t.manifests.dom().contains(other)
                    <==> s.tables.manifests.dom().contains(other)) && (t.manifests.dom().contains(
                    other,
                ) ==> t.manifests[other] == s.tables.manifests[other])
        }),
{
}

/// A manifest that its owner signed and committed is believed by its owner as it is
/// read back, unless the signature is the degenerate one.
pub proof fn own_commits_are_believed(
    s: Index,
    cmd: IndexNodeRequest,
    log_index: u64,
    secret: Seq<u8>,
)
    requires
        cmd is CommitManifest,
        manifest::signed_by(
            secret,
            cmd->CommitManifest_manifest_bytes@,
            cmd->CommitManifest_signature@,
        ),
        !keys::degenerate(cmd->CommitManifest_signature@),
        model::outcome(s, cmd, log_index) is Ok,
        model::outcome(s, cmd, log_index)->Ok_0.1 is Done,
    ensures
        ({
            let t = model::outcome(s, cmd, log_index)->Ok_0.0.tables;
            let id = (cmd->CommitManifest_bucket@, cmd->CommitManifest_key@);
            &&& t.manifests.dom().contains(id)
            &&& dataplane::believed(
                t.manifests[id].manifest,
                t.manifests[id].signature,
                keys::public_of(secret),
            ) is Ok
        }),
{
    read_after_commit(s, cmd, log_index);
}

/// A repaired manifest is believed by who signed it as it is read back, unless the
/// signature is the degenerate one.
pub proof fn own_repairs_are_believed(
    s: Index,
    cmd: IndexNodeRequest,
    log_index: u64,
    secret: Seq<u8>,
)
    requires
        cmd is RepairManifest,
        manifest::signed_by(
            secret,
            cmd->RepairManifest_manifest_bytes@,
            cmd->RepairManifest_signature@,
        ),
        !keys::degenerate(cmd->RepairManifest_signature@),
        model::outcome(s, cmd, log_index) is Ok,
        model::outcome(s, cmd, log_index)->Ok_0.1 is Done,
    ensures
        ({
            let t = model::outcome(s, cmd, log_index)->Ok_0.0.tables;
            let id = (cmd->RepairManifest_bucket@, cmd->RepairManifest_key@);
            &&& t.manifests.dom().contains(id)
            &&& dataplane::believed(
                t.manifests[id].manifest,
                t.manifests[id].signature,
                keys::public_of(secret),
            ) is Ok
        }),
{
    read_after_repair(s, cmd, log_index);
}

/// A commit succeeds for the owner, and for anyone where the bucket is new, if the
/// manifest decodes, the one it replaces does too, and no count is exhausted.
pub proof fn owners_commit(
    s: Index,
    cmd: IndexNodeRequest,
    log_index: u64,
)
    requires
        cmd is CommitManifest,
        ({
            let owner = model::owner_of(s.tables, cmd->CommitManifest_bucket@);
            owner is None || owner->0 == cmd->CommitManifest_caller@
        }),
        model::with_row(
            s.tables,
            (cmd->CommitManifest_bucket@, cmd->CommitManifest_key@),
            model::manifest_row(
                cmd->CommitManifest_object_hash@,
                cmd->CommitManifest_manifest_bytes@,
                cmd->CommitManifest_signature@,
                cmd->CommitManifest_created_at,
                cmd->CommitManifest_blobs,
            ),
        ) is Ok,
    ensures
        model::outcome(s, cmd, log_index) is Ok,
        model::outcome(s, cmd, log_index)->Ok_0.1 is Done,
{
}

/// After a deletion that was carried out the object is gone, and a second one is
/// answered "object not found".
pub proof fn gone_after_delete(s: Index, cmd: IndexNodeRequest, log_index: u64, later: u64)
    requires
        cmd is DeleteManifest,
        model::outcome(s, cmd, log_index) is Ok,
        model::outcome(s, cmd, log_index)->Ok_0.1 is Done,
    ensures
        ({
            let s2 = model::outcome(s, cmd, log_index)->Ok_0.0;
            let id = (cmd->DeleteManifest_bucket@, cmd->DeleteManifest_key@);
            &&& !s2.tables.manifests.dom().contains(id)
            &&& model::outcome(s2, cmd, later) == Ok::<(Index, Answer), StateError>(
                (s2, Answer::Refused("object not found"@)),
            )
        }),
{
}

/// Deleting a bucket takes its objects with it and leaves the others.
pub proof fn bucket_goes_with_its_objects(s: Index, cmd: IndexNodeRequest, log_index: u64)
    requires
        cmd is DeleteBucket,
        model::outcome(s, cmd, log_index) is Ok,
        model::outcome(s, cmd, log_index)->Ok_0.1 is Done,
    ensures
        ({
            let t = model::outcome(s, cmd, log_index)->Ok_0.0.tables;
            let name = cmd->DeleteBucket_name@;
            &&& !t.buckets.dom().contains(name)
            &&& forall|id: ObjectKey| #[trigger]
                t.manifests.dom().contains(id) <==> s.tables.manifests.dom().contains(id) && id.0
                    != name
        }),
{
}

/// Creating a bucket again changes nothing and succeeds for its owner.
pub proof fn creating_twice_is_creating_once(
    s: Index,
    cmd: IndexNodeRequest,
    log_index: u64,
    later: u64,
)
    requires
        cmd is CreateBucket,
        model::outcome(s, cmd, log_index) is Ok,
        model::outcome(s, cmd, log_index)->Ok_0.1 is Done,
    ensures
        ({
            let s2 = model::outcome(s, cmd, log_index)->Ok_0.0;
            model::outcome(s2, cmd, later) == Ok::<(Index, Answer), StateError>((s2, Answer::Done))
        }),
{
}

/// The repair operator, once registered, stays: the first registration wins.
pub proof fn first_operator_wins(s: Index, cmd: IndexNodeRequest, log_index: u64)
    requires
        s.tables.repair_operator is Some,
        model::outcome(s, cmd, log_index) is Ok,
    ensures
        model::outcome(s, cmd, log_index)->Ok_0.0.tables.repair_operator
            == s.tables.repair_operator,
    decreases cmd,
{
    match cmd {
        IndexNodeRequest::Batch(entries) => {
            first_operator_wins_in_all(s, entries@, log_index);
        },
        _ => {},
    }
}

proof fn first_operator_wins_in_all(s: Index, cmds: Seq<IndexNodeRequest>, log_index: u64)
    requires
        s.tables.repair_operator is Some,
        model::outcomes(s, cmds, log_index) is Ok,
    ensures
        model::outcomes(s, cmds, log_index)->Ok_0.0.tables.repair_operator
            == s.tables.repair_operator,
    decreases cmds,
{
    if cmds.len() > 0 {
        first_operator_wins_in_all(s, cmds.drop_last(), log_index);
        first_operator_wins(
            model::outcomes(s, cmds.drop_last(), log_index)->Ok_0.0,
            cmds.last(),
            log_index,
        );
    }
}

/// A node is online from its registration on, until it is marked otherwise, and
/// again from its next registration on.
pub proof fn registration_brings_online(s: Index, register: IndexNodeRequest, mark: IndexNodeRequest, log_index: u64)
    requires
        register is RegisterNode,
        mark is MarkNodesOffline,
        bytes::contents(mark->MarkNodesOffline_node_ids@).contains(register->RegisterNode_node_id@),
    ensures
        ({
            let id = register->RegisterNode_node_id@;
            let s1 = model::outcome(s, register, log_index)->Ok_0.0;
            let s2 = model::outcome(s1, mark, log_index)->Ok_0.0;
            let s3 = model::outcome(s2, register, log_index)->Ok_0.0;
            &&& machine::online(s1.nodes).contains(id)
            &&& !machine::online(s2.nodes).contains(id)
            &&& machine::online(s3.nodes).contains(id)
            &&& s1.nodes[id].last_seen == log_index
        }),
{
}

/// A batch is applied as its commands are one after the other.
pub proof fn batches_concatenate(
    s: Index,
    a: Seq<IndexNodeRequest>,
    b: Seq<IndexNodeRequest>,
    log_index: u64,
)
    ensures
        model::outcomes(s, a + b, log_index) == (match model::outcomes(s, a, log_index) {
            Err(e) => Err(e),
            Ok((s2, first)) => match model::outcomes(s2, b, log_index) {
                Err(e) => Err(e),
                Ok((s3, second)) => Ok((s3, first + second)),
            },
        }),
    decreases b.len(),
{
    if b.len() == 0 {
        assert(a + b =~= a);
        match model::outcomes(s, a, log_index) {
            Ok((s2, first)) => {
                assert(first + seq![] =~= first);
            },
            Err(e) => {},
        }
    } else {
        assert((a + b).drop_last() =~= a + b.drop_last());
        assert((a + b).last() == b.last());
        batches_concatenate(s, a, b.drop_last(), log_index);
        match model::outcomes(s, a, log_index) {
            Ok((s2, first)) => {
                match model::outcomes(s2, b.drop_last(), log_index) {
                    Ok((s3, second)) => {
                        match model::outcome(s3, b.last(), log_index) {
                            Ok((s4, answer)) => {
                                assert((first + second).push(answer) =~= first + second.push(
                                    answer,
                                ));
                            },
                            Err(e) => {},
                        }
                    },
                    Err(e) => {},
                }
            },
            Err(e) => {},
        }
    }
}

/// It makes no difference how the log is cut into batches.
pub proof fn log_may_be_cut_anywhere<L, M>(
    s: Index,
    a: Seq<LogEntry<L, M>>,
    b: Seq<LogEntry<L, M>>,
)
    ensures
        machine::batch_outcome(s, a + b) == (match machine::batch_outcome(s, a) {
            Err(e) => Err(e),
            Ok((s2, first)) => match machine::batch_outcome(s2, b) {
                Err(e) => Err(e),
                Ok((s3, second)) => Ok((s3, first + second)),
            },
        }),
    decreases b.len(),
{
    if b.len() == 0 {
        assert(a + b =~= a);
        match machine::batch_outcome(s, a) {
            Ok((s2, first)) => {
                assert(first + seq![] =~= first);
            },
            Err(e) => {},
        }
    } else {
        assert((a + b).drop_last() =~= a + b.drop_last());
        assert((a + b).last() == b.last());
        log_may_be_cut_anywhere(s, a, b.drop_last());
        match machine::batch_outcome(s, a) {
            Ok((s2, first)) => {
                match machine::batch_outcome(s2, b.drop_last()) {
                    Ok((s3, second)) => {
                        match machine::entry_outcome(s3, b.last()) {
                            Ok((s4, answer)) => {
                                assert((first + second).push(answer) =~= first + second.push(
                                    answer,
                                ));
                            },
                            Err(e) => {},
                        }
                    },
                    Err(e) => {},
                }
            },
            Err(e) => {},
        }
    }
}

/// Taking a snapshot of what a snapshot restored gives the same snapshot.
pub proof fn snapshot_is_stable(t: Tables)
    ensures
        machine::snapshot_of(machine::snapshot_of(t)) == machine::snapshot_of(t),
{
    assert(machine::snapshot_of(machine::snapshot_of(t)) =~= machine::snapshot_of(t));
}

/// What can be read of an index, and which blobs are garbage, is the same after a
/// snapshot of it is installed elsewhere.
pub proof fn snapshot_keeps_what_is_read(t: Tables, id: ObjectKey, blob: Seq<u8>)
    ensures
        ({
            let r = machine::snapshot_of(t);
            &&& r.buckets == t.buckets
            &&& r.refs == t.refs
            &&& r.repair_operator == t.repair_operator
            &&& r.manifests.dom() == t.manifests.dom()
            &&& t.manifests.dom().contains(id) ==> r.manifests[id].manifest
                == t.manifests[id].manifest && r.manifests[id].signature
                == t.manifests[id].signature && r.manifests[id].object_hash
                == t.manifests[id].object_hash && r.manifests[id].blobs == t.manifests[id].blobs
            &&& machine::unreferenced(r.refs, blob) == machine::unreferenced(t.refs, blob)
        }),
{
    assert(machine::snapshot_of(t).manifests.dom() =~= t.manifests.dom());
}

/// What two replicas, whose tables are finite, agree on when one of them was restored
/// from a snapshot.
pub open spec fn agree(a: Index, b: Index) -> bool {
    a.tables.manifests.dom().finite() && machine::snapshot_of(a.tables) == machine::snapshot_of(b.tables)
}

proof fn lemma_agree(a: Index, b: Index, id: ObjectKey)
    requires
        agree(a, b),
    ensures
        a.tables.manifests.dom() == b.tables.manifests.dom(),
        a.tables.manifests.dom().contains(id) ==> a.tables.manifests[id].blobs
            == b.tables.manifests[id].blobs,
        a.tables.buckets == b.tables.buckets,
        a.tables.refs == b.tables.refs,
        a.tables.repair_operator == b.tables.repair_operator,
{
    let x = machine::snapshot_of(a.tables);
    let y = machine::snapshot_of(b.tables);
    assert(x.manifests.dom() =~= a.tables.manifests.dom());
    assert(y.manifests.dom() =~= b.tables.manifests.dom());
    if a.tables.manifests.dom().contains(id) {
        assert(x.manifests[id].blobs == a.tables.manifests[id].blobs);
        assert(y.manifests[id].blobs == b.tables.manifests[id].blobs);
    }
}

proof fn lemma_agree_insert(a: Index, b: Index, id: ObjectKey, row: ManifestView)
    requires
        agree(a, b),
    ensures
        machine::snapshot_of(
            Tables { manifests: a.tables.manifests.insert(id, row), ..a.tables },
        ).manifests == machine::snapshot_of(
            Tables { manifests: b.tables.manifests.insert(id, row), ..b.tables },
        ).manifests,
        machine::snapshot_of(
            Tables { manifests: a.tables.manifests.remove(id), ..a.tables },
        ).manifests == machine::snapshot_of(
            Tables { manifests: b.tables.manifests.remove(id), ..b.tables },
        ).manifests,
        machine::snapshot_of(
            Tables {
                manifests: model::without_manifests_of(a.tables.manifests, id.0),
                ..a.tables
            },
        ).manifests == machine::snapshot_of(
            Tables {
                manifests: model::without_manifests_of(b.tables.manifests, id.0),
                ..b.tables
            },
        ).manifests,
{
    lemma_agree(a, b, id);
    let f = |row: ManifestView| machine::untimed(row);
    let m = a.tables.manifests;
    let n = b.tables.manifests;
    assert forall|k: ObjectKey| #[trigger] m.dom().contains(k) implies machine::untimed(m[k])
        == machine::untimed(n[k]) by {
        assert(machine::snapshot_of(a.tables).manifests.dom().contains(k));
        assert(machine::snapshot_of(a.tables).manifests[k] == machine::untimed(m[k]));
        assert(machine::snapshot_of(b.tables).manifests[k] == machine::untimed(n[k]));
    }
    assert(m.insert(id, row).map_values(f) =~= n.insert(id, row).map_values(f));
    assert(m.remove(id).map_values(f) =~= n.remove(id).map_values(f));
    assert(model::without_manifests_of(m, id.0).map_values(f) =~= model::without_manifests_of(
        n,
        id.0,
    ).map_values(f));
}

proof fn lemma_agree_release(a: Index, b: Index, bucket: Seq<char>)
    requires
        agree(a, b),
    ensures
        model::without_manifests_of(a.tables.manifests, bucket).dom().finite(),
        model::release_rows(a.tables.refs, model::manifests_of(a.tables.manifests, bucket))
            == model::release_rows(b.tables.refs, model::manifests_of(b.tables.manifests, bucket)),
{
    let m = model::manifests_of(a.tables.manifests, bucket);
    let n = model::manifests_of(b.tables.manifests, bucket);
    lemma_live_split(a.tables.manifests, seq![], bucket);
    lemma_agree(a, b, (seq![], seq![]));
    assert(m.dom().subset_of(a.tables.manifests.dom()));
    vstd::set_lib::lemma_set_subset_finite(a.tables.manifests.dom(), m.dom());
    assert(m.dom() =~= n.dom());
    assert forall|id: ObjectKey| #[trigger] m.dom().contains(id) implies m[id].blobs
        == n[id].blobs by {
        lemma_agree(a, b, id);
    }
    assert forall|blob: Seq<u8>| #[trigger] model::live(m, blob) == model::live(n, blob) by {
        lemma_live_untimed(m, n, blob);
    }
    assert(model::release_rows(a.tables.refs, m) =~= model::release_rows(b.tables.refs, n));
}

/// Replicas that agree give the same answers and go on agreeing, so that one
/// restored from a snapshot cannot be told from the others.
pub proof fn restored_replicas_keep_up(a: Index, b: Index, cmd: IndexNodeRequest, log_index: u64)
    requires
        agree(a, b),
    ensures
        match (model::outcome(a, cmd, log_index), model::outcome(b, cmd, log_index)) {
            (Ok((a2, x)), Ok((b2, y))) => agree(a2, b2) && x == y,
            (Err(e), Err(f)) => e == f,
            _ => false,
        },
    decreases cmd,
{
    match cmd {
        IndexNodeRequest::Batch(entries) => {
            restored_replicas_keep_up_in_all(a, b, entries@, log_index);
        },
        IndexNodeRequest::CommitManifest {
            bucket,
            key,
            object_hash,
            manifest_bytes,
            signature,
            blobs,
            created_at,
            caller,
        } => {
            let row = model::manifest_row(
                object_hash@,
                manifest_bytes@,
                signature@,
                created_at,
                blobs,
            );
            lemma_agree(a, b, (bucket@, key@));
            lemma_agree_insert(a, b, (bucket@, key@), row);
        },
        IndexNodeRequest::RepairManifest {
            bucket,
            key,
            object_hash,
            manifest_bytes,
            signature,
            blobs,
            created_at,
            caller,
        } => {
            let row = model::manifest_row(
                object_hash@,
                manifest_bytes@,
                signature@,
                created_at,
                blobs,
            );
            lemma_agree(a, b, (bucket@, key@));
            lemma_agree_insert(a, b, (bucket@, key@), row);
        },
        IndexNodeRequest::DeleteManifest { bucket, key, caller } => {
            let row = model::manifest_row(seq![], seq![], seq![], 0, None);
            lemma_agree(a, b, (bucket@, key@));
            lemma_agree_insert(a, b, (bucket@, key@), row);
        },
        IndexNodeRequest::DeleteBucket { name, caller } => {
            let row = model::manifest_row(seq![], seq![], seq![], 0, None);
            lemma_agree(a, b, (name@, seq![]));
            lemma_agree_insert(a, b, (name@, seq![]), row);
            lemma_agree_release(a, b, name@);
        },
        _ => {
            lemma_agree(a, b, (seq![], seq![]));
        },
    }
}

/// The same of a list of commands.
pub proof fn restored_replicas_keep_up_in_all(
    a: Index,
    b: Index,
    cmds: Seq<IndexNodeRequest>,
    log_index: u64,
)
    requires
        agree(a, b),
    ensures
        match (model::outcomes(a, cmds, log_index), model::outcomes(b, cmds, log_index)) {
            (Ok((a2, x)), Ok((b2, y))) => agree(a2, b2) && x == y,
            (Err(e), Err(f)) => e == f,
            _ => false,
        },
    decreases cmds,
{
    if cmds.len() > 0 {
        restored_replicas_keep_up_in_all(a, b, cmds.drop_last(), log_index);
        match (
            model::outcomes(a, cmds.drop_last(), log_index),
            model::outcomes(b, cmds.drop_last(), log_index),
        ) {
            (Ok((a2, x)), Ok((b2, y))) => {
                restored_replicas_keep_up(a2, b2, cmds.last(), log_index);
            },
            _ => {},
        }
    }
}

/// The same of the log.
pub proof fn restored_replicas_follow_the_log<L, M>(
    a: Index,
    b: Index,
    entries: Seq<LogEntry<L, M>>,
)
    requires
        agree(a, b),
    ensures
        match (machine::batch_outcome(a, entries), machine::batch_outcome(b, entries)) {
            (Ok((a2, x)), Ok((b2, y))) => agree(a2, b2) && x == y,
            (Err(e), Err(f)) => e == f,
            _ => false,
        },
    decreases entries.len(),
{
    if entries.len() > 0 {
        restored_replicas_follow_the_log(a, b, entries.drop_last());
        match (
            machine::batch_outcome(a, entries.drop_last()),
            machine::batch_outcome(b, entries.drop_last()),
        ) {
            (Ok((a2, x)), Ok((b2, y))) => {
                match entries.last().payload {
                    EntryPayload::Normal(cmd) => {
                        restored_replicas_keep_up(a2, b2, cmd, entries.last().index);
                    },
                    _ => {},
                }
            },
            _ => {},
        }
    }
}

/// Replicas whose indexes are equal, times included, give the same answer to a
/// command, or fail alike, and their indexes are equal afterwards.
pub proof fn equal_replicas_stay_equal(
    s: Index,
    cmd: IndexNodeRequest,
    log_index: u64,
    a: Result<IndexNodeResponse, StateError>,
    after_a: Index,
    b: Result<IndexNodeResponse, StateError>,
    after_b: Index,
)
    requires
        model::applied(s, cmd, log_index, a, after_a),
        model::applied(s, cmd, log_index, b, after_b),
    ensures
        after_a == after_b,
        a is Ok <==> b is Ok,
        a is Err ==> a == b,
        a is Ok ==> exists|answer: Answer| #[trigger]
            a->Ok_0.says(answer) && b->Ok_0.says(answer),
{
    match model::outcome(s, cmd, log_index) {
        Ok((s2, answer)) => {
            assert(a->Ok_0.says(answer) && b->Ok_0.says(answer));
        },
        Err(e) => {},
    }
}

/// Reference counts that cover the live manifests still do after a snapshot, and
/// exact ones stay exact.
pub proof fn snapshot_keeps_references(t: Tables)
    requires
        covered(t),
    ensures
        covered(machine::snapshot_of(t)),
        exact(t) ==> exact(machine::snapshot_of(t)),
{
    let r = machine::snapshot_of(t);
    assert(r.manifests.dom() =~= t.manifests.dom());
    assert forall|blob: Seq<u8>| #[trigger] refs_of(r.refs, blob) >= model::live(r.manifests, blob) by {
        lemma_live_untimed(t.manifests, r.manifests, blob);
        assert(refs_of(t.refs, blob) >= model::live(t.manifests, blob));
    }
    if exact(t) {
        assert forall|blob: Seq<u8>| #[trigger] refs_of(r.refs, blob) == model::live(
            r.manifests,
            blob,
        ) by {
            lemma_live_untimed(t.manifests, r.manifests, blob);
            assert(refs_of(t.refs, blob) == model::live(t.manifests, blob));
        }
    }
}

proof fn lemma_live_untimed(
    m: Map<ObjectKey, ManifestView>,
    n: Map<ObjectKey, ManifestView>,
    blob: Seq<u8>,
)
    requires
        m.dom().finite(),
        m.dom() == n.dom(),
        forall|id: ObjectKey| #[trigger] m.dom().contains(id) ==> m[id].blobs == n[id].blobs,
    ensures
        model::live(m, blob) == model::live(n, blob),
    decreases m.dom().len(),
{
    if m.dom().len() > 0 {
        let c = m.dom().choose();
        assert(m.dom().contains(c));
        assert(m.remove(c).dom() =~= n.remove(c).dom());
        lemma_live_untimed(m.remove(c), n.remove(c), blob);
    }
}

} // verus!
