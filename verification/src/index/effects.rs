//! What each command does, said over its fields and the rows of the index.
use vstd::prelude::*;

use crate::index::machine;
use crate::index::machine::{EntryPayload, LogEntry, StateMachineSnapshotData};
use crate::index::model;
use crate::index::model::{Index, ManifestView, ObjectKey, StateError, Tables};
use crate::index::state;
use crate::index::state::{BucketRow, ManifestRow, RowOp};
use crate::index::types::{
    Answer, IndexNodeRequest, IndexNodeResponse, NodeStats, NodeStatus,
};
use crate::table;
use crate::text;

verus! {

/// How often a blob stands in a list of byte strings.
pub open spec fn times(blobs: Seq<Vec<u8>>, blob: Seq<u8>) -> nat {
    blobs.map_values(|b: Vec<u8>| b@).to_multiset().count(blob)
}

/// A reference count after `given` references were given back and `taken` taken.
pub open spec fn adjusted(count: int, given: nat, taken: nat) -> int {
    if count <= 0 {
        count + taken
    } else if count >= given {
        count - given + taken
    } else {
        taken as int
    }
}

/// The reference count of a blob: zero where there is no row.
pub open spec fn count_of(t: Tables, blob: Seq<u8>) -> int {
    if t.refs.dom().contains(blob) {
        t.refs[blob] as int
    } else {
        0
    }
}

/// How often the manifest stored for an object lists a blob.
pub open spec fn stored_times(t: Tables, id: ObjectKey, blob: Seq<u8>) -> nat {
    if t.manifests.dom().contains(id) && t.manifests[id].blobs is Some {
        t.manifests[id].blobs->0.to_multiset().count(blob)
    } else {
        0
    }
}

/// Occurrences in a list are what a multiset counts.
pub proof fn occurrences_are_counted(blobs: Seq<Seq<u8>>, blob: Seq<u8>)
    ensures
        model::occurrences(blobs, blob) == blobs.to_multiset().count(blob),
    decreases blobs.len(),
{
    broadcast use vstd::seq_lib::group_to_multiset_ensures;

    if blobs.len() > 0 {
        occurrences_are_counted(blobs.drop_last(), blob);
        assert(blobs.drop_last().push(blobs.last()) =~= blobs);
    }
}

proof fn lemma_retain_counts(refs: Map<Seq<u8>, i64>, blobs: Seq<Seq<u8>>, b: Seq<u8>)
    requires
        model::retain(refs, blobs) is Ok,
    ensures
        ({
            let r = model::retain(refs, blobs)->Ok_0;
            let n = model::occurrences(blobs, b);
            &&& r.dom().contains(b) <==> refs.dom().contains(b) || n > 0
            &&& r.dom().contains(b) ==> r[b] == n + (if refs.dom().contains(b) {
                refs[b] as int
            } else {
                0
            })
        }),
    decreases blobs.len(),
{
    if blobs.len() > 0 {
        lemma_retain_counts(refs, blobs.drop_last(), b);
    }
}

proof fn lemma_retain_fits(refs: Map<Seq<u8>, i64>, blobs: Seq<Seq<u8>>)
    requires
        forall|b: Seq<u8>|
            (#[trigger] model::occurrences(blobs, b)) + (if refs.dom().contains(b) {
                refs[b] as int
            } else {
                0
            }) <= i64::MAX,
    ensures
        model::retain(refs, blobs) is Ok,
    decreases blobs.len(),
{
    if blobs.len() > 0 {
        let front = blobs.drop_last();
        assert forall|b: Seq<u8>|
            (#[trigger] model::occurrences(front, b)) + (if refs.dom().contains(b) {
                refs[b] as int
            } else {
                0
            }) <= i64::MAX by {
            assert(model::occurrences(blobs, b) >= model::occurrences(front, b));
        }
        lemma_retain_fits(refs, front);
        lemma_retain_counts(refs, front, blobs.last());
        assert(model::occurrences(blobs, blobs.last()) == model::occurrences(front, blobs.last())
            + 1);
    }
}

proof fn lemma_retain_fails(refs: Map<Seq<u8>, i64>, blobs: Seq<Seq<u8>>) -> (b: Seq<u8>)
    requires
        model::retain(refs, blobs) is Err,
    ensures
        model::retain(refs, blobs)->Err_0 == StateError::TooManyRefs,
        model::occurrences(blobs, b) + (if refs.dom().contains(b) {
            refs[b] as int
        } else {
            0
        }) > i64::MAX,
    decreases blobs.len(),
{
    let front = blobs.drop_last();
    if model::retain(refs, front) is Err {
        let b = lemma_retain_fails(refs, front);
        b
    } else {
        lemma_retain_counts(refs, front, blobs.last());
        blobs.last()
    }
}

/// What became of a write of a row.
proof fn lemma_write(t: Tables, id: ObjectKey, row: ManifestView)
    ensures
        ({
            let replaced = t.manifests.dom().contains(id);
            let r = model::with_row(t, id, row);
            let readable = row.blobs is Some && (replaced ==> t.manifests[id].blobs is Some);
            let fits = forall|b: Seq<u8>|
                adjusted(
                    count_of(t, b),
                    stored_times(t, id, b),
                    #[trigger] row.blobs->0.to_multiset().count(b),
                ) <= i64::MAX;
            &&& r is Ok <==> readable && fits
            &&& !readable ==> r->Err_0 == StateError::BadManifest
            &&& readable && !fits ==> r->Err_0 == StateError::TooManyRefs
            &&& r is Ok ==> r->Ok_0.manifests == t.manifests.insert(id, row)
            &&& r is Ok ==> r->Ok_0.buckets == t.buckets
            &&& r is Ok ==> r->Ok_0.repair_operator == t.repair_operator
            &&& r is Ok ==> forall|b: Seq<u8>|
                {
                    &&& #[trigger] r->Ok_0.refs.dom().contains(b) <==> t.refs.dom().contains(b)
                        || row.blobs->0.to_multiset().count(b) > 0
                    &&& count_of(r->Ok_0, b) == adjusted(
                        count_of(t, b),
                        stored_times(t, id, b),
                        row.blobs->0.to_multiset().count(b),
                    )
                }
        }),
{
    let replaced = t.manifests.dom().contains(id);
    let r = model::with_row(t, id, row);
    let readable = row.blobs is Some && (replaced ==> t.manifests[id].blobs is Some);
    if readable {
        let new = row.blobs->0;
        let released = model::without_row(t, id)->Ok_0;
        let base = |b: Seq<u8>|
            if released.dom().contains(b) {
                released[b] as int
            } else {
                0
            };
        assert forall|b: Seq<u8>|
            #![trigger new.to_multiset().count(b)]
            #![trigger model::occurrences(new, b)]
            {
                &&& model::occurrences(new, b) == new.to_multiset().count(b)
                &&& released.dom() == t.refs.dom()
                &&& base(b) + new.to_multiset().count(b) == adjusted(
                    count_of(t, b),
                    stored_times(t, id, b),
                    new.to_multiset().count(b),
                )
            } by {
            occurrences_are_counted(new, b);
            if replaced {
                let old_blobs = t.manifests[id].blobs->0;
                model::lemma_release_counts(t.refs, old_blobs, b);
                occurrences_are_counted(old_blobs, b);
            }
        }
        let fits = forall|b: Seq<u8>|
            adjusted(
                count_of(t, b),
                stored_times(t, id, b),
                #[trigger] new.to_multiset().count(b),
            ) <= i64::MAX;
        if fits {
            lemma_retain_fits(released, new);
        }
        if r is Err {
            let b = lemma_retain_fails(released, new);
            assert(new.to_multiset().count(b) == model::occurrences(new, b));
        } else {
            assert forall|b: Seq<u8>|
                {
                    &&& #[trigger] r->Ok_0.refs.dom().contains(b) <==> t.refs.dom().contains(b)
                        || new.to_multiset().count(b) > 0
                    &&& count_of(r->Ok_0, b) == adjusted(
                        count_of(t, b),
                        stored_times(t, id, b),
                        new.to_multiset().count(b),
                    )
                } by {
                lemma_retain_counts(released, new, b);
                assert(model::occurrences(new, b) == new.to_multiset().count(b));
            }
            assert forall|b: Seq<u8>|
                adjusted(
                    count_of(t, b),
                    stored_times(t, id, b),
                    #[trigger] new.to_multiset().count(b),
                ) <= i64::MAX by {
                lemma_retain_counts(released, new, b);
                assert(model::occurrences(new, b) == new.to_multiset().count(b));
                if r->Ok_0.refs.dom().contains(b) {
                    assert(r->Ok_0.refs[b] == base(b) + new.to_multiset().count(b));
                }
            }
        }
    }
}

/// What a commit does. Where the bucket belongs to another key it is refused.
/// Otherwise it is carried out exactly where the manifest decodes, the one it replaces
/// does too, and no count outgrows its row. Then the object's row holds what the commit
/// carries, a new bucket belongs to the caller, each blob's count went down by what the
/// old manifest listed and up by what the new one lists, and nothing else changed.
pub proof fn commits_write_one_row(s: Index, cmd: IndexNodeRequest, log_index: u64)
    requires
        cmd is CommitManifest,
    ensures
        ({
            let t = s.tables;
            let bucket = cmd->CommitManifest_bucket@;
            let id = (bucket, cmd->CommitManifest_key@);
            let caller = cmd->CommitManifest_caller@;
            let blobs = cmd->CommitManifest_blobs;
            let new = blobs->0@;
            let r = model::outcome(s, cmd, log_index);
            let t2 = r->Ok_0.0.tables;
            let foreign = t.buckets.dom().contains(bucket) && t.buckets[bucket].owner != caller;
            let readable = blobs is Some && (t.manifests.dom().contains(id)
                ==> t.manifests[id].blobs is Some);
            let fits = forall|b: Seq<u8>|
                adjusted(count_of(t, b), stored_times(t, id, b), #[trigger] times(new, b))
                    <= i64::MAX;
            &&& foreign ==> r == Ok::<(Index, Answer), StateError>(
                (s, Answer::Refused("forbidden"@)),
            )
            &&& !foreign ==> (r is Ok <==> readable && fits)
            &&& !foreign && !readable ==> r->Err_0 == StateError::BadManifest
            &&& !foreign && readable && !fits ==> r->Err_0 == StateError::TooManyRefs
            &&& !foreign && r is Ok ==> {
                &&& r->Ok_0.1 == Answer::Done
                &&& r->Ok_0.0.nodes == s.nodes
                &&& t2.repair_operator == t.repair_operator
                &&& t2.manifests.dom() == t.manifests.dom().insert(id)
                &&& t2.manifests[id].manifest == cmd->CommitManifest_manifest_bytes@
                &&& t2.manifests[id].signature == cmd->CommitManifest_signature@
                &&& t2.manifests[id].object_hash == cmd->CommitManifest_object_hash@
                &&& t2.manifests[id].created_at == cmd->CommitManifest_created_at
                &&& t2.manifests[id].blobs == Some(new.map_values(|b: Vec<u8>| b@))
                &&& forall|other: ObjectKey|
                    other != id && t.manifests.dom().contains(other)
                        ==> #[trigger] t2.manifests[other] == t.manifests[other]
                &&& t2.buckets.dom() == t.buckets.dom().insert(bucket)
                &&& t2.buckets[bucket].owner == caller
                &&& !t.buckets.dom().contains(bucket) ==> t2.buckets[bucket].created_at
                    == cmd->CommitManifest_created_at
                &&& forall|name: Seq<char>|
                    t.buckets.dom().contains(name) ==> #[trigger] t2.buckets[name]
                        == t.buckets[name]
                &&& forall|b: Seq<u8>|
                    {
                        &&& #[trigger] t2.refs.dom().contains(b) <==> t.refs.dom().contains(b)
                            || times(new, b) > 0
                        &&& count_of(t2, b) == adjusted(
                            count_of(t, b),
                            stored_times(t, id, b),
                            times(new, b),
                        )
                    }
            }
        }),
{
    let t = s.tables;
    let id = (cmd->CommitManifest_bucket@, cmd->CommitManifest_key@);
    let blobs = cmd->CommitManifest_blobs;
    let new = blobs->0@;
    let row = model::manifest_row(
        cmd->CommitManifest_object_hash@,
        cmd->CommitManifest_manifest_bytes@,
        cmd->CommitManifest_signature@,
        cmd->CommitManifest_created_at,
        blobs,
    );
    lemma_write(t, id, row);
    if blobs is Some {
        assert(row.blobs->0 =~= new.map_values(|b: Vec<u8>| b@));
        assert forall|b: Seq<u8>|
            #![trigger times(new, b)]
            #![trigger row.blobs->0.to_multiset().count(b)]
            times(new, b) == row.blobs->0.to_multiset().count(b) by {}
    }
    let r = model::outcome(s, cmd, log_index);
    if r is Ok && r->Ok_0.1 == Answer::Done {
        let t2 = r->Ok_0.0.tables;
        assert(t2.manifests.dom() =~= t.manifests.dom().insert(id));
        assert(t2.buckets.dom() =~= t.buckets.dom().insert(cmd->CommitManifest_bucket@));
    }
}

/// A good commit succeeds: by the bucket's owner or into a new bucket, of a manifest that
/// decodes, in place of one that does too or of none, with room in the counts for each
/// blob as often as it is listed.
pub proof fn good_commits_succeed(s: Index, cmd: IndexNodeRequest, log_index: u64)
    requires
        cmd is CommitManifest,
        ({
            let t = s.tables;
            let bucket = cmd->CommitManifest_bucket@;
            let id = (bucket, cmd->CommitManifest_key@);
            &&& t.buckets.dom().contains(bucket) ==> t.buckets[bucket].owner
                == cmd->CommitManifest_caller@
            &&& cmd->CommitManifest_blobs is Some
            &&& t.manifests.dom().contains(id) ==> t.manifests[id].blobs is Some
            &&& forall|b: Seq<u8>|
                count_of(t, b) + (#[trigger] times(cmd->CommitManifest_blobs->0@, b)) < i64::MAX
        }),
    ensures
        model::outcome(s, cmd, log_index) is Ok,
        model::outcome(s, cmd, log_index)->Ok_0.1 == Answer::Done,
        ({
            let t2 = model::outcome(s, cmd, log_index)->Ok_0.0.tables;
            forall|b: Seq<u8>|
                count_of(s.tables, b) == 0 ==> count_of(t2, b) == (#[trigger] times(
                    cmd->CommitManifest_blobs->0@,
                    b,
                ))
        }),
{
    commits_write_one_row(s, cmd, log_index);
    let t = s.tables;
    let id = (cmd->CommitManifest_bucket@, cmd->CommitManifest_key@);
    let new = cmd->CommitManifest_blobs->0@;
    assert forall|b: Seq<u8>|
        adjusted(count_of(t, b), stored_times(t, id, b), #[trigger] times(new, b)) <= i64::MAX by {
        assert(count_of(t, b) + times(new, b) < i64::MAX);
    }
    let t2 = model::outcome(s, cmd, log_index)->Ok_0.0.tables;
    assert forall|b: Seq<u8>| count_of(s.tables, b) == 0 implies count_of(t2, b) == (
    #[trigger] times(new, b)) by {
        assert(t2.refs.dom().contains(b) || !t2.refs.dom().contains(b));
    }
}

/// What a repair does. It is refused to anyone but the repair operator, and where there
/// is no such object. Otherwise it writes the object's row as a commit does, and leaves
/// the buckets alone.
pub proof fn repairs_write_one_row(s: Index, cmd: IndexNodeRequest, log_index: u64)
    requires
        cmd is RepairManifest,
    ensures
        ({
            let t = s.tables;
            let id = (cmd->RepairManifest_bucket@, cmd->RepairManifest_key@);
            let blobs = cmd->RepairManifest_blobs;
            let new = blobs->0@;
            let r = model::outcome(s, cmd, log_index);
            let t2 = r->Ok_0.0.tables;
            let entitled = t.repair_operator == Some(cmd->RepairManifest_caller@);
            let there = t.manifests.dom().contains(id);
            let readable = blobs is Some && t.manifests[id].blobs is Some;
            let fits = forall|b: Seq<u8>|
                adjusted(count_of(t, b), stored_times(t, id, b), #[trigger] times(new, b))
                    <= i64::MAX;
            &&& !entitled ==> r == Ok::<(Index, Answer), StateError>(
                (s, Answer::Refused("forbidden"@)),
            )
            &&& entitled && !there ==> r == Ok::<(Index, Answer), StateError>(
                (s, Answer::Refused("object not found"@)),
            )
            &&& entitled && there ==> (r is Ok <==> readable && fits)
            &&& entitled && there && !readable ==> r->Err_0 == StateError::BadManifest
            &&& entitled && there && readable && !fits ==> r->Err_0 == StateError::TooManyRefs
            &&& entitled && there && r is Ok ==> {
                &&& r->Ok_0.1 == Answer::Done
                &&& r->Ok_0.0.nodes == s.nodes
                &&& t2.repair_operator == t.repair_operator
                &&& t2.buckets == t.buckets
                &&& t2.manifests.dom() == t.manifests.dom()
                &&& t2.manifests[id].manifest == cmd->RepairManifest_manifest_bytes@
                &&& t2.manifests[id].signature == cmd->RepairManifest_signature@
                &&& t2.manifests[id].object_hash == cmd->RepairManifest_object_hash@
                &&& t2.manifests[id].created_at == cmd->RepairManifest_created_at
                &&& t2.manifests[id].blobs == Some(new.map_values(|b: Vec<u8>| b@))
                &&& forall|other: ObjectKey|
                    other != id && t.manifests.dom().contains(other)
                        ==> #[trigger] t2.manifests[other] == t.manifests[other]
                &&& forall|b: Seq<u8>|
                    {
                        &&& #[trigger] t2.refs.dom().contains(b) <==> t.refs.dom().contains(b)
                            || times(new, b) > 0
                        &&& count_of(t2, b) == adjusted(
                            count_of(t, b),
                            stored_times(t, id, b),
                            times(new, b),
                        )
                    }
            }
        }),
{
    let t = s.tables;
    let id = (cmd->RepairManifest_bucket@, cmd->RepairManifest_key@);
    let blobs = cmd->RepairManifest_blobs;
    let new = blobs->0@;
    let row = model::manifest_row(
        cmd->RepairManifest_object_hash@,
        cmd->RepairManifest_manifest_bytes@,
        cmd->RepairManifest_signature@,
        cmd->RepairManifest_created_at,
        blobs,
    );
    lemma_write(t, id, row);
    if blobs is Some {
        assert(row.blobs->0 =~= new.map_values(|b: Vec<u8>| b@));
        assert forall|b: Seq<u8>|
            #![trigger times(new, b)]
            #![trigger row.blobs->0.to_multiset().count(b)]
            times(new, b) == row.blobs->0.to_multiset().count(b) by {}
    }
    let r = model::outcome(s, cmd, log_index);
    if r is Ok && r->Ok_0.1 == Answer::Done {
        assert(r->Ok_0.0.tables.manifests.dom() =~= t.manifests.dom());
    }
}

/// What the deletion of an object does. It is refused to anyone but the bucket's owner,
/// and where there is no such object. Otherwise it is carried out where the stored
/// manifest decodes: the row is gone, each blob's count went down by what it listed,
/// and nothing else changed.
pub proof fn deletions_remove_one_row(s: Index, cmd: IndexNodeRequest, log_index: u64)
    requires
        cmd is DeleteManifest,
    ensures
        ({
            let t = s.tables;
            let bucket = cmd->DeleteManifest_bucket@;
            let id = (bucket, cmd->DeleteManifest_key@);
            let r = model::outcome(s, cmd, log_index);
            let t2 = r->Ok_0.0.tables;
            let entitled = t.buckets.dom().contains(bucket) && t.buckets[bucket].owner
                == cmd->DeleteManifest_caller@;
            let there = t.manifests.dom().contains(id);
            &&& !entitled ==> r == Ok::<(Index, Answer), StateError>(
                (s, Answer::Refused("forbidden"@)),
            )
            &&& entitled && !there ==> r == Ok::<(Index, Answer), StateError>(
                (s, Answer::Refused("object not found"@)),
            )
            &&& entitled && there ==> (r is Ok <==> t.manifests[id].blobs is Some)
            &&& r is Err ==> r->Err_0 == StateError::BadManifest
            &&& entitled && there && r is Ok ==> {
                &&& r->Ok_0.1 == Answer::Done
                &&& r->Ok_0.0.nodes == s.nodes
                &&& t2.repair_operator == t.repair_operator
                &&& t2.buckets == t.buckets
                &&& t2.manifests.dom() == t.manifests.dom().remove(id)
                &&& forall|other: ObjectKey|
                    other != id && t.manifests.dom().contains(other)
                        ==> #[trigger] t2.manifests[other] == t.manifests[other]
                &&& t2.refs.dom() == t.refs.dom()
                &&& forall|b: Seq<u8>|
                    #[trigger] count_of(t2, b) == adjusted(
                        count_of(t, b),
                        stored_times(t, id, b),
                        0,
                    )
            }
        }),
{
    let t = s.tables;
    let id = (cmd->DeleteManifest_bucket@, cmd->DeleteManifest_key@);
    let r = model::outcome(s, cmd, log_index);
    if r is Ok && r->Ok_0.1 == Answer::Done {
        let t2 = r->Ok_0.0.tables;
        let old_blobs = t.manifests[id].blobs->0;
        model::lemma_release_counts(t.refs, old_blobs, seq![]);
        assert forall|b: Seq<u8>|
            #[trigger] count_of(t2, b) == adjusted(
                count_of(t, b),
                stored_times(t, id, b),
                0,
            ) by {
            model::lemma_release_counts(t.refs, old_blobs, b);
            occurrences_are_counted(old_blobs, b);
        }
        assert(t2.manifests.dom() =~= t.manifests.dom().remove(id));
    }
}

/// What the deletion of a bucket does. It is refused to anyone but its owner, and never
/// fails. The bucket and its objects are gone, the others stay as they are. No count
/// goes up, none falls below zero, and those of blobs that no manifest in the bucket
/// lists stay.
pub proof fn bucket_deletions_remove_its_rows(s: Index, cmd: IndexNodeRequest, log_index: u64)
    requires
        cmd is DeleteBucket,
        s.tables.manifests.dom().finite(),
    ensures
        ({
            let t = s.tables;
            let name = cmd->DeleteBucket_name@;
            let r = model::outcome(s, cmd, log_index);
            let t2 = r->Ok_0.0.tables;
            let entitled = t.buckets.dom().contains(name) && t.buckets[name].owner
                == cmd->DeleteBucket_caller@;
            &&& r is Ok
            &&& !entitled ==> r == Ok::<(Index, Answer), StateError>(
                (s, Answer::Refused("forbidden"@)),
            )
            &&& entitled ==> {
                &&& r->Ok_0.1 == Answer::Done
                &&& r->Ok_0.0.nodes == s.nodes
                &&& t2.repair_operator == t.repair_operator
                &&& t2.buckets.dom() == t.buckets.dom().remove(name)
                &&& forall|other: Seq<char>|
                    other != name && t.buckets.dom().contains(other)
                        ==> #[trigger] t2.buckets[other] == t.buckets[other]
                &&& forall|id: ObjectKey| #[trigger]
                    t2.manifests.dom().contains(id) <==> t.manifests.dom().contains(id) && id.0
                        != name
                &&& forall|id: ObjectKey|
                    id.0 != name && t.manifests.dom().contains(id)
                        ==> #[trigger] t2.manifests[id] == t.manifests[id]
                &&& t2.refs.dom() == t.refs.dom()
                &&& forall|b: Seq<u8>|
                    {
                        &&& #[trigger] count_of(t2, b) <= count_of(t, b)
                        &&& count_of(t, b) >= 0 ==> count_of(t2, b) >= 0
                        &&& (forall|id: ObjectKey|
                            id.0 == name && t.manifests.dom().contains(id)
                                ==> #[trigger] stored_times(t, id, b) == 0) ==> count_of(t2, b)
                            == count_of(t, b)
                    }
            }
        }),
{
    let t = s.tables;
    let name = cmd->DeleteBucket_name@;
    let r = model::outcome(s, cmd, log_index);
    if r->Ok_0.1 == Answer::Done {
        let t2 = r->Ok_0.0.tables;
        let gone = model::manifests_of(t.manifests, name);
        assert(gone.dom().subset_of(t.manifests.dom()));
        vstd::set_lib::lemma_set_subset_finite(t.manifests.dom(), gone.dom());
        assert(t2.buckets.dom() =~= t.buckets.dom().remove(name));
        assert(t2.refs.dom() =~= t.refs.dom());
        assert forall|b: Seq<u8>|
            {
                &&& #[trigger] count_of(t2, b) <= count_of(t, b)
                &&& count_of(t, b) >= 0 ==> count_of(t2, b) >= 0
                &&& (forall|id: ObjectKey|
                    id.0 == name && t.manifests.dom().contains(id)
                        ==> #[trigger] stored_times(t, id, b) == 0) ==> count_of(t2, b) == count_of(
                    t,
                    b,
                )
            } by {
            if forall|id: ObjectKey|
                id.0 == name && t.manifests.dom().contains(id)
                    ==> #[trigger] stored_times(t, id, b) == 0 {
                assert forall|id: ObjectKey| #[trigger] gone.dom().contains(id) implies model::uses(
                    gone[id],
                    b,
                ) == 0 by {
                    assert(stored_times(t, id, b) == 0);
                    if gone[id].blobs is Some {
                        occurrences_are_counted(gone[id].blobs->0, b);
                    }
                }
                lemma_none_listed(gone, b);
            }
        }
    }
}

proof fn lemma_none_listed(m: Map<ObjectKey, ManifestView>, blob: Seq<u8>)
    requires
        m.dom().finite(),
        forall|id: ObjectKey| #[trigger] m.dom().contains(id) ==> model::uses(m[id], blob) == 0,
    ensures
        model::live(m, blob) == 0,
    decreases m.dom().len(),
{
    if m.dom().len() > 0 {
        let c = m.dom().choose();
        assert(m.dom().contains(c));
        assert forall|id: ObjectKey| #[trigger] m.remove(c).dom().contains(id) implies model::uses(
            m.remove(c)[id],
            blob,
        ) == 0 by {
            assert(m.dom().contains(id));
        }
        lemma_none_listed(m.remove(c), blob);
    }
}

/// The deletion of a bucket that holds a single object gives back just what the
/// object's manifest lists.
pub proof fn bucket_deletions_give_references_back(
    s: Index,
    cmd: IndexNodeRequest,
    log_index: u64,
    key: Seq<char>,
    blob: Seq<u8>,
)
    requires
        cmd is DeleteBucket,
        s.tables.manifests.dom().finite(),
        s.tables.buckets.dom().contains(cmd->DeleteBucket_name@),
        s.tables.buckets[cmd->DeleteBucket_name@].owner == cmd->DeleteBucket_caller@,
        forall|id: ObjectKey|
            #[trigger] s.tables.manifests.dom().contains(id) && id.0 == cmd->DeleteBucket_name@
                ==> id.1 == key,
    ensures
        count_of(model::outcome(s, cmd, log_index)->Ok_0.0.tables, blob) == adjusted(
            count_of(s.tables, blob),
            stored_times(s.tables, (cmd->DeleteBucket_name@, key), blob),
            0,
        ),
{
    let t = s.tables;
    let id = (cmd->DeleteBucket_name@, key);
    let gone = model::manifests_of(t.manifests, id.0);
    assert(gone.dom().subset_of(t.manifests.dom()));
    vstd::set_lib::lemma_set_subset_finite(t.manifests.dom(), gone.dom());
    if t.manifests.dom().contains(id) {
        model::lemma_live_remove(gone, blob, id);
        assert(gone.remove(id) =~= Map::<ObjectKey, ManifestView>::empty());
        if t.manifests[id].blobs is Some {
            occurrences_are_counted(t.manifests[id].blobs->0, blob);
        }
    } else {
        assert(gone =~= Map::<ObjectKey, ManifestView>::empty());
    }
}

/// What the creation of a bucket does. A new bucket belongs to who creates it; an
/// existing one stays, and the answer says whether it is the caller's.
pub proof fn creations_add_one_bucket(s: Index, cmd: IndexNodeRequest, log_index: u64)
    requires
        cmd is CreateBucket,
    ensures
        ({
            let t = s.tables;
            let name = cmd->CreateBucket_name@;
            let r = model::outcome(s, cmd, log_index);
            let t2 = r->Ok_0.0.tables;
            &&& r is Ok
            &&& t.buckets.dom().contains(name) ==> r == Ok::<(Index, Answer), StateError>(
                (
                    s,
                    if t.buckets[name].owner == cmd->CreateBucket_owner@ {
                        Answer::Done
                    } else {
                        Answer::Refused("bucket owned by another key"@)
                    },
                ),
            )
            &&& !t.buckets.dom().contains(name) ==> {
                &&& r->Ok_0.1 == Answer::Done
                &&& r->Ok_0.0.nodes == s.nodes
                &&& t2.manifests == t.manifests
                &&& t2.refs == t.refs
                &&& t2.repair_operator == t.repair_operator
                &&& t2.buckets.dom() == t.buckets.dom().insert(name)
                &&& t2.buckets[name].owner == cmd->CreateBucket_owner@
                &&& t2.buckets[name].created_at == cmd->CreateBucket_created_at
                &&& forall|other: Seq<char>|
                    t.buckets.dom().contains(other) ==> #[trigger] t2.buckets[other]
                        == t.buckets[other]
            }
        }),
{
    let name = cmd->CreateBucket_name@;
    let t2 = model::outcome(s, cmd, log_index)->Ok_0.0.tables;
    if !s.tables.buckets.dom().contains(name) {
        assert(t2.buckets.dom() =~= s.tables.buckets.dom().insert(name));
    }
}

/// What the registration of a repair operator does: the first one stands, and its
/// repetition is answered in the same way; everyone else is refused.
pub proof fn operators_register_once(s: Index, cmd: IndexNodeRequest, log_index: u64)
    requires
        cmd is SetRepairOperator,
    ensures
        ({
            let t = s.tables;
            let caller = cmd->SetRepairOperator_caller@;
            let r = model::outcome(s, cmd, log_index);
            let t2 = r->Ok_0.0.tables;
            &&& r is Ok
            &&& t.repair_operator is Some ==> r->Ok_0.0 == s
            &&& t.repair_operator == Some(caller) ==> r->Ok_0.1 == Answer::Done
            &&& t.repair_operator is Some && t.repair_operator->0 != caller ==> r->Ok_0.1
                == Answer::Refused("forbidden"@)
            &&& t.repair_operator is None ==> {
                &&& r->Ok_0.1 == Answer::Done
                &&& t2.repair_operator == Some(caller)
                &&& t2.buckets == t.buckets
                &&& t2.manifests == t.manifests
                &&& t2.refs == t.refs
                &&& r->Ok_0.0.nodes == s.nodes
            }
        }),
{
}

/// What the registration of a storage node does: the registry shows what was
/// registered, as online and seen at this log index; the other nodes and the tables
/// stay as they are.
pub proof fn registrations_write_one_node(s: Index, cmd: IndexNodeRequest, log_index: u64)
    requires
        cmd is RegisterNode,
    ensures
        ({
            let id = cmd->RegisterNode_node_id@;
            let r = model::outcome(s, cmd, log_index);
            let s2 = r->Ok_0.0;
            &&& r is Ok
            &&& r->Ok_0.1 == Answer::Done
            &&& s2.tables == s.tables
            &&& s2.nodes.dom() == s.nodes.dom().insert(id)
            &&& s2.nodes[id].node_id == id
            &&& s2.nodes[id].addr == cmd->RegisterNode_addr@
            &&& s2.nodes[id].capacity_bytes == cmd->RegisterNode_capacity_bytes
            &&& s2.nodes[id].last_seen == log_index
            &&& s2.nodes[id].status == NodeStatus::Online
            &&& s2.nodes[id].relay_url is Some <==> cmd->RegisterNode_relay_url is Some
            &&& cmd->RegisterNode_relay_url is Some ==> s2.nodes[id].relay_url->0
                == cmd->RegisterNode_relay_url->0@
            &&& forall|other: Seq<u8>|
                other != id && s.nodes.dom().contains(other) ==> #[trigger] s2.nodes[other]
                    == s.nodes[other]
        }),
{
    let s2 = model::outcome(s, cmd, log_index)->Ok_0.0;
    assert(s2.nodes.dom() =~= s.nodes.dom().insert(cmd->RegisterNode_node_id@));
}

/// What marking nodes as offline does: those that are named and registered are
/// offline, with all else that is known of them as it was; the other nodes and the
/// tables stay as they are.
pub proof fn marks_touch_the_status_alone(s: Index, cmd: IndexNodeRequest, log_index: u64)
    requires
        cmd is MarkNodesOffline,
    ensures
        ({
            let ids = cmd->MarkNodesOffline_node_ids@;
            let r = model::outcome(s, cmd, log_index);
            let s2 = r->Ok_0.0;
            &&& r is Ok
            &&& r->Ok_0.1 == Answer::Done
            &&& s2.tables == s.tables
            &&& s2.nodes.dom() == s.nodes.dom()
            &&& forall|id: Seq<u8>| #[trigger]
                s.nodes.dom().contains(id) ==> {
                    &&& s2.nodes[id].node_id == s.nodes[id].node_id
                    &&& s2.nodes[id].addr == s.nodes[id].addr
                    &&& s2.nodes[id].relay_url == s.nodes[id].relay_url
                    &&& s2.nodes[id].capacity_bytes == s.nodes[id].capacity_bytes
                    &&& s2.nodes[id].last_seen == s.nodes[id].last_seen
                    &&& s2.nodes[id].status == (if exists|i: int|
                        0 <= i < ids.len() && (#[trigger] ids[i])@ == id {
                        NodeStatus::Offline
                    } else {
                        s.nodes[id].status
                    })
                }
        }),
{
    let ids = cmd->MarkNodesOffline_node_ids@;
    let listed = crate::bytes::contents(ids);
    let s2 = model::outcome(s, cmd, log_index)->Ok_0.0;
    assert(s2.nodes.dom() =~= s.nodes.dom());
    assert forall|id: Seq<u8>| #[trigger] s.nodes.dom().contains(id) implies (listed.contains(id)
        <==> exists|i: int| 0 <= i < ids.len() && (#[trigger] ids[i])@ == id) by {
        if listed.contains(id) {
            let i = choose|i: int| 0 <= i < listed.len() && listed[i] == id;
            assert(ids[i]@ == id);
        }
        if exists|i: int| 0 <= i < ids.len() && (#[trigger] ids[i])@ == id {
            let i = choose|i: int| 0 <= i < ids.len() && (#[trigger] ids[i])@ == id;
            assert(listed[i] == id);
        }
    }
}

/// What a batch of one command does is what the command does, and its answer is the
/// only one. A batch of none does nothing.
pub proof fn short_batches(s: Index, cmds: Seq<IndexNodeRequest>, log_index: u64)
    requires
        cmds.len() <= 1,
    ensures
        cmds.len() == 0 ==> model::outcomes(s, cmds, log_index) == Ok::<
            (Index, Seq<Answer>),
            StateError,
        >((s, Seq::empty())),
        cmds.len() == 1 ==> (match model::outcome(s, cmds[0], log_index) {
            Ok((s2, a)) => model::outcomes(s, cmds, log_index) == Ok::<
                (Index, Seq<Answer>),
                StateError,
            >((s2, seq![a])),
            Err(e) => model::outcomes(s, cmds, log_index) == Err::<
                (Index, Seq<Answer>),
                StateError,
            >(e),
        }),
{
    if cmds.len() == 1 {
        let none = cmds.drop_last();
        assert(none.len() == 0);
        assert(model::outcomes(s, none, log_index) == Ok::<(Index, Seq<Answer>), StateError>(
            (s, seq![]),
        ));
        assert(seq![].push(model::outcome(s, cmds[0], log_index)->Ok_0.1) =~= seq![
            model::outcome(s, cmds[0], log_index)->Ok_0.1,
        ]);
    }
}

/// The index as the command in place `i` of a list finds it.
pub open spec fn found_by(s: Index, cmds: Seq<IndexNodeRequest>, i: int, log_index: u64) -> Index {
    model::outcomes(s, cmds.take(i), log_index)->Ok_0.0
}

/// What a batch command does is what its commands do in their order: it fails as the
/// first of them that fails, and else answers each of them and ends where the last one
/// leaves the index.
pub proof fn batches_do_what_their_commands_do(s: Index, cmd: IndexNodeRequest, log_index: u64)
    requires
        cmd is Batch,
    ensures
        ({
            let cmds = cmd->Batch_0@;
            let r = model::outcome(s, cmd, log_index);
            &&& found_by(s, cmds, 0, log_index) == s
            &&& r is Ok <==> forall|i: int|
                0 <= i < cmds.len() ==> model::outcome(
                    #[trigger] found_by(s, cmds, i, log_index),
                    cmds[i],
                    log_index,
                ) is Ok
            &&& r is Ok ==> {
                &&& r->Ok_0.0 == found_by(s, cmds, cmds.len() as int, log_index)
                &&& r->Ok_0.1 is Each
                &&& r->Ok_0.1->Each_0.len() == cmds.len()
                &&& forall|i: int|
                    0 <= i < cmds.len() ==> model::outcome(
                        #[trigger] found_by(s, cmds, i, log_index),
                        cmds[i],
                        log_index,
                    ) == Ok::<(Index, Answer), StateError>(
                        (found_by(s, cmds, i + 1, log_index), r->Ok_0.1->Each_0[i]),
                    )
            }
            &&& r is Err ==> exists|i: int|
                0 <= i < cmds.len() && model::outcome(
                    #[trigger] found_by(s, cmds, i, log_index),
                    cmds[i],
                    log_index,
                ) == Err::<(Index, Answer), StateError>(r->Err_0) && forall|j: int|
                    0 <= j < i ==> model::outcome(
                        #[trigger] found_by(s, cmds, j, log_index),
                        cmds[j],
                        log_index,
                    ) is Ok
        }),
{
    let cmds = cmd->Batch_0@;
    let r = model::outcome(s, cmd, log_index);
    assert(cmds.take(0) =~= Seq::<IndexNodeRequest>::empty());
    assert(model::outcomes(s, cmds.take(0), log_index) == Ok::<(Index, Seq<Answer>), StateError>(
        (s, seq![]),
    ));
    assert(cmds.take(cmds.len() as int) =~= cmds);
    if r is Ok {
        assert forall|i: int| 0 <= i < cmds.len() implies model::outcome(
            #[trigger] found_by(s, cmds, i, log_index),
            cmds[i],
            log_index,
        ) == Ok::<(Index, Answer), StateError>(
            (found_by(s, cmds, i + 1, log_index), r->Ok_0.1->Each_0[i]),
        ) by {
            lemma_done(s, cmds, i, log_index);
        }
        if cmds.len() > 0 {
            lemma_done(s, cmds, 0, log_index);
        }
    } else {
        let i = lemma_first_failure(s, cmds, log_index);
        assert forall|j: int| 0 <= j < i implies model::outcome(
            #[trigger] found_by(s, cmds, j, log_index),
            cmds[j],
            log_index,
        ) is Ok by {
            let front = cmds.take(i);
            lemma_done(s, front, j, log_index);
            assert(front.take(j) =~= cmds.take(j));
        }
        assert(model::outcome(found_by(s, cmds, i, log_index), cmds[i], log_index) is Err);
    }
}

proof fn lemma_done(s: Index, cmds: Seq<IndexNodeRequest>, i: int, log_index: u64)
    requires
        0 <= i < cmds.len(),
        model::outcomes(s, cmds, log_index) is Ok,
    ensures
        model::outcomes(s, cmds, log_index)->Ok_0.1.len() == cmds.len(),
        model::outcome(found_by(s, cmds, i, log_index), cmds[i], log_index) == Ok::<
            (Index, Answer),
            StateError,
        >(
            (
                found_by(s, cmds, i + 1, log_index),
                model::outcomes(s, cmds, log_index)->Ok_0.1[i],
            ),
        ),
    decreases cmds.len(),
{
    let front = cmds.drop_last();
    let n = cmds.len() - 1;
    assert(cmds.take(n) =~= front);
    assert(cmds.take(n + 1) =~= cmds);
    if n > 0 {
        lemma_done(s, front, if i < n { i } else { 0 }, log_index);
    }
    if i < n {
        assert(front.take(i) =~= cmds.take(i));
        assert(front.take(i + 1) =~= cmds.take(i + 1));
        assert(front[i] == cmds[i]);
    } else {
        assert(i == n);
        assert(cmds[i] == cmds.last());
        if n == 0 {
            assert(model::outcomes(s, front, log_index)->Ok_0.1.len() == 0);
        }
    }
}

proof fn lemma_first_failure(s: Index, cmds: Seq<IndexNodeRequest>, log_index: u64) -> (i: int)
    requires
        model::outcomes(s, cmds, log_index) is Err,
    ensures
        0 <= i < cmds.len(),
        model::outcomes(s, cmds.take(i), log_index) is Ok,
        model::outcome(found_by(s, cmds, i, log_index), cmds[i], log_index) == Err::<
            (Index, Answer),
            StateError,
        >(model::outcomes(s, cmds, log_index)->Err_0),
    decreases cmds.len(),
{
    let front = cmds.drop_last();
    let n = cmds.len() - 1;
    assert(cmds.take(n) =~= front);
    if model::outcomes(s, front, log_index) is Err {
        let i = lemma_first_failure(s, front, log_index);
        assert(front.take(i) =~= cmds.take(i));
        assert(front[i] == cmds[i]);
        i
    } else {
        assert(cmds[n] == cmds.last());
        n
    }
}

/// A log of one entry does what the entry carries: a command is applied at the entry's
/// index; anything else leaves the index alone and is acknowledged. An empty log does
/// nothing.
pub proof fn short_logs<L, M>(s: Index, entries: Seq<LogEntry<L, M>>)
    requires
        entries.len() <= 1,
    ensures
        entries.len() == 0 ==> machine::batch_outcome(s, entries) == Ok::<
            (Index, Seq<Answer>),
            StateError,
        >((s, Seq::empty())),
        entries.len() == 1 ==> (match entries[0].payload {
            EntryPayload::Normal(cmd) => match model::outcome(s, cmd, entries[0].index) {
                Ok((s2, a)) => machine::batch_outcome(s, entries) == Ok::<
                    (Index, Seq<Answer>),
                    StateError,
                >((s2, seq![a])),
                Err(e) => machine::batch_outcome(s, entries) == Err::<
                    (Index, Seq<Answer>),
                    StateError,
                >(e),
            },
            _ => machine::batch_outcome(s, entries) == Ok::<(Index, Seq<Answer>), StateError>(
                (s, seq![Answer::Done]),
            ),
        }),
{
    if entries.len() == 1 {
        let none = entries.drop_last();
        assert(none.len() == 0);
        assert(machine::batch_outcome(s, none) == Ok::<(Index, Seq<Answer>), StateError>(
            (s, seq![]),
        ));
        assert forall|a: Answer| (#[trigger] Seq::<Answer>::empty().push(a)) == seq![a] by {
            assert(Seq::<Answer>::empty().push(a) =~= seq![a]);
        }
    }
}

/// The membership that a log sets is that of its last membership entry.
pub proof fn last_membership_stands<L, M>(entries: Seq<LogEntry<L, M>>)
    ensures
        match machine::new_membership(entries) {
            Some(m) => exists|i: int|
                0 <= i < entries.len() && #[trigger] entries[i].payload
                    == EntryPayload::Membership(m) && forall|j: int|
                    i < j < entries.len() ==> !((#[trigger] entries[j]).payload is Membership),
            None => forall|i: int|
                0 <= i < entries.len() ==> !((#[trigger] entries[i]).payload is Membership),
        },
        match machine::last_log_id(entries) {
            Some(id) => entries.len() > 0 && id == entries[entries.len() - 1].log_id,
            None => entries.len() == 0,
        },
    decreases entries.len(),
{
    if entries.len() > 0 {
        let front = entries.drop_last();
        last_membership_stands(front);
        let n = entries.len() - 1;
        match entries.last().payload {
            EntryPayload::Membership(m) => {
                assert(entries[n].payload == EntryPayload::Membership(m));
            },
            _ => {
                match machine::new_membership(front) {
                    Some(m) => {
                        let i = choose|i: int|
                            0 <= i < front.len() && #[trigger] front[i].payload
                                == EntryPayload::Membership(m) && forall|j: int|
                                i < j < front.len() ==> !((
                                #[trigger] front[j]).payload is Membership);
                        assert(entries[i].payload == EntryPayload::Membership(m));
                        assert forall|j: int| i < j < entries.len() implies !((
                        #[trigger] entries[j]).payload is Membership) by {
                            if j < n {
                                assert(front[j] == entries[j]);
                            }
                        }
                    },
                    None => {
                        assert forall|j: int| 0 <= j < entries.len() implies !((
                        #[trigger] entries[j]).payload is Membership) by {
                            if j < n {
                                assert(front[j] == entries[j]);
                            }
                        }
                    },
                }
            },
        }
    }
}

/// A response that conveys an answer shows it: success only where the command was
/// carried out, and the reason of a refusal word by word.
pub proof fn responses_show_their_answer(r: IndexNodeResponse, a: Answer)
    requires
        r.says(a),
    ensures
        r.success <==> !(a is Refused),
        a is Done ==> r.error is None && r.batch_responses is None,
        a is Refused ==> r.error is Some && r.error->0@ == a->Refused_0 && r.batch_responses is None,
        a is Each ==> r.error is None && r.batch_responses is Some
            && r.batch_responses->0@.len() == a->Each_0.len(),
{
}

/// A response conveys one answer alone.
pub proof fn responses_are_unambiguous(r: IndexNodeResponse, a: Answer, b: Answer)
    requires
        r.says(a),
        r.says(b),
    ensures
        a == b,
    decreases a,
{
    if a is Each && b is Each {
        let x = a->Each_0;
        let y = b->Each_0;
        assert forall|i: int| 0 <= i < x.len() implies x[i] == y[i] by {
            responses_are_unambiguous(r.batch_responses->0@[i], x[i], y[i]);
        }
        assert(x =~= y);
    }
}

/// What a single command that cannot be applied leaves behind: buckets, manifests,
/// operator and registry are as they were.
pub proof fn failed_commands_leave_the_rows(s: Index, cmd: IndexNodeRequest, log_index: u64)
    requires
        model::outcome(s, cmd, log_index) is Err,
        !(cmd is Batch),
    ensures
        ({
            let s2 = model::left_behind(s, cmd, log_index);
            &&& s2.nodes == s.nodes
            &&& s2.tables.buckets == s.tables.buckets
            &&& s2.tables.manifests == s.tables.manifests
            &&& s2.tables.repair_operator == s.tables.repair_operator
        }),
{
}

/// The nodes that count as online are those registered whose status says so.
pub proof fn online_nodes_are_registered(s: Index, id: Seq<u8>)
    ensures
        machine::online(s.nodes).contains(id) <==> s.nodes.dom().contains(id)
            && s.nodes[id].status == NodeStatus::Online,
{
}

/// A blob counts as unreferenced where it has no count, or a count of zero.
pub proof fn unreferenced_blobs_count_zero(t: Tables, blob: Seq<u8>)
    ensures
        machine::unreferenced(t.refs, blob) <==> !t.refs.dom().contains(blob) || t.refs[blob] == 0,
{
}

/// The contents of the rows of the tables are their fields.
pub proof fn rows_show_their_fields(b: BucketRow, m: ManifestRow, n: NodeStats)
    ensures
        b@.owner == b.owner@,
        b@.created_at == b.created_at,
        m@.object_hash == m.object_hash@,
        m@.manifest == m.manifest@,
        m@.signature == m.signature@,
        m@.created_at == m.created_at,
        m@.blobs is Some <==> m.blobs is Some,
        m.blobs is Some ==> m@.blobs->0 == m.blobs->0@.map_values(|b: Vec<u8>| b@),
        n@.node_id == n.node_id@,
        n@.addr == n.addr@,
        n@.capacity_bytes == n.capacity_bytes,
        n@.last_seen == n.last_seen,
        n@.status == n.status,
        n@.relay_url is Some <==> n.relay_url is Some,
        n.relay_url is Some ==> n@.relay_url->0 == n.relay_url->0@,
{
    if m.blobs is Some {
        assert(m@.blobs->0 =~= m.blobs->0@.map_values(|b: Vec<u8>| b@));
    }
}

/// The tables that a snapshot describes hold its rows under their keys, and no others.
pub proof fn snapshots_describe_their_rows(d: StateMachineSnapshotData, i: int, j: int, k: int)
    requires
        d.distinct(),
    ensures
        0 <= i < d.buckets@.len() ==> d.tables().buckets.dom().contains(d.buckets@[i].0@)
            && d.tables().buckets[d.buckets@[i].0@] == d.buckets@[i].1@,
        0 <= j < d.manifests@.len() ==> d.tables().manifests.dom().contains(
            (d.manifests@[j].0.0@, d.manifests@[j].0.1@),
        ) && d.tables().manifests[(d.manifests@[j].0.0@, d.manifests@[j].0.1@)]
            == d.manifests@[j].1@,
        0 <= k < d.shard_refs@.len() ==> d.tables().refs.dom().contains(d.shard_refs@[k].0@)
            && d.tables().refs[d.shard_refs@[k].0@] == d.shard_refs@[k].1,
        forall|name: Seq<char>| #[trigger]
            d.tables().buckets.dom().contains(name) ==> exists|n: int|
                0 <= n < d.buckets@.len() && (#[trigger] d.buckets@[n]).0@ == name,
        forall|id: ObjectKey| #[trigger]
            d.tables().manifests.dom().contains(id) ==> exists|n: int|
                0 <= n < d.manifests@.len() && ((#[trigger] d.manifests@[n]).0.0@,
                    d.manifests@[n].0.1@) == id,
        forall|blob: Seq<u8>| #[trigger]
            d.tables().refs.dom().contains(blob) ==> exists|n: int|
                0 <= n < d.shard_refs@.len() && (#[trigger] d.shard_refs@[n]).0@ == blob,
        d.tables().repair_operator is Some <==> d.repair_operator is Some,
        d.repair_operator is Some ==> d.tables().repair_operator->0 == d.repair_operator->0@,
{
    if 0 <= i < d.buckets@.len() {
        table::lemma_row(d.buckets@, i);
    }
    if 0 <= j < d.manifests@.len() {
        table::lemma_row(d.manifests@, j);
        assert(d.manifests@[j].0@ == (d.manifests@[j].0.0@, d.manifests@[j].0.1@));
    }
    if 0 <= k < d.shard_refs@.len() {
        table::lemma_row(d.shard_refs@, k);
    }
    assert forall|id: ObjectKey| #[trigger] d.tables().manifests.dom().contains(id) implies exists|
        n: int,
    |
        0 <= n < d.manifests@.len() && ((#[trigger] d.manifests@[n]).0.0@, d.manifests@[n].0.1@)
            == id by {
        let n = table::place(d.manifests@, id);
        assert(d.manifests@[n].0@ == id);
    }
}

/// What a snapshot keeps: everything but the times of the manifests, which are zero.
pub proof fn snapshots_drop_the_times_alone(t: Tables, id: ObjectKey)
    ensures
        ({
            let r = machine::snapshot_of(t);
            &&& r.buckets == t.buckets
            &&& r.refs == t.refs
            &&& r.repair_operator == t.repair_operator
            &&& r.manifests.dom() == t.manifests.dom()
            &&& t.manifests.dom().contains(id) ==> {
                &&& r.manifests[id].object_hash == t.manifests[id].object_hash
                &&& r.manifests[id].manifest == t.manifests[id].manifest
                &&& r.manifests[id].signature == t.manifests[id].signature
                &&& r.manifests[id].blobs == t.manifests[id].blobs
                &&& r.manifests[id].created_at == 0
            }
        }),
{
    assert(machine::snapshot_of(t).manifests.dom() =~= t.manifests.dom());
}

/// Snapshots of one number differ from those of another by name, and those of one
/// leader and index from those of another.
pub proof fn snapshot_names_differ(
    last: Option<(Seq<char>, u64)>,
    number: nat,
    last2: Option<(Seq<char>, u64)>,
    number2: nat,
)
    requires
        machine::snapshot_id_of(last, number) == machine::snapshot_id_of(last2, number2),
        last is Some <==> last2 is Some,
    ensures
        number == number2,
        last == last2,
{
    reveal_strlit("-");
    reveal_strlit("--");
    assert("-"@ =~= seq!['-']);
    assert("--"@ =~= seq!['-'] + seq!['-']);
    let d = text::decimal(number);
    let d2 = text::decimal(number2);
    lemma_no_dash(number);
    lemma_no_dash(number2);
    text::decimal_round_trip(number);
    text::decimal_round_trip(number2);
    match (last, last2) {
        (Some((leader, index)), Some((leader2, index2))) => {
            let x = text::decimal(index as nat);
            let x2 = text::decimal(index2 as nat);
            lemma_no_dash(index as nat);
            lemma_no_dash(index2 as nat);
            text::decimal_round_trip(index as nat);
            text::decimal_round_trip(index2 as nat);
            let a = leader + seq!['-'] + x;
            let a2 = leader2 + seq!['-'] + x2;
            text::lemma_last_mark(a, d, a2, d2, '-');
            text::lemma_last_mark(leader, x, leader2, x2, '-');
        },
        _ => {
            text::lemma_last_mark(seq!['-'], d, seq!['-'], d2, '-');
        },
    }
}

proof fn lemma_no_dash(n: nat)
    ensures
        !text::decimal(n).contains('-'),
{
    let d = text::decimal(n);
    text::decimal_round_trip(n);
    if d.contains('-') {
        let i = choose|i: int| 0 <= i < d.len() && d[i] == '-';
        assert(text::is_digit(d[i]));
    }
}

/// What each statement does to the rows: it touches the rows that it names and no
/// others.
pub proof fn statements_touch_what_they_name(t: Tables, op: RowOp)
    ensures
        ({
            let t2 = state::effect(t, op);
            &&& !(op is InsertBucket) && !(op is DeleteBucket) ==> t2.buckets == t.buckets
            &&& !(op is PutManifest) && !(op is DeleteManifest) && !(op is DeleteManifestsOf)
                ==> t2.manifests == t.manifests
            &&& !(op is Release) && !(op is Retain) ==> t2.refs == t.refs
            &&& !(op is SetOperator) ==> t2.repair_operator == t.repair_operator
            &&& match op {
                RowOp::InsertBucket { name, created_at, owner } => t2.buckets.dom()
                    == t.buckets.dom().insert(name@) && t2.buckets[name@].owner == owner@
                    && t2.buckets[name@].created_at == created_at && forall|other: Seq<char>|
                    other != name@ && t.buckets.dom().contains(other)
                        ==> #[trigger] t2.buckets[other] == t.buckets[other],
                RowOp::DeleteBucket { name } => t2.buckets.dom() == t.buckets.dom().remove(name@)
                    && forall|other: Seq<char>|
                    other != name@ && t.buckets.dom().contains(other)
                        ==> #[trigger] t2.buckets[other] == t.buckets[other],
                RowOp::DeleteManifestsOf { bucket } => forall|id: ObjectKey|
                    {
                        &&& #[trigger] t2.manifests.dom().contains(id)
                            <==> t.manifests.dom().contains(id) && id.0 != bucket@
                        &&& t2.manifests.dom().contains(id) ==> t2.manifests[id]
                            == t.manifests[id]
                    },
                RowOp::PutManifest { bucket, key, row } => t2.manifests.dom()
                    == t.manifests.dom().insert((bucket@, key@)) && t2.manifests[(bucket@, key@)]
                    == row@ && forall|id: ObjectKey|
                    id != (bucket@, key@) && t.manifests.dom().contains(id)
                        ==> #[trigger] t2.manifests[id] == t.manifests[id],
                RowOp::DeleteManifest { bucket, key } => t2.manifests.dom()
                    == t.manifests.dom().remove((bucket@, key@)) && forall|id: ObjectKey|
                    id != (bucket@, key@) && t.manifests.dom().contains(id)
                        ==> #[trigger] t2.manifests[id] == t.manifests[id],
                RowOp::Release { blob } => t2.refs.dom() == t.refs.dom() && forall|b: Seq<u8>|
                    #[trigger] count_of(t2, b) == (if b == blob@ && count_of(t, b) > 0 {
                        count_of(t, b) - 1
                    } else {
                        count_of(t, b)
                    }),
                RowOp::Retain { blob } => t2.refs.dom() == t.refs.dom().insert(blob@)
                    && forall|b: Seq<u8>|
                    #[trigger] count_of(t2, b) == (if b == blob@ && count_of(t, b) < i64::MAX {
                        count_of(t, b) + 1
                    } else {
                        count_of(t, b)
                    }),
                RowOp::SetOperator { operator } => t2.repair_operator == Some(operator@),
            }
        }),
{
    let t2 = state::effect(t, op);
    match op {
        RowOp::InsertBucket { name, .. } => {
            assert(t2.buckets.dom() =~= t.buckets.dom().insert(name@));
        },
        RowOp::DeleteBucket { name } => {
            assert(t2.buckets.dom() =~= t.buckets.dom().remove(name@));
        },
        RowOp::PutManifest { bucket, key, row } => {
            assert(t2.manifests.dom() =~= t.manifests.dom().insert((bucket@, key@)));
        },
        RowOp::DeleteManifest { bucket, key } => {
            assert(t2.manifests.dom() =~= t.manifests.dom().remove((bucket@, key@)));
        },
        RowOp::Release { blob } => {
            assert(t2.refs.dom() =~= t.refs.dom());
        },
        RowOp::Retain { blob } => {
            assert(t2.refs.dom() =~= t.refs.dom().insert(blob@));
        },
        _ => {},
    }
}

/// Statements are carried out one after the other: a list cut in two does what its
/// parts do, and one statement what it does alone.
pub proof fn statements_follow_each_other(t: Tables, a: Seq<RowOp>, b: Seq<RowOp>, op: RowOp)
    ensures
        state::replayed(t, a + b) == state::replayed(state::replayed(t, a), b),
        state::replayed(t, seq![op]) == state::effect(t, op),
        state::replayed(t, Seq::empty()) == t,
    decreases b.len(),
{
    if b.len() == 0 {
        assert(a + b =~= a);
    } else {
        assert((a + b).drop_last() =~= a + b.drop_last());
        assert((a + b).last() == b.last());
        statements_follow_each_other(t, a, b.drop_last(), op);
    }
    assert(seq![op].drop_last() =~= Seq::<RowOp>::empty());
    assert(state::replayed(t, Seq::<RowOp>::empty()) == t);
}

/// A batch that fails leaves what the commands before the failing one made of the index,
/// and what that one left behind.
pub proof fn failed_batches_stop_where_they_fail(s: Index, cmd: IndexNodeRequest, log_index: u64)
    requires
        cmd is Batch,
        model::outcome(s, cmd, log_index) is Err,
    ensures
        ({
            let cmds = cmd->Batch_0@;
            exists|i: int|
                0 <= i < cmds.len() && model::outcome(
                    #[trigger] found_by(s, cmds, i, log_index),
                    cmds[i],
                    log_index,
                ) is Err && model::left_behind(s, cmd, log_index) == model::left_behind(
                    found_by(s, cmds, i, log_index),
                    cmds[i],
                    log_index,
                )
        }),
{
    let cmds = cmd->Batch_0@;
    let i = lemma_left_behind(s, cmds, log_index);
    assert(model::outcome(found_by(s, cmds, i, log_index), cmds[i], log_index) is Err);
}

proof fn lemma_left_behind(s: Index, cmds: Seq<IndexNodeRequest>, log_index: u64) -> (i: int)
    requires
        model::outcomes(s, cmds, log_index) is Err,
    ensures
        0 <= i < cmds.len(),
        model::outcome(found_by(s, cmds, i, log_index), cmds[i], log_index) is Err,
        model::left_behind_by_all(s, cmds, log_index) == model::left_behind(
            found_by(s, cmds, i, log_index),
            cmds[i],
            log_index,
        ),
    decreases cmds.len(),
{
    let front = cmds.drop_last();
    let n = cmds.len() - 1;
    assert(cmds.take(n) =~= front);
    if model::outcomes(s, front, log_index) is Err {
        let i = lemma_left_behind(s, front, log_index);
        assert(front.take(i) =~= cmds.take(i));
        assert(front[i] == cmds[i]);
        i
    } else {
        assert(cmds[n] == cmds.last());
        n
    }
}

/// A write that fails leaves counts no lower than with the old references given back, and
/// no higher than with the new ones taken too.
pub proof fn failed_writes_count_in_part(
    s: Index,
    cmd: IndexNodeRequest,
    log_index: u64,
    blob: Seq<u8>,
)
    requires
        cmd is CommitManifest,
        model::outcome(s, cmd, log_index) is Err,
    ensures
        ({
            let id = (cmd->CommitManifest_bucket@, cmd->CommitManifest_key@);
            let t2 = model::left_behind(s, cmd, log_index).tables;
            let old_times = stored_times(s.tables, id, blob);
            let new_times = if cmd->CommitManifest_blobs is Some {
                times(cmd->CommitManifest_blobs->0@, blob)
            } else {
                0
            };
            &&& adjusted(count_of(s.tables, blob), old_times, 0) <= count_of(t2, blob)
            &&& count_of(t2, blob) <= adjusted(count_of(s.tables, blob), old_times, new_times)
        }),
{
    let t = s.tables;
    let id = (cmd->CommitManifest_bucket@, cmd->CommitManifest_key@);
    let blobs = model::optional_contents(cmd->CommitManifest_blobs);
    if t.manifests.dom().contains(id) && t.manifests[id].blobs is Some {
        model::lemma_release_counts(t.refs, t.manifests[id].blobs->0, blob);
        occurrences_are_counted(t.manifests[id].blobs->0, blob);
    }
    if model::without_row(t, id) is Ok {
        let released = model::without_row(t, id)->Ok_0;
        if blobs is Some {
            lemma_retain_far(released, blobs->0, blob);
            occurrences_are_counted(blobs->0, blob);
            assert(blobs->0 =~= cmd->CommitManifest_blobs->0@.map_values(|b: Vec<u8>| b@));
        }
    }
}

proof fn lemma_retain_far(refs: Map<Seq<u8>, i64>, blobs: Seq<Seq<u8>>, b: Seq<u8>)
    ensures
        ({
            let r = model::retain_far(refs, blobs);
            let before = if refs.dom().contains(b) {
                refs[b] as int
            } else {
                0
            };
            let after = if r.dom().contains(b) {
                r[b] as int
            } else {
                0
            };
            before <= after <= before + model::occurrences(blobs, b)
        }),
    decreases blobs.len(),
{
    if blobs.len() > 0 {
        let front = blobs.drop_last();
        lemma_retain_far(refs, front, b);
        if model::retain(refs, front) is Ok {
            lemma_retain_counts(refs, front, b);
        }
    }
}

} // verus!
