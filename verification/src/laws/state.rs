//! Laws of the state machine, from call to call.
//!
//! `call_ensures(f, args, r)` says that a call of `f` with `args` may return `r`; for
//! what a call changes, `old` is its value before and `final` its value after.
use vstd::prelude::*;

use crate::api::{BatchCollector, TakeEvent};
use crate::index::effects;
use crate::index::machine;
use crate::index::machine::{
    ArkelStateMachine, ArkelStateMachineSnapshot, LogEntry, SnapshotMeta, Staged,
    StateMachineSnapshotData,
};
use crate::index::model;
use crate::index::model::{Index, ObjectKey, StateError};
use crate::index::state;
use crate::index::state::{Registry, RowOp, Tables, Transaction};
use crate::index::types::{IndexNodeRequest, IndexNodeResponse};
use crate::repair::RepairPass;

verus! {

/// A command that is applied comes to its outcome: the tables and the registry are those
/// of the outcome, and the response shows its answer. One that fails is an error.
pub proof fn commands_come_to_their_outcome(
    tx: &mut Transaction,
    cmd: &IndexNodeRequest,
    log_index: u64,
    registry: &mut Registry,
    r: Result<IndexNodeResponse, StateError>,
)
    requires
        call_ensures(Transaction::apply_command, (tx, cmd, log_index, registry), r),
    ensures
        ({
            let before = Index { tables: old(tx)@, nodes: old(registry)@ };
            let o = model::outcome(before, *cmd, log_index);
            &&& r is Ok <==> o is Ok
            &&& r is Err ==> r->Err_0 == o->Err_0
            &&& r is Ok ==> {
                &&& final(tx)@ == o->Ok_0.0.tables
                &&& final(registry)@ == o->Ok_0.0.nodes
                &&& r->Ok_0.says(o->Ok_0.1)
                &&& r->Ok_0.success <==> !(o->Ok_0.1 is Refused)
            }
            &&& r is Err && !(cmd is Batch) ==> {
                &&& final(tx)@.buckets == old(tx)@.buckets
                &&& final(tx)@.manifests == old(tx)@.manifests
                &&& final(tx)@.repair_operator == old(tx)@.repair_operator
                &&& final(registry)@ == old(registry)@
            }
        }),
{
    let before = Index { tables: old(tx)@, nodes: old(registry)@ };
    let o = model::outcome(before, *cmd, log_index);
    if r is Ok {
        effects::responses_show_their_answer(r->Ok_0, o->Ok_0.1);
    } else if !(cmd is Batch) {
        effects::failed_commands_leave_the_rows(before, *cmd, log_index);
    }
}

/// An entry that is applied alone does what it carries, and is remembered as the last
/// one. A batch that fails leaves the tables and what is remembered as they were.
pub proof fn entries_do_what_they_carry<L, M>(
    sm: &mut ArkelStateMachine<L, M>,
    entries: Vec<LogEntry<L, M>>,
    r: Result<Vec<IndexNodeResponse>, StateError>,
)
    requires
        entries@.len() == 1,
        call_ensures(ArkelStateMachine::<L, M>::apply, (sm, entries), r),
    ensures
        ({
            let e = entries@[0];
            let before = old(sm).index();
            &&& e.payload is Normal ==> {
                let o = model::outcome(before, e.payload->Normal_0, e.index);
                &&& r is Ok <==> o is Ok
                &&& r is Ok ==> final(sm).index() == o->Ok_0.0 && r->Ok_0@.len() == 1
                    && r->Ok_0@[0].says(o->Ok_0.1)
                &&& r is Err ==> r->Err_0 == o->Err_0
            }
            &&& !(e.payload is Normal) ==> r is Ok && final(sm).index() == before && r->Ok_0@.len()
                == 1 && r->Ok_0@[0].success
            &&& r is Ok ==> final(sm).last_log() == Some(e.log_id)
            &&& r is Ok && e.payload is Membership ==> final(sm).membership()
                == e.payload->Membership_0
            &&& r is Err || !(e.payload is Membership) ==> final(sm).membership()
                == old(sm).membership()
            &&& r is Err ==> final(sm).index().tables == before.tables && final(sm).last_log()
                == old(sm).last_log()
        }),
{
    let e = entries@[0];
    let before = old(sm).index();
    effects::short_logs(before, entries@);
    effects::last_membership_stands(entries@);
    if e.payload is Membership {
        assert(entries@[0].payload is Membership);
    }
    if r is Ok {
        let answers = machine::batch_outcome(before, entries@)->Ok_0.1;
        assert(answers.len() == 1);
        assert(r->Ok_0@[0].says(answers[0]));
        effects::responses_show_their_answer(r->Ok_0@[0], answers[0]);
    }
}

/// No entries change nothing.
pub proof fn nothing_comes_of_nothing<L, M>(
    sm: &mut ArkelStateMachine<L, M>,
    entries: Vec<LogEntry<L, M>>,
    r: Result<Vec<IndexNodeResponse>, StateError>,
)
    requires
        entries@.len() == 0,
        call_ensures(ArkelStateMachine::<L, M>::apply, (sm, entries), r),
    ensures
        r is Ok,
        r->Ok_0@.len() == 0,
        final(sm).index() == old(sm).index(),
        final(sm).last_log() == old(sm).last_log(),
        final(sm).membership() == old(sm).membership(),
{
    effects::short_logs(old(sm).index(), entries@);
    effects::last_membership_stands(entries@);
}

/// Staging and finishing a batch comes to applying it; the statements that are staged
/// lead from the tables as they were to those of the outcome.
pub proof fn staged_batches_are_finished<L, M>(
    sm: &mut ArkelStateMachine<L, M>,
    entries: Vec<LogEntry<L, M>>,
    staged: Staged<L, M>,
)
    requires
        entries@.len() > 0,
        call_ensures(
            ArkelStateMachine::<L, M>::stage,
            (sm, entries),
            Ok::<Staged<L, M>, StateError>(staged),
        ),
    ensures
        ({
            let o = machine::batch_outcome(old(sm).index(), entries@);
            &&& o is Ok
            &&& staged.index() == o->Ok_0.0
            &&& staged.responses@.len() == o->Ok_0.1.len()
            &&& state::replayed(old(sm).index().tables, staged.journal@) == o->Ok_0.0.tables
            &&& staged.last_log == Some(entries@[entries@.len() - 1].log_id)
            &&& final(sm).index().tables == old(sm).index().tables
            &&& final(sm).last_log() == old(sm).last_log()
        }),
{
    effects::last_membership_stands(entries@);
}

/// A finished batch is in force: its tables, its registry, its last entry and, where it
/// has one, its membership.
pub proof fn finished_batches_are_in_force<L, M>(
    sm: &mut ArkelStateMachine<L, M>,
    staged: Staged<L, M>,
    r: Vec<IndexNodeResponse>,
)
    requires
        call_ensures(ArkelStateMachine::<L, M>::finish, (sm, staged), r),
    ensures
        final(sm).index() == staged.index(),
        r == staged.responses,
        staged.last_log is Some ==> final(sm).last_log() == staged.last_log,
        staged.last_log is None ==> final(sm).last_log() == old(sm).last_log(),
        staged.last_membership is Some ==> final(sm).membership() == staged.last_membership->0,
        staged.last_membership is None ==> final(sm).membership() == old(sm).membership(),
{
}

/// A snapshot that is installed puts its rows in place of the tables: all of them, but
/// for the times of the manifests. The registry stays.
pub proof fn installed_snapshots_replace_the_tables<L, M>(
    sm: &mut ArkelStateMachine<L, M>,
    meta: SnapshotMeta<L, M>,
    last: Option<L>,
    membership: M,
    data: StateMachineSnapshotData,
    raw: Vec<u8>,
    r: Result<(), StateError>,
    id: ObjectKey,
)
    requires
        call_ensures(
            ArkelStateMachine::<L, M>::install_snapshot,
            (sm, meta, last, membership, data, raw),
            r,
        ),
    ensures
        r is Ok <==> data.distinct(),
        r is Err ==> r->Err_0 == StateError::DuplicateRow && *final(sm) == *old(sm),
        r is Ok ==> {
            let given = data.tables();
            let t = final(sm).index().tables;
            &&& final(sm).index().nodes == old(sm).index().nodes
            &&& t.buckets == given.buckets
            &&& t.refs == given.refs
            &&& t.repair_operator == given.repair_operator
            &&& t.manifests.dom() == given.manifests.dom()
            &&& given.manifests.dom().contains(id) ==> {
                &&& t.manifests[id].manifest == given.manifests[id].manifest
                &&& t.manifests[id].signature == given.manifests[id].signature
                &&& t.manifests[id].object_hash == given.manifests[id].object_hash
                &&& t.manifests[id].blobs == given.manifests[id].blobs
            }
            &&& final(sm).last_log() == meta.last_log_id
            &&& final(sm).membership() == meta.last_membership
            &&& final(sm).at_hand() == Some((meta, raw))
        },
{
    if r is Ok {
        effects::snapshots_drop_the_times_alone(data.tables(), id);
    }
}

/// A snapshot that is taken holds the tables, and what installing it elsewhere gives is
/// what can be read here.
pub proof fn snapshots_carry_the_tables<L, M>(
    sm: &ArkelStateMachine<L, M>,
    snapshot: ArkelStateMachineSnapshot<L, M>,
    id: ObjectKey,
)
    requires
        call_ensures(ArkelStateMachine::<L, M>::snapshot, (sm,), snapshot),
    ensures
        snapshot.data.distinct(),
        ({
            let t = sm.index().tables;
            let given = snapshot.data.tables();
            &&& given.buckets == t.buckets
            &&& given.refs == t.refs
            &&& given.repair_operator == t.repair_operator
            &&& given.manifests.dom() == t.manifests.dom()
            &&& t.manifests.dom().contains(id) ==> {
                &&& given.manifests[id].manifest == t.manifests[id].manifest
                &&& given.manifests[id].signature == t.manifests[id].signature
                &&& given.manifests[id].object_hash == t.manifests[id].object_hash
                &&& given.manifests[id].blobs == t.manifests[id].blobs
            }
        }),
        *snapshot.last_applied_log == sm.last_log(),
        *snapshot.last_membership == sm.membership(),
{
    effects::snapshots_drop_the_times_alone(sm.index().tables, id);
}

/// Two snapshots that are built one after the other have different names.
pub proof fn snapshots_are_numbered<L, M>(
    sm: &mut ArkelStateMachine<L, M>,
    last: Option<(String, u64)>,
    r: String,
    other: Option<(String, u64)>,
    number: nat,
)
    requires
        call_ensures(ArkelStateMachine::<L, M>::next_snapshot_id, (sm, last), r),
        last is Some <==> other is Some,
    ensures
        final(sm).snapshots_built() == old(sm).snapshots_built() + 1,
        final(sm).index() == old(sm).index(),
        r@ == machine::snapshot_id_of(machine::last_view(other), number) ==> number
            == final(sm).snapshots_built() && machine::last_view(other) == machine::last_view(last),
{
    if r@ == machine::snapshot_id_of(machine::last_view(other), number) {
        effects::snapshot_names_differ(
            machine::last_view(last),
            final(sm).snapshots_built() as nat,
            machine::last_view(other),
            number,
        );
    }
}

/// What is opened from the database is what lay there; nodes have to register anew.
pub proof fn databases_are_opened_as_they_are<L, M>(
    data: StateMachineSnapshotData,
    last: Option<L>,
    membership: M,
    r: Result<ArkelStateMachine<L, M>, StateError>,
)
    requires
        call_ensures(ArkelStateMachine::<L, M>::open, (data, last, membership), r),
    ensures
        r is Ok <==> data.distinct(),
        r is Err ==> r->Err_0 == StateError::DuplicateRow,
        r is Ok ==> {
            let sm = r->Ok_0;
            &&& sm.index().tables == data.tables()
            &&& forall|id: Seq<u8>| !sm.index().nodes.dom().contains(id)
            &&& sm.last_log() == last
            &&& sm.membership() == membership
        },
{
}

/// A transaction begins with the tables as they are and ends with what became of them.
pub proof fn transactions_keep_the_tables(
    tables: &Tables,
    began: Transaction,
    ended: Transaction,
    r: (Tables, Vec<RowOp>),
)
    requires
        call_ensures(Transaction::begin, (tables,), began),
        call_ensures(Transaction::commit, (ended,), r),
    ensures
        began@ == tables@,
        r.0@ == ended@,
        state::replayed(ended.base(), r.1@) == r.0@,
{
}

/// Writes wait in the order they came, and a batch takes all of them or none.
pub proof fn writes_wait_in_order<S>(
    c: &mut BatchCollector<S>,
    req: IndexNodeRequest,
    reply: S,
    u: (),
)
    requires
        call_ensures(BatchCollector::<S>::enqueue, (c, req, reply), u),
    ensures
        final(c).waiting() == old(c).waiting().push((req, reply)),
        final(c).capacity() == old(c).capacity(),
{
}

/// A batch is taken at once where something waits, while waiting when it is full, and at
/// the end of the delay in any case; nothing is lost and nothing is taken twice.
pub proof fn batches_take_all_that_waits<S>(
    c: &mut BatchCollector<S>,
    event: TakeEvent,
    r: Option<Vec<(IndexNodeRequest, S)>>,
)
    requires
        call_ensures(BatchCollector::<S>::take_batch, (c, event), r),
    ensures
        r is Some <==> event == TakeEvent::Elapsed || (event == TakeEvent::Asked
            && old(c).waiting().len() > 0) || (event == TakeEvent::Notified
            && old(c).waiting().len() >= old(c).capacity()),
        r is Some ==> r->0@ == old(c).waiting() && final(c).waiting().len() == 0,
        r is None ==> final(c).waiting() == old(c).waiting(),
{
}

/// Each object that was fixed counts once.
pub proof fn fixed_objects_are_counted(pass: &mut RepairPass, u: ())
    requires
        call_ensures(RepairPass::record, (pass,), u),
    ensures
        final(pass).done() == old(pass).done() + 1,
        final(pass).limit() == old(pass).limit(),
{
}

/// A batch is staged exactly where each of its entries can be applied.
pub proof fn batches_are_staged_or_refused<L, M>(
    sm: &mut ArkelStateMachine<L, M>,
    entries: Vec<LogEntry<L, M>>,
    r: Result<Staged<L, M>, StateError>,
)
    requires
        entries@.len() > 0,
        call_ensures(ArkelStateMachine::<L, M>::stage, (sm, entries), r),
    ensures
        r is Ok <==> machine::batch_outcome(old(sm).index(), entries@) is Ok,
        r is Err ==> r->Err_0 == machine::batch_outcome(old(sm).index(), entries@)->Err_0,
        final(sm).index().tables == old(sm).index().tables,
{
}

/// What a state machine applies in one batch it might as well apply entry by entry: the
/// batch succeeds exactly where each entry does, and ends where the last one does.
pub proof fn batches_may_be_split<L, M>(
    sm: &mut ArkelStateMachine<L, M>,
    entries: Vec<LogEntry<L, M>>,
    r: Result<Vec<IndexNodeResponse>, StateError>,
    at: int,
)
    requires
        call_ensures(ArkelStateMachine::<L, M>::apply, (sm, entries), r),
        0 <= at <= entries@.len(),
    ensures
        ({
            let first = machine::batch_outcome(old(sm).index(), entries@.take(at));
            let second = machine::batch_outcome(first->Ok_0.0, entries@.skip(at));
            &&& r is Ok <==> first is Ok && second is Ok
            &&& r is Ok ==> final(sm).index() == second->Ok_0.0 && r->Ok_0@.len()
                == first->Ok_0.1.len() + second->Ok_0.1.len()
        }),
{
    let a = entries@.take(at);
    let b = entries@.skip(at);
    assert(a + b =~= entries@);
    crate::index::laws::log_may_be_cut_anywhere(old(sm).index(), a, b);
}

/// What is remembered is told: the last entry, the membership, and the snapshot at hand.
pub proof fn what_is_remembered_is_told<L, M>(
    sm: &ArkelStateMachine<L, M>,
    last: &Option<L>,
    membership: &M,
    snapshot: Option<&(SnapshotMeta<L, M>, Vec<u8>)>,
)
    requires
        call_ensures(ArkelStateMachine::<L, M>::applied_state, (sm,), (last, membership)),
        call_ensures(ArkelStateMachine::<L, M>::get_current_snapshot, (sm,), snapshot),
    ensures
        *last == sm.last_log(),
        *membership == sm.membership(),
        snapshot is Some <==> sm.at_hand() is Some,
        snapshot is Some ==> *snapshot->0 == sm.at_hand()->0,
{
}

/// A snapshot that is kept is the one at hand, and nothing else changes.
pub proof fn kept_snapshots_are_at_hand<L, M>(
    sm: &mut ArkelStateMachine<L, M>,
    meta: SnapshotMeta<L, M>,
    data: Vec<u8>,
    u: (),
)
    requires
        call_ensures(ArkelStateMachine::<L, M>::keep_snapshot, (sm, meta, data), u),
    ensures
        final(sm).at_hand() == Some((meta, data)),
        final(sm).index() == old(sm).index(),
        final(sm).last_log() == old(sm).last_log(),
        final(sm).membership() == old(sm).membership(),
{
}

} // verus!
