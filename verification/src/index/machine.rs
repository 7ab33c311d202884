//! The replicated state machine: batches of log entries, snapshots and reads.
//!
//! `L` is the consensus library's log id and `M` its stored membership; both
//! pass through unread.
use vstd::prelude::*;
use vstd::string::StringExecFns;

use crate::bytes;
use crate::index::model;
use crate::index::model::StateError;
use crate::index::state;
use crate::index::state::{BucketRow, ManifestRow, Registry, RowOp, Tables, Transaction};
use crate::index::types;
use crate::index::types::{Answer, IndexNodeRequest, IndexNodeResponse, NodeStats, NodeStatus, NodeView};
use crate::order;
use crate::table;
use crate::table::{Row, Table};
use crate::text;

verus! {

/// What a log entry carries.
#[derive(Debug)]
pub enum EntryPayload<M> {
    Blank,
    Normal(IndexNodeRequest),
    Membership(M),
}

/// A committed entry of the replicated log.
#[derive(Debug)]
pub struct LogEntry<L, M> {
    pub log_id: L,
    pub index: u64,
    pub payload: EntryPayload<M>,
}

/// What an entry makes of the index, and what is answered.
pub open spec fn entry_outcome<L, M>(s: model::Index, e: LogEntry<L, M>) -> Result<
    (model::Index, Answer),
    StateError,
> {
    match e.payload {
        EntryPayload::Normal(cmd) => model::outcome(s, cmd, e.index),
        _ => Ok((s, Answer::Done)),
    }
}

/// What a batch of entries makes of the index, in order, and what is answered to
/// each.
pub open spec fn batch_outcome<L, M>(s: model::Index, entries: Seq<LogEntry<L, M>>) -> Result<
    (model::Index, Seq<Answer>),
    StateError,
>
    decreases entries.len(),
{
    if entries.len() == 0 {
        Ok((s, seq![]))
    } else {
        match batch_outcome(s, entries.drop_last()) {
            Err(e) => Err(e),
            Ok((s2, answers)) => match entry_outcome(s2, entries.last()) {
                Err(e) => Err(e),
                Ok((s3, a)) => Ok((s3, answers.push(a))),
            },
        }
    }
}

/// The membership that the last membership entry of a batch sets.
pub open spec fn new_membership<L, M>(entries: Seq<LogEntry<L, M>>) -> Option<M>
    decreases entries.len(),
{
    if entries.len() == 0 {
        None
    } else {
        match entries.last().payload {
            EntryPayload::Membership(m) => Some(m),
            _ => new_membership(entries.drop_last()),
        }
    }
}

/// The log id of the last entry of a batch.
pub open spec fn last_log_id<L, M>(entries: Seq<LogEntry<L, M>>) -> Option<L> {
    if entries.len() == 0 {
        None
    } else {
        Some(entries.last().log_id)
    }
}

proof fn lemma_batch_stops<L, M>(s: model::Index, entries: Seq<LogEntry<L, M>>, i: int, e: StateError)
    requires
        0 <= i <= entries.len(),
        batch_outcome(s, entries.take(i)) == Err::<(model::Index, Seq<Answer>), StateError>(e),
    ensures
        batch_outcome(s, entries) == Err::<(model::Index, Seq<Answer>), StateError>(e),
    decreases entries.len() - i,
{
    if i < entries.len() {
        assert(entries.drop_last().take(i) =~= entries.take(i));
        lemma_batch_stops(s, entries.drop_last(), i, e);
    } else {
        assert(entries.take(i) =~= entries);
    }
}

/// Whether each response conveys the answer in its place.
pub open spec fn say(responses: Seq<IndexNodeResponse>, answers: Seq<Answer>) -> bool {
    responses.len() == answers.len() && forall|i: int|
        0 <= i < answers.len() ==> (#[trigger] responses[i]).says(answers[i])
}

/// A batch that was computed and is yet to be made durable: the statements to
/// write to the database in one transaction together with `last_log` and
/// `last_membership`, the answers to hand out once that is done, and the state to
/// take over then.
pub struct Staged<L, M> {
    pub journal: Vec<RowOp>,
    pub last_log: Option<L>,
    pub last_membership: Option<M>,
    pub responses: Vec<IndexNodeResponse>,
    pub tables: Tables,
    pub registry: Registry,
}

impl<L, M> Staged<L, M> {
    /// No table holds two rows under one key.
    pub open spec fn wf(&self) -> bool {
        self.tables.wf() && self.registry.wf()
    }

    /// The state to take over.
    pub open spec fn index(&self) -> model::Index {
        model::Index { tables: self.tables@, nodes: self.registry@ }
    }
}

/// What identifies a snapshot.
pub struct SnapshotMeta<L, M> {
    pub last_log_id: Option<L>,
    pub last_membership: M,
    pub snapshot_id: String,
}

/// The rows of a snapshot. Row order is irrelevant. Manifest rows carry no time.
#[derive(Debug, Clone, PartialEq, Eq)]
pub struct StateMachineSnapshotData {
    pub buckets: Vec<(String, BucketRow)>,
    pub manifests: Vec<((String, String), ManifestRow)>,
    pub shard_refs: Vec<(Vec<u8>, i64)>,
    pub repair_operator: Option<Vec<u8>>,
}

impl StateMachineSnapshotData {
    /// Whether no two rows of a table have the same key.
    pub open spec fn distinct(&self) -> bool {
        table::distinct(self.buckets@) && table::distinct(self.manifests@) && table::distinct(
            self.shard_refs@,
        )
    }

    /// The tables that the rows describe.
    pub open spec fn tables(&self) -> model::Tables {
        model::Tables {
            buckets: table::map_of(self.buckets@),
            manifests: table::map_of(self.manifests@),
            refs: table::map_of(self.shard_refs@),
            repair_operator: state::optional_bytes(self.repair_operator),
        }
    }
}

/// A manifest row without its time.
pub open spec fn untimed(row: model::ManifestView) -> model::ManifestView {
    model::ManifestView { created_at: 0, ..row }
}

/// The tables as a snapshot keeps them: the times of the manifests are dropped.
pub open spec fn snapshot_of(t: model::Tables) -> model::Tables {
    model::Tables { manifests: t.manifests.map_values(|row: model::ManifestView| untimed(row)), ..t }
}

/// A logical snapshot of the state machine at a single point in time.
pub struct ArkelStateMachineSnapshot<'a, L, M> {
    pub data: StateMachineSnapshotData,
    pub last_applied_log: &'a Option<L>,
    pub last_membership: &'a M,
    pub snapshot_index: u64,
}

/// The state machine of an index node.
pub struct ArkelStateMachine<L, M> {
    tables: Tables,
    node_registry: Registry,
    last_applied_log: Option<L>,
    last_membership: M,
    snapshot_index: u64,
    current_snapshot: Option<(SnapshotMeta<L, M>, Vec<u8>)>,
}

impl<L, M> ArkelStateMachine<L, M> {
    /// No table holds two rows under one key.
    pub closed spec fn wf(&self) -> bool {
        self.tables.wf() && self.node_registry.wf()
    }

    /// The tables and the registry.
    pub closed spec fn index(&self) -> model::Index {
        model::Index { tables: self.tables@, nodes: self.node_registry@ }
    }

    /// The log id of the last entry applied.
    pub closed spec fn last_log(&self) -> Option<L> {
        self.last_applied_log
    }

    /// The membership in force.
    pub closed spec fn membership(&self) -> M {
        self.last_membership
    }

    /// How many snapshots were built.
    pub closed spec fn snapshots_built(&self) -> u64 {
        self.snapshot_index
    }

    /// The snapshot at hand.
    pub closed spec fn at_hand(&self) -> Option<(SnapshotMeta<L, M>, Vec<u8>)> {
        self.current_snapshot
    }

    /// Starts from what was found in the database. The registry starts empty.
    pub fn open(
        data: StateMachineSnapshotData,
        last_applied_log: Option<L>,
        last_membership: M,
    ) -> (r: Result<Self, StateError>)
        ensures
            data.distinct() ==> r is Ok,
            !data.distinct() ==> r == Err::<Self, StateError>(StateError::DuplicateRow),
            r matches Ok(sm) ==> {
                &&& sm.wf()
                &&& sm.index() == (model::Index { tables: data.tables(), nodes: Map::empty() })
                &&& sm.last_log() == last_applied_log
                &&& sm.membership() == last_membership
                &&& sm.snapshots_built() == 0
                &&& sm.at_hand() is None
            },
    {
        match load(data) {
            Err(e) => Err(e),
            Ok(tables) => Ok(
                ArkelStateMachine {
                    tables,
                    node_registry: Table::new(),
                    last_applied_log,
                    last_membership,
                    snapshot_index: 0,
                    current_snapshot: None,
                },
            ),
        }
    }

    /// The last log id applied and the membership in force.
    pub fn applied_state(&self) -> (r: (&Option<L>, &M))
        ensures
            *r.0 == self.last_log(),
            *r.1 == self.membership(),
    {
        (&self.last_applied_log, &self.last_membership)
    }

    /// Computes what a batch does, for the caller to make it durable and then to
    /// hand it to `finish`. Until then, and where this is an error, the tables stay as
    /// they were and the registry is empty.
    pub fn stage(&mut self, entries: Vec<LogEntry<L, M>>) -> (r: Result<Staged<L, M>, StateError>)
        requires
            old(self).wf(),
            entries@.len() > 0,
        ensures
            final(self).wf(),
            final(self).index() == (model::Index { nodes: Map::empty(), ..old(self).index() }),
            final(self).last_log() == old(self).last_log(),
            final(self).membership() == old(self).membership(),
            final(self).snapshots_built() == old(self).snapshots_built(),
            final(self).at_hand() == old(self).at_hand(),
            match batch_outcome(old(self).index(), entries@) {
                Err(e) => r == Err::<Staged<L, M>, StateError>(e),
                Ok((s, answers)) => r is Ok && {
                    let staged = r->Ok_0;
                    &&& staged.wf()
                    &&& staged.index() == s
                    &&& say(staged.responses@, answers)
                    &&& state::replayed(old(self).index().tables, staged.journal@) == s.tables
                    &&& staged.last_log == last_log_id(entries@)
                    &&& staged.last_membership == new_membership(entries@)
                },
            },
    {
        let ghost start = self.index();
        let mut registry: Registry = Table::new();
        std::mem::swap(&mut registry, &mut self.node_registry);
        assert(self.index() =~= (model::Index { nodes: Map::empty(), ..start }));
        let mut tx = Transaction::begin(&self.tables);
        let ghost all = entries@;
        let mut last_log: Option<L> = None;
        let mut last_membership: Option<M> = None;
        let mut responses: Vec<IndexNodeResponse> = Vec::new();
        let mut failure: Option<StateError> = None;
        assert(all.take(0) =~= Seq::<LogEntry<L, M>>::empty());
        for entry in it: entries
            invariant
                it.seq() == all,
                tx.wf(),
                registry.wf(),
                tx.base() == start.tables,
                failure is None ==> {
                    &&& last_log == last_log_id(all.take(it.index()))
                    &&& last_membership == new_membership(all.take(it.index()))
                    &&& batch_outcome(start, all.take(it.index())) is Ok
                    &&& batch_outcome(start, all.take(it.index()))->Ok_0.0 == (model::Index {
                        tables: tx@,
                        nodes: registry@,
                    })
                    &&& say(
                        responses@,
                        batch_outcome(start, all.take(it.index()))->Ok_0.1,
                    )
                },
                failure matches Some(e) ==> batch_outcome(start, all) == Err::<
                    (model::Index, Seq<Answer>),
                    StateError,
                >(e),
        {
            if failure.is_none() {
                proof {
                    assert(all.take(it.index() + 1).drop_last() =~= all.take(it.index()));
                    assert(all.take(it.index() + 1).last() == entry);
                }
                last_log = Some(entry.log_id);
                match entry.payload {
                    EntryPayload::Blank => {
                        responses.push(IndexNodeResponse::ok());
                    },
                    EntryPayload::Normal(cmd) => {
                        match tx.apply_command(&cmd, entry.index, &mut registry) {
                            Ok(response) => {
                                responses.push(response);
                            },
                            Err(e) => {
                                proof {
                                    lemma_batch_stops(start, all, it.index() + 1, e);
                                }
                                failure = Some(e);
                            },
                        }
                    },
                    EntryPayload::Membership(m) => {
                        last_membership = Some(m);
                        responses.push(IndexNodeResponse::ok());
                    },
                }
            }
        }
        assert(all.take(all.len() as int) =~= all);
        if let Some(e) = failure {
            return Err(e);
        }
        let (tables, journal) = tx.commit();
        Ok(Staged { journal, last_log, last_membership, responses, tables, registry })
    }

    /// Takes over a batch that is durable, and gives the answers to hand out.
    pub fn finish(&mut self, staged: Staged<L, M>) -> (r: Vec<IndexNodeResponse>)
        requires
            staged.wf(),
        ensures
            final(self).wf(),
            final(self).index() == staged.index(),
            final(self).last_log() == (if staged.last_log is Some {
                staged.last_log
            } else {
                old(self).last_log()
            }),
            final(self).membership() == (match staged.last_membership {
                Some(m) => m,
                None => old(self).membership(),
            }),
            final(self).snapshots_built() == old(self).snapshots_built(),
            final(self).at_hand() == old(self).at_hand(),
            r == staged.responses,
    {
        self.tables = staged.tables;
        self.node_registry = staged.registry;
        if staged.last_log.is_some() {
            self.last_applied_log = staged.last_log;
        }
        if let Some(m) = staged.last_membership {
            self.last_membership = m;
        }
        staged.responses
    }

    /// Applies a batch of entries in one step: all of it, or nothing but the loss
    /// of the registry.
    pub fn apply(&mut self, entries: Vec<LogEntry<L, M>>) -> (r: Result<
        Vec<IndexNodeResponse>,
        StateError,
    >)
        requires
            old(self).wf(),
        ensures
            final(self).wf(),
            final(self).snapshots_built() == old(self).snapshots_built(),
            final(self).at_hand() == old(self).at_hand(),
            match batch_outcome(old(self).index(), entries@) {
                Err(e) => {
                    &&& r == Err::<Vec<IndexNodeResponse>, StateError>(e)
                    &&& final(self).index() == (model::Index {
                        nodes: Map::empty(),
                        ..old(self).index()
                    })
                    &&& final(self).last_log() == old(self).last_log()
                    &&& final(self).membership() == old(self).membership()
                },
                Ok((s, answers)) => {
                    &&& r is Ok
                    &&& say(r->Ok_0@, answers)
                    &&& final(self).index() == s
                    &&& final(self).last_log() == (if entries@.len() > 0 {
                        last_log_id(entries@)
                    } else {
                        old(self).last_log()
                    })
                    &&& final(self).membership() == (match new_membership(entries@) {
                        Some(m) => m,
                        None => old(self).membership(),
                    })
                },
            },
    {
        if entries.len() == 0 {
            return Ok(Vec::new());
        }
        match self.stage(entries) {
            Err(e) => Err(e),
            Ok(staged) => Ok(self.finish(staged)),
        }
    }
}

/// The name of a snapshot: the leader and the index of the last log entry that it
/// covers, and its number.
pub open spec fn snapshot_id_of(last: Option<(Seq<char>, u64)>, number: nat) -> Seq<char> {
    match last {
        Some((leader, index)) => leader + "-"@ + text::decimal(index as nat) + "-"@
            + text::decimal(number),
        None => "--"@ + text::decimal(number),
    }
}

/// An optional leader and index, by their contents.
pub open spec fn last_view(last: Option<(String, u64)>) -> Option<(Seq<char>, u64)> {
    match last {
        Some((leader, index)) => Some((leader@, index)),
        None => None,
    }
}

impl<L, M> ArkelStateMachine<L, M> {
    /// Captures a consistent logical snapshot of the current state.
    pub fn snapshot(&self) -> (r: ArkelStateMachineSnapshot<'_, L, M>)
        requires
            self.wf(),
        ensures
            r.data.distinct(),
            r.data.tables() == snapshot_of(self.index().tables),
            *r.last_applied_log == self.last_log(),
            *r.last_membership == self.membership(),
            r.snapshot_index == self.snapshots_built(),
    {
        let mut manifests: Vec<((String, String), ManifestRow)> = self.tables.manifests.to_rows();
        let ghost timed = manifests@;
        let mut i: usize = 0;
        while i < manifests.len()
            invariant
                i <= manifests@.len(),
                manifests@.len() == timed.len(),
                forall|j: int|
                    0 <= j < timed.len() ==> (#[trigger] manifests@[j]).0 == timed[j].0
                        && manifests@[j].1@ == (if j < i {
                        untimed(timed[j].1@)
                    } else {
                        timed[j].1@
                    }),
            decreases manifests@.len() - i,
        {
            manifests[i].1.created_at = 0;
            i = i + 1;
        }
        proof {
            lemma_untimed(timed, manifests@);
        }
        let data = StateMachineSnapshotData {
            buckets: self.tables.buckets.to_rows(),
            manifests,
            shard_refs: self.tables.refs.to_rows(),
            repair_operator: match &self.tables.repair_operator {
                Some(o) => Some(bytes::to_vec(o.as_slice())),
                None => None,
            },
        };
        assert(data.tables() =~= snapshot_of(self.index().tables));
        ArkelStateMachineSnapshot {
            data,
            last_applied_log: &self.last_applied_log,
            last_membership: &self.last_membership,
            snapshot_index: self.snapshot_index,
        }
    }

    /// Numbers the next snapshot and names it. `last` is the leader and the index
    /// of the last log entry that it covers.
    pub fn next_snapshot_id(&mut self, last: Option<(String, u64)>) -> (r: String)
        requires
            old(self).wf(),
            old(self).snapshots_built() < u64::MAX,
        ensures
            final(self).wf(),
            final(self).snapshots_built() == old(self).snapshots_built() + 1,
            r@ == snapshot_id_of(last_view(last), (old(self).snapshots_built() + 1) as nat),
            final(self).index() == old(self).index(),
            final(self).last_log() == old(self).last_log(),
            final(self).membership() == old(self).membership(),
            final(self).at_hand() == old(self).at_hand(),
    {
        self.snapshot_index = self.snapshot_index + 1;
        match last {
            Some((leader, index)) => {
                let mut out = leader;
                out.append("-");
                out.append(text::decimal_of(index).as_str());
                out.append("-");
                out.append(text::decimal_of(self.snapshot_index).as_str());
                out
            },
            None => text::join2("--", text::decimal_of(self.snapshot_index).as_str()),
        }
    }

    /// Keeps a snapshot at hand.
    pub fn keep_snapshot(&mut self, meta: SnapshotMeta<L, M>, data: Vec<u8>)
        requires
            old(self).wf(),
        ensures
            final(self).wf(),
            final(self).at_hand() == Some((meta, data)),
            final(self).index() == old(self).index(),
            final(self).last_log() == old(self).last_log(),
            final(self).membership() == old(self).membership(),
            final(self).snapshots_built() == old(self).snapshots_built(),
    {
        self.current_snapshot = Some((meta, data));
    }

    /// The snapshot at hand.
    pub fn get_current_snapshot(&self) -> (r: Option<&(SnapshotMeta<L, M>, Vec<u8>)>)
        ensures
            r is Some <==> self.at_hand() is Some,
            r matches Some(s) ==> *s == self.at_hand()->0,
    {
        match &self.current_snapshot {
            Some(s) => Some(s),
            None => None,
        }
    }

    /// Puts the rows of a snapshot in place of the tables. `last_applied_log` and
    /// `last_membership` repeat what `meta` says, and `raw` is the snapshot as it
    /// came. The registry stays. Where two rows have the same key, nothing changes.
    pub fn install_snapshot(
        &mut self,
        meta: SnapshotMeta<L, M>,
        last_applied_log: Option<L>,
        last_membership: M,
        data: StateMachineSnapshotData,
        raw: Vec<u8>,
    ) -> (r: Result<(), StateError>)
        requires
            old(self).wf(),
            last_applied_log == meta.last_log_id,
            last_membership == meta.last_membership,
        ensures
            final(self).wf(),
            final(self).snapshots_built() == old(self).snapshots_built(),
            !data.distinct() ==> r == Err::<(), StateError>(StateError::DuplicateRow)
                && *final(self) == *old(self),
            data.distinct() ==> {
                &&& r is Ok
                &&& final(self).index() == (model::Index {
                    tables: snapshot_of(data.tables()),
                    ..old(self).index()
                })
                &&& final(self).last_log() == meta.last_log_id
                &&& final(self).membership() == meta.last_membership
                &&& final(self).at_hand() == Some((meta, raw))
            },
    {
        let ghost given = data;
        let mut data = data;
        let ghost timed = data.manifests@;
        let mut i: usize = 0;
        while i < data.manifests.len()
            invariant
                i <= data.manifests@.len(),
                data.manifests@.len() == timed.len(),
                data.buckets == given.buckets,
                data.shard_refs == given.shard_refs,
                data.repair_operator == given.repair_operator,
                forall|j: int|
                    0 <= j < timed.len() ==> (#[trigger] data.manifests@[j]).0 == timed[j].0
                        && data.manifests@[j].1@ == (if j < i {
                        untimed(timed[j].1@)
                    } else {
                        timed[j].1@
                    }),
            decreases data.manifests@.len() - i,
        {
            data.manifests[i].1.created_at = 0;
            i = i + 1;
        }
        proof {
            lemma_untimed_keys(timed, data.manifests@);
            if table::distinct(timed) {
                lemma_untimed(timed, data.manifests@);
            }
        }
        match load(data) {
            Err(e) => Err(e),
            Ok(tables) => {
                assert(tables@ =~= snapshot_of(given.tables()));
                self.tables = tables;
                self.last_applied_log = last_applied_log;
                self.last_membership = last_membership;
                self.current_snapshot = Some((meta, raw));
                Ok(())
            },
        }
    }
}

/// The nodes of the registry that are online.
pub open spec fn online(nodes: Map<Seq<u8>, NodeView>) -> Set<Seq<u8>> {
    nodes.dom().filter(|id: Seq<u8>| nodes[id].status == NodeStatus::Online)
}

/// Whether no reference to a blob is counted.
pub open spec fn unreferenced(refs: Map<Seq<u8>, i64>, blob: Seq<u8>) -> bool {
    !refs.dom().contains(blob) || refs[blob] == 0
}

/// A list of digests as the sequence of their bytes.
pub open spec fn hashes(v: Seq<[u8; 32]>) -> Seq<Seq<u8>> {
    v.map_values(|h: [u8; 32]| h@)
}

impl<L, M> ArkelStateMachine<L, M> {
    /// The names of the buckets, each once, in no particular order.
    pub fn list_buckets(&self) -> (r: Vec<String>)
        requires
            self.wf(),
        ensures
            text::texts(r@).no_duplicates(),
            forall|name: Seq<char>| #[trigger]
                text::texts(r@).contains(name)
                    <==> self.index().tables.buckets.dom().contains(name),
    {
        let mut out: Vec<String> = Vec::new();
        let mut i: usize = 0;
        let n: usize = self.tables.buckets.len();
        while i < n
            invariant
                self.wf(),
                i <= n,
                n == self.tables.buckets.count(),
                out@.len() == i,
                forall|j: int|
                    0 <= j < i ==> (#[trigger] out@[j])@ == self.tables.buckets.key_at(j),
            decreases n - i,
        {
            let (name, row) = self.tables.buckets.row(i);
            out.push(name.clone());
            i = i + 1;
        }
        proof {
            self.tables.buckets.lemma_rows();
            let names = text::texts(out@);
            assert forall|name: Seq<char>| #[trigger] names.contains(
                name,
            ) <==> self.tables.buckets@.dom().contains(name) by {
                if self.tables.buckets@.dom().contains(name) {
                    let j = choose|j: int|
                        0 <= j < n && #[trigger] self.tables.buckets.key_at(j) == name;
                    assert(names[j] == name);
                }
            }
        }
        out
    }

    /// The manifest and the signature stored for an object.
    pub fn read_manifest(&self, bucket: &str, key: &str) -> (r: Option<(Vec<u8>, Vec<u8>)>)
        requires
            self.wf(),
        ensures
            r is Some <==> self.index().tables.manifests.dom().contains((bucket@, key@)),
            r matches Some(p) ==> {
                let row = self.index().tables.manifests[(bucket@, key@)];
                p.0@ == row.manifest && p.1@ == row.signature
            },
    {
        match self.tables.manifests.get(&(text::owned(bucket), text::owned(key))) {
            Some(row) => Some(
                (
                    bytes::to_vec(row.manifest.as_slice()),
                    bytes::to_vec(row.signature.as_slice()),
                ),
            ),
            None => None,
        }
    }

    /// Whether a caller is the repair operator, who alone may list all manifests.
    pub fn is_repair_operator(&self, caller: &[u8]) -> (r: bool)
        requires
            self.wf(),
        ensures
            r == (self.index().tables.repair_operator == Some(caller@)),
    {
        match &self.tables.repair_operator {
            Some(o) => bytes::same_bytes(o.as_slice(), caller),
            None => false,
        }
    }

    /// Bucket, key and manifest of each object, in no particular order.
    pub fn list_all_manifests(&self) -> (r: Vec<(String, String, Vec<u8>)>)
        requires
            self.wf(),
        ensures
            forall|i: int, j: int|
                0 <= i < j < r@.len() ==> ((#[trigger] r@[i]).0@, r@[i].1@) != ((
                #[trigger] r@[j]).0@, r@[j].1@),
            forall|i: int|
                0 <= i < r@.len() ==> self.index().tables.manifests.dom().contains(
                    ((#[trigger] r@[i]).0@, r@[i].1@),
                ) && r@[i].2@ == self.index().tables.manifests[(r@[i].0@, r@[i].1@)].manifest,
            forall|id: model::ObjectKey| #[trigger]
                self.index().tables.manifests.dom().contains(id) ==> exists|i: int|
                    0 <= i < r@.len() && ((#[trigger] r@[i]).0@, r@[i].1@) == id,
    {
        let mut out: Vec<(String, String, Vec<u8>)> = Vec::new();
        let mut i: usize = 0;
        let n: usize = self.tables.manifests.len();
        while i < n
            invariant
                self.wf(),
                i <= n,
                n == self.tables.manifests.count(),
                out@.len() == i,
                forall|j: int|
                    0 <= j < i ==> ((#[trigger] out@[j]).0@, out@[j].1@)
                        == self.tables.manifests.key_at(j) && self.tables.manifests@.dom().contains(
                        (out@[j].0@, out@[j].1@),
                    ) && out@[j].2@ == self.tables.manifests@[(out@[j].0@, out@[j].1@)].manifest,
            decreases n - i,
        {
            let (id, row) = self.tables.manifests.row(i);
            out.push((id.0.clone(), id.1.clone(), bytes::to_vec(row.manifest.as_slice())));
            i = i + 1;
        }
        proof {
            self.tables.manifests.lemma_rows();
            assert forall|a: int, b: int| 0 <= a < b < out@.len() implies ((#[trigger] out@[a]).0@,
                out@[a].1@) != ((#[trigger] out@[b]).0@, out@[b].1@) by {
                assert(self.tables.manifests.key_at(a) != self.tables.manifests.key_at(b));
            }
            assert forall|id: model::ObjectKey| #[trigger]
                self.tables.manifests@.dom().contains(id) implies exists|j: int|
                0 <= j < out@.len() && ((#[trigger] out@[j]).0@, out@[j].1@) == id by {
                let j = choose|j: int| 0 <= j < n && #[trigger] self.tables.manifests.key_at(j) == id;
                assert((out@[j].0@, out@[j].1@) == id);
            }
        }
        out
    }

    /// The keys of the objects in a bucket, in order.
    pub fn list_objects(&self, bucket: &str) -> (r: Vec<String>)
        requires
            self.wf(),
        ensures
            order::sorted(text::texts(r@)),
            text::texts(r@).no_duplicates(),
            forall|key: Seq<char>| #[trigger]
                text::texts(r@).contains(key) <==> self.index().tables.manifests.dom().contains(
                    (bucket@, key),
                ),
    {
        let mut found: Vec<String> = Vec::new();
        let mut i: usize = 0;
        let n: usize = self.tables.manifests.len();
        let ghost mut at: Seq<int> = seq![];
        while i < n
            invariant
                self.wf(),
                i <= n,
                n == self.tables.manifests.count(),
                found@.len() == at.len(),
                forall|j: int|
                    0 <= j < at.len() ==> 0 <= #[trigger] at[j] < i
                        && self.tables.manifests.key_at(at[j]) == (bucket@, found@[j]@),
                forall|j: int, k: int| 0 <= j < k < at.len() ==> #[trigger] at[j] < #[trigger] at[k],
                forall|p: int|
                    0 <= p < i && (#[trigger] self.tables.manifests.key_at(p)).0 == bucket@
                        ==> at.contains(p),
            decreases n - i,
        {
            let (id, row) = self.tables.manifests.row(i);
            let ghost prior = at;
            if text::same_text(id.0.as_str(), bucket) {
                found.push(id.1.clone());
                proof {
                    at = at.push(i as int);
                    assert(at[at.len() - 1] == i);
                }
            }
            proof {
                assert forall|p: int|
                    0 <= p < i + 1 && (#[trigger] self.tables.manifests.key_at(p)).0
                        == bucket@ implies at.contains(p) by {
                    if p < i {
                        let j = choose|j: int| 0 <= j < prior.len() && prior[j] == p;
                        assert(at[j] == p);
                    }
                }
            }
            i = i + 1;
        }
        let r = order::sort_texts(&found);
        proof {
            self.tables.manifests.lemma_rows();
            let names = text::texts(found@);
            assert(names.no_duplicates()) by {
                assert forall|j: int, k: int|
                    0 <= j < names.len() && 0 <= k < names.len() && j != k implies names[j]
                    != names[k] by {
                    assert(at[j] != at[k]) by {
                        if j < k {
                            assert(at[j] < at[k]);
                        } else {
                            assert(at[k] < at[j]);
                        }
                    }
                    assert(self.tables.manifests.key_at(at[j]) != self.tables.manifests.key_at(
                        at[k],
                    ));
                }
            }
            assert forall|key: Seq<char>| #[trigger] names.contains(
                key,
            ) <==> self.tables.manifests@.dom().contains((bucket@, key)) by {
                if self.tables.manifests@.dom().contains((bucket@, key)) {
                    let p = choose|p: int|
                        0 <= p < n && #[trigger] self.tables.manifests.key_at(p) == (bucket@, key);
                    let j = choose|j: int| 0 <= j < at.len() && at[j] == p;
                    assert(names[j] == key);
                }
                if names.contains(key) {
                    let j = choose|j: int| 0 <= j < names.len() && names[j] == key;
                    assert(self.tables.manifests.key_at(at[j]) == (bucket@, key));
                }
            }
            lemma_same_members(names, text::texts(r@));
            assert forall|key: Seq<char>| #[trigger] text::texts(r@).contains(
                key,
            ) <==> self.tables.manifests@.dom().contains((bucket@, key)) by {
                assert(names.contains(key) <==> text::texts(r@).contains(key));
            }
        }
        r
    }

    /// Which of the given blobs no reference is counted to. Where the log leads to the
    /// state from an empty index, these are the ones that no stored manifest lists.
    pub fn gc_candidates(&self, blobs: &Vec<[u8; 32]>) -> (r: Vec<Vec<u8>>)
        requires
            self.wf(),
        ensures
            bytes::contents(r@) == hashes(blobs@).filter(
                |h: Seq<u8>| unreferenced(self.index().tables.refs, h),
            ),
    {
        let ghost refs = self.index().tables.refs;
        let ghost pred = |h: Seq<u8>| unreferenced(refs, h);
        let ghost all = hashes(blobs@);
        let mut out: Vec<Vec<u8>> = Vec::new();
        let mut i: usize = 0;
        assert(all.take(0).filter(pred) =~= Seq::<Seq<u8>>::empty());
        assert(bytes::contents(out@) =~= Seq::<Seq<u8>>::empty());
        while i < blobs.len()
            invariant
                self.wf(),
                i <= blobs@.len(),
                refs == self.index().tables.refs,
                pred == (|h: Seq<u8>| unreferenced(refs, h)),
                all == hashes(blobs@),
                bytes::contents(out@) == all.take(i as int).filter(pred),
            decreases blobs@.len() - i,
        {
            let h = bytes::array_to_vec(&blobs[i]);
            let count: i64 = match self.tables.refs.get(&h) {
                Some(n) => *n,
                None => 0,
            };
            let ghost so_far = out@;
            proof {
                assert(all.take(i + 1) =~= all.take(i as int).push(all[i as int]));
                all.take(i as int).lemma_filter_push(all[i as int], pred);
            }
            if count == 0 {
                out.push(h);
                assert(bytes::contents(out@) =~= bytes::contents(so_far).push(h@));
            }
            i = i + 1;
        }
        assert(all.take(i as int) =~= all);
        out
    }

    /// Up to `count` nodes that are online, each once, in no particular order.
    pub fn get_healthy_nodes(&self, count: usize) -> (r: Vec<(Vec<u8>, String, Option<String>)>)
        requires
            self.wf(),
        ensures
            r@.len() == (if count < online(self.index().nodes).len() {
                count as nat
            } else {
                online(self.index().nodes).len()
            }),
            forall|i: int, j: int| 0 <= i < j < r@.len() ==> (#[trigger] r@[i]).0@ != (
            #[trigger] r@[j]).0@,
            forall|i: int|
                0 <= i < r@.len() ==> online(self.index().nodes).contains(
                    (#[trigger] r@[i]).0@,
                ) && (r@[i].1@, types::optional_text(r@[i].2)) == ({
                    let n = self.index().nodes[r@[i].0@];
                    (n.addr, n.relay_url)
                }),
    {
        let ghost nodes = self.index().nodes;
        let mut out: Vec<(Vec<u8>, String, Option<String>)> = Vec::new();
        let ghost mut seen: Set<Seq<u8>> = Set::empty();
        let mut i: usize = 0;
        let n: usize = self.node_registry.len();
        proof {
            self.node_registry.lemma_rows();
            self.node_registry.lemma_finite();
        }
        while i < n && out.len() < count
            invariant
                self.wf(),
                i <= n,
                n == self.node_registry.count(),
                nodes == self.node_registry@,
                nodes.dom().finite(),
                forall|j: int, k: int|
                    0 <= j < k < n ==> #[trigger] self.node_registry.key_at(j)
                        != #[trigger] self.node_registry.key_at(k),
                out@.len() <= count,
                seen.finite(),
                seen.len() == out@.len(),
                forall|id: Seq<u8>| #[trigger]
                    seen.contains(id) <==> online(nodes).contains(id) && exists|j: int|
                        0 <= j < i && #[trigger] self.node_registry.key_at(j) == id,
                forall|j: int| 0 <= j < out@.len() ==> seen.contains((#[trigger] out@[j]).0@),
                forall|j: int, k: int|
                    0 <= j < k < out@.len() ==> (#[trigger] out@[j]).0@ != (#[trigger] out@[k]).0@,
                forall|j: int|
                    0 <= j < out@.len() ==> online(nodes).contains((#[trigger] out@[j]).0@) && (
                    out@[j].1@, types::optional_text(out@[j].2)) == ({
                        let n = nodes[out@[j].0@];
                        (n.addr, n.relay_url)
                    }),
            decreases n - i,
        {
            let (id, stats) = self.node_registry.row(i);
            let ghost prior = seen;
            if stats.status == NodeStatus::Online {
                out.push(
                    (
                        bytes::to_vec(id.as_slice()),
                        stats.addr.clone(),
                        types::copy_optional(&stats.relay_url),
                    ),
                );
                proof {
                    assert(!prior.contains(id@));
                    seen = seen.insert(id@);
                }
            }
            proof {
                assert forall|x: Seq<u8>| #[trigger] seen.contains(x) <==> online(nodes).contains(x)
                    && exists|j: int|
                    0 <= j < i + 1 && #[trigger] self.node_registry.key_at(j) == x by {
                    if prior.contains(x) {
                        let j = choose|j: int|
                            0 <= j < i && #[trigger] self.node_registry.key_at(j) == x;
                        assert(self.node_registry.key_at(j) == x);
                    }
                    assert(self.node_registry.key_at(i as int) == id@);
                }
            }
            i = i + 1;
        }
        proof {
            assert(seen.subset_of(online(nodes)));
            assert(online(nodes).subset_of(nodes.dom()));
            vstd::set_lib::lemma_set_subset_finite(nodes.dom(), online(nodes));
            vstd::set_lib::lemma_len_subset(seen, online(nodes));
            if i == n {
                assert(online(nodes) =~= seen) by {
                    assert forall|id: Seq<u8>| #[trigger] online(nodes).contains(
                        id,
                    ) implies seen.contains(id) by {
                        assert(nodes.dom().contains(id));
                        let j = choose|j: int|
                            0 <= j < n && #[trigger] self.node_registry.key_at(j) == id;
                        assert(self.node_registry.key_at(j) == id);
                    }
                }
            }
        }
        out
    }

    /// Each registered node with the log index of its last heartbeat.
    pub fn list_node_lags(&self) -> (r: Vec<(Vec<u8>, u64)>)
        requires
            self.wf(),
        ensures
            forall|i: int, j: int| 0 <= i < j < r@.len() ==> (#[trigger] r@[i]).0@ != (
            #[trigger] r@[j]).0@,
            forall|i: int|
                0 <= i < r@.len() ==> self.index().nodes.dom().contains((#[trigger] r@[i]).0@)
                    && r@[i].1 == self.index().nodes[r@[i].0@].last_seen,
            forall|id: Seq<u8>| #[trigger]
                self.index().nodes.dom().contains(id) ==> exists|i: int|
                    0 <= i < r@.len() && (#[trigger] r@[i]).0@ == id,
    {
        let mut out: Vec<(Vec<u8>, u64)> = Vec::new();
        let mut i: usize = 0;
        let n: usize = self.node_registry.len();
        while i < n
            invariant
                self.wf(),
                i <= n,
                n == self.node_registry.count(),
                out@.len() == i,
                forall|j: int|
                    0 <= j < i ==> (#[trigger] out@[j]).0@ == self.node_registry.key_at(j)
                        && out@[j].1 == self.node_registry@[out@[j].0@].last_seen,
            decreases n - i,
        {
            let (id, stats) = self.node_registry.row(i);
            out.push((bytes::to_vec(id.as_slice()), stats.last_seen));
            i = i + 1;
        }
        proof {
            self.node_registry.lemma_rows();
            assert forall|id: Seq<u8>| #[trigger]
                self.node_registry@.dom().contains(id) implies exists|i: int|
                0 <= i < out@.len() && (#[trigger] out@[i]).0@ == id by {
                let j = choose|j: int| 0 <= j < n && #[trigger] self.node_registry.key_at(j) == id;
                assert(out@[j].0@ == id);
            }
            assert forall|i: int, j: int| 0 <= i < j < out@.len() implies (#[trigger] out@[i]).0@
                != (#[trigger] out@[j]).0@ by {
                assert(self.node_registry.key_at(i) != self.node_registry.key_at(j));
            }
        }
        out
    }

    /// The contents of the registry, one row per node.
    pub fn list_all_node_stats(&self) -> (r: Vec<(Vec<u8>, NodeStats)>)
        requires
            self.wf(),
        ensures
            table::distinct(r@),
            table::map_of(r@) == self.index().nodes,
    {
        self.node_registry.to_rows()
    }
}

/// Lists with the same multiset have the same members, and both or neither repeat
/// one.
proof fn lemma_same_members<A>(a: Seq<A>, b: Seq<A>)
    requires
        a.to_multiset() == b.to_multiset(),
    ensures
        forall|x: A| #[trigger] a.contains(x) <==> b.contains(x),
        a.no_duplicates() ==> b.no_duplicates(),
{
    broadcast use vstd::seq_lib::group_to_multiset_ensures;

    assert forall|x: A| #[trigger] a.contains(x) <==> b.contains(x) by {
        assert(a.contains(x) <==> a.to_multiset().count(x) > 0);
        assert(b.contains(x) <==> b.to_multiset().count(x) > 0);
    }
    if a.no_duplicates() {
        a.lemma_multiset_has_no_duplicates();
        b.lemma_multiset_has_no_duplicates_conv();
    }
}

proof fn lemma_untimed_keys(
    timed: Seq<((String, String), ManifestRow)>,
    rows: Seq<((String, String), ManifestRow)>,
)
    requires
        rows.len() == timed.len(),
        forall|j: int| 0 <= j < timed.len() ==> (#[trigger] rows[j]).0 == timed[j].0,
    ensures
        table::distinct(rows) <==> table::distinct(timed),
{
    if table::distinct(timed) {
        assert forall|a: int, b: int| 0 <= a < b < rows.len() implies (#[trigger] rows[a]).0@ != (
        #[trigger] rows[b]).0@ by {
            assert(timed[a].0@ != timed[b].0@);
        }
    }
    if table::distinct(rows) {
        assert forall|a: int, b: int| 0 <= a < b < rows.len() implies (#[trigger] timed[a]).0@ != (
        #[trigger] timed[b]).0@ by {
            assert(rows[a].0@ != rows[b].0@);
        }
    }
}

proof fn lemma_untimed(
    timed: Seq<((String, String), ManifestRow)>,
    rows: Seq<((String, String), ManifestRow)>,
)
    requires
        table::distinct(timed),
        rows.len() == timed.len(),
        forall|j: int|
            0 <= j < timed.len() ==> (#[trigger] rows[j]).0 == timed[j].0 && rows[j].1@ == untimed(
                timed[j].1@,
            ),
    ensures
        table::distinct(rows),
        table::map_of(rows) == table::map_of(timed).map_values(
            |row: model::ManifestView| untimed(row),
        ),
{
    lemma_untimed_keys(timed, rows);
    let f = |row: model::ManifestView| untimed(row);
    let m = table::map_of(timed).map_values(f);
    assert forall|id: model::ObjectKey| #[trigger] table::map_of(rows).dom().contains(id)
        <==> m.dom().contains(id) by {
        if table::holds(rows, id) {
            let p = table::place(rows, id);
            assert(timed[p].0@ == id);
        }
        if table::holds(timed, id) {
            let p = table::place(timed, id);
            assert(rows[p].0@ == id);
        }
    }
    assert forall|id: model::ObjectKey| #[trigger] table::map_of(rows).dom().contains(
        id,
    ) implies table::map_of(rows)[id] == m[id] by {
        let p = table::place(rows, id);
        table::lemma_row(rows, p);
        assert(rows[p].0 == timed[p].0);
        table::lemma_row(timed, p);
    }
    assert(table::map_of(rows) =~= m);
}

/// The tables that the rows of a snapshot describe.
fn load(data: StateMachineSnapshotData) -> (r: Result<Tables, StateError>)
    ensures
        data.distinct() ==> r is Ok,
        !data.distinct() ==> r == Err::<Tables, StateError>(StateError::DuplicateRow),
        r matches Ok(t) ==> t.wf() && t@ == data.tables(),
{
    let buckets = match Table::from_rows(data.buckets) {
        Some(t) => t,
        None => {
            return Err(StateError::DuplicateRow);
        },
    };
    let manifests = match Table::from_rows(data.manifests) {
        Some(t) => t,
        None => {
            return Err(StateError::DuplicateRow);
        },
    };
    let refs = match Table::from_rows(data.shard_refs) {
        Some(t) => t,
        None => {
            return Err(StateError::DuplicateRow);
        },
    };
    Ok(Tables { buckets, manifests, refs, repair_operator: data.repair_operator })
}

} // verus!
