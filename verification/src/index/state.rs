//! The state machine: tables kept in memory, changed by transactions that also
//! record, statement by statement, what to write to the database.
use vstd::prelude::*;

use crate::bytes;
use crate::index::model;
use crate::index::model::{BucketView, ManifestView, StateError};
use crate::index::types::{IndexNodeRequest, IndexNodeResponse, NodeStats, NodeStatus};
use crate::index::types;
use crate::table::{Key, Row, Table};

verus! {

/// A row of the bucket table.
#[derive(Debug, Clone, PartialEq, Eq)]
pub struct BucketRow {
    pub created_at: u64,
    pub owner: Vec<u8>,
}

impl View for BucketRow {
    type V = BucketView;

    open spec fn view(&self) -> BucketView {
        BucketView { created_at: self.created_at, owner: self.owner@ }
    }
}

impl Row for BucketRow {
    fn copied(&self) -> (r: Self) {
        BucketRow { created_at: self.created_at, owner: bytes::to_vec(self.owner.as_slice()) }
    }
}

/// A row of the manifest table.
#[derive(Debug, Clone, PartialEq, Eq)]
pub struct ManifestRow {
    pub object_hash: Vec<u8>,
    pub manifest: Vec<u8>,
    pub signature: Vec<u8>,
    pub created_at: u64,
    pub blobs: Option<Vec<Vec<u8>>>,
}

impl View for ManifestRow {
    type V = ManifestView;

    open spec fn view(&self) -> ManifestView {
        ManifestView {
            object_hash: self.object_hash@,
            manifest: self.manifest@,
            signature: self.signature@,
            created_at: self.created_at,
            blobs: model::optional_contents(self.blobs),
        }
    }
}

impl Row for ManifestRow {
    fn copied(&self) -> (r: Self) {
        ManifestRow {
            object_hash: bytes::to_vec(self.object_hash.as_slice()),
            manifest: bytes::to_vec(self.manifest.as_slice()),
            signature: bytes::to_vec(self.signature.as_slice()),
            created_at: self.created_at,
            blobs: copy_blobs(&self.blobs),
        }
    }
}

fn copy_blobs(blobs: &Option<Vec<Vec<u8>>>) -> (r: Option<Vec<Vec<u8>>>)
    ensures
        model::optional_contents(r) == model::optional_contents(*blobs),
{
    match blobs {
        Some(b) => Some(bytes::copy_all(b)),
        None => None,
    }
}

impl Row for i64 {
    fn copied(&self) -> (r: Self) {
        *self
    }
}

/// The registry of storage nodes.
pub type Registry = Table<Vec<u8>, NodeStats>;

/// The durable tables.
pub struct Tables {
    pub buckets: Table<String, BucketRow>,
    pub manifests: Table<(String, String), ManifestRow>,
    pub refs: Table<Vec<u8>, i64>,
    pub repair_operator: Option<Vec<u8>>,
}

/// The contents of an optional byte string.
pub open spec fn optional_bytes(b: Option<Vec<u8>>) -> Option<Seq<u8>> {
    match b {
        Some(v) => Some(v@),
        None => None,
    }
}

impl View for Tables {
    type V = model::Tables;

    open spec fn view(&self) -> model::Tables {
        model::Tables {
            buckets: self.buckets@,
            manifests: self.manifests@,
            refs: self.refs@,
            repair_operator: optional_bytes(self.repair_operator),
        }
    }
}

impl Tables {
    /// No table holds two rows under one key.
    pub open spec fn wf(&self) -> bool {
        self.buckets.wf() && self.manifests.wf() && self.refs.wf()
    }

    /// Empty tables.
    pub fn new() -> (r: Self)
        ensures
            r.wf(),
            r@ == (model::Tables {
                buckets: Map::empty(),
                manifests: Map::empty(),
                refs: Map::empty(),
                repair_operator: None,
            }),
    {
        Tables {
            buckets: Table::new(),
            manifests: Table::new(),
            refs: Table::new(),
            repair_operator: None,
        }
    }

    fn copied(&self) -> (r: Self)
        requires
            self.wf(),
        ensures
            r.wf(),
            r@ == self@,
    {
        Tables {
            buckets: self.buckets.copied(),
            manifests: self.manifests.copied(),
            refs: self.refs.copied(),
            repair_operator: match &self.repair_operator {
                Some(o) => Some(bytes::to_vec(o.as_slice())),
                None => None,
            },
        }
    }
}

/// One statement on the durable tables.
#[derive(Debug, Clone, PartialEq, Eq)]
pub enum RowOp {
    /// A new bucket.
    InsertBucket { name: String, created_at: u64, owner: Vec<u8> },
    /// The bucket goes.
    DeleteBucket { name: String },
    /// All manifests in the bucket go.
    DeleteManifestsOf { bucket: String },
    /// The manifest of an object, in place of one that is there.
    PutManifest { bucket: String, key: String, row: ManifestRow },
    /// The manifest of an object goes.
    DeleteManifest { bucket: String, key: String },
    /// One reference to the blob is given back, where there is one.
    Release { blob: Vec<u8> },
    /// One more reference to the blob.
    Retain { blob: Vec<u8> },
    /// The repair operator.
    SetOperator { operator: Vec<u8> },
}

/// What a statement makes of the tables. A count at its maximum stays.
pub open spec fn effect(t: model::Tables, op: RowOp) -> model::Tables {
    match op {
        RowOp::InsertBucket { name, created_at, owner } => model::with_bucket(
            t,
            name@,
            created_at,
            owner@,
        ),
        RowOp::DeleteBucket { name } => model::Tables { buckets: t.buckets.remove(name@), ..t },
        RowOp::DeleteManifestsOf { bucket } => model::Tables {
            manifests: model::without_manifests_of(t.manifests, bucket@),
            ..t
        },
        RowOp::PutManifest { bucket, key, row } => model::Tables {
            manifests: t.manifests.insert((bucket@, key@), row@),
            ..t
        },
        RowOp::DeleteManifest { bucket, key } => model::Tables {
            manifests: t.manifests.remove((bucket@, key@)),
            ..t
        },
        RowOp::Release { blob } => model::Tables { refs: model::release_one(t.refs, blob@), ..t },
        RowOp::Retain { blob } => match model::retain_one(t.refs, blob@) {
            Ok(refs) => model::Tables { refs, ..t },
            Err(_) => t,
        },
        RowOp::SetOperator { operator } => model::Tables {
            repair_operator: Some(operator@),
            ..t
        },
    }
}

/// What a list of statements makes of the tables, one after the other.
pub open spec fn replayed(t: model::Tables, ops: Seq<RowOp>) -> model::Tables
    decreases ops.len(),
{
    if ops.len() == 0 {
        t
    } else {
        effect(replayed(t, ops.drop_last()), ops.last())
    }
}

/// Tables in the course of being changed, with the statements that led from the
/// tables it began with to what it holds now.
pub struct Transaction {
    tables: Tables,
    journal: Vec<RowOp>,
    base: Ghost<model::Tables>,
}

impl View for Transaction {
    type V = model::Tables;

    closed spec fn view(&self) -> model::Tables {
        self.tables@
    }
}

impl Transaction {
    /// The tables it began with.
    pub closed spec fn base(&self) -> model::Tables {
        self.base@
    }

    /// The recorded statements lead from the base to the tables as they are.
    pub closed spec fn wf(&self) -> bool {
        self.tables.wf() && replayed(self.base@, self.journal@) == self.tables@
    }

    /// Begins with the given tables.
    pub fn begin(tables: &Tables) -> (r: Self)
        requires
            tables.wf(),
        ensures
            r.wf(),
            r.base() == tables@,
            r@ == tables@,
    {
        Transaction { tables: tables.copied(), journal: Vec::new(), base: Ghost(tables@) }
    }

    /// Ends: the tables as they now are, and the statements that led there.
    pub fn commit(self) -> (r: (Tables, Vec<RowOp>))
        requires
            self.wf(),
        ensures
            r.0.wf(),
            r.0@ == self@,
            replayed(self.base(), r.1@) == r.0@,
    {
        (self.tables, self.journal)
    }

    /// Carries out a statement and records it.
    fn run(&mut self, op: RowOp)
        requires
            old(self).wf(),
        ensures
            final(self).wf(),
            final(self).base() == old(self).base(),
            final(self)@ == effect(old(self)@, op),
    {
        let ghost before = self.tables@;
        match &op {
            RowOp::InsertBucket { name, created_at, owner } => {
                self.tables.buckets.put(
                    name.clone(),
                    BucketRow { created_at: *created_at, owner: bytes::to_vec(owner.as_slice()) },
                );
            },
            RowOp::DeleteBucket { name } => {
                self.tables.buckets.remove(name);
            },
            RowOp::DeleteManifestsOf { bucket } => {
                self.tables.manifests = others(&self.tables.manifests, bucket);
            },
            RowOp::PutManifest { bucket, key, row } => {
                self.tables.manifests.put((bucket.clone(), key.clone()), row.copied());
            },
            RowOp::DeleteManifest { bucket, key } => {
                self.tables.manifests.remove(&(bucket.clone(), key.clone()));
            },
            RowOp::Release { blob } => {
                let count: Option<i64> = self.count(blob);
                if let Some(n) = count {
                    if n > 0 {
                        self.tables.refs.put(bytes::to_vec(blob.as_slice()), n - 1);
                    }
                }
            },
            RowOp::Retain { blob } => {
                let count: Option<i64> = self.count(blob);
                match count {
                    None => {
                        self.tables.refs.put(bytes::to_vec(blob.as_slice()), 1);
                    },
                    Some(n) => {
                        if n < i64::MAX {
                            self.tables.refs.put(bytes::to_vec(blob.as_slice()), n + 1);
                        }
                    },
                }
            },
            RowOp::SetOperator { operator } => {
                self.tables.repair_operator = Some(bytes::to_vec(operator.as_slice()));
            },
        }
        assert(self.tables@ =~= effect(before, op));
        let ghost ops = self.journal@;
        self.journal.push(op);
        assert(self.journal@.drop_last() =~= ops);
    }

    /// The reference count of a blob, where there is one.
    fn count(&self, blob: &Vec<u8>) -> (r: Option<i64>)
        requires
            self.wf(),
        ensures
            r is Some <==> self@.refs.dom().contains(blob@),
            r matches Some(n) ==> n == self@.refs[blob@],
    {
        match self.tables.refs.get(blob) {
            Some(n) => Some(*n),
            None => None,
        }
    }
}

impl Transaction {
    /// The owner of a bucket, where there is the bucket.
    fn bucket_owner(&self, bucket: &String) -> (r: Option<Vec<u8>>)
        requires
            self.wf(),
        ensures
            optional_bytes(r) == model::owner_of(self@, bucket@),
    {
        match self.tables.buckets.get(bucket) {
            Some(row) => Some(bytes::to_vec(row.owner.as_slice())),
            None => None,
        }
    }

    fn has_manifest(&self, bucket: &String, key: &String) -> (r: bool)
        requires
            self.wf(),
        ensures
            r == self@.manifests.dom().contains((bucket@, key@)),
    {
        self.tables.manifests.contains(&(bucket.clone(), key.clone()))
    }

    /// Gives back one reference to each listed blob.
    fn release_all(&mut self, blobs: &Vec<Vec<u8>>)
        requires
            old(self).wf(),
        ensures
            final(self).wf(),
            final(self).base() == old(self).base(),
            final(self)@ == (model::Tables {
                refs: model::release(old(self)@.refs, bytes::contents(blobs@)),
                ..old(self)@
            }),
    {
        let ghost start = self@;
        let ghost base = self.base();
        let ghost all = bytes::contents(blobs@);
        let mut i: usize = 0;
        while i < blobs.len()
            invariant
                self.wf(),
                self.base() == base,
                i <= blobs@.len(),
                all == bytes::contents(blobs@),
                self@ == (model::Tables {
                    refs: model::release(start.refs, all.take(i as int)),
                    ..start
                }),
            decreases blobs@.len() - i,
        {
            self.run(RowOp::Release { blob: bytes::to_vec(blobs[i].as_slice()) });
            i = i + 1;
            assert(all.take(i as int).drop_last() =~= all.take(i - 1));
        }
        assert(all.take(i as int) =~= all);
    }

    /// Takes one reference to each listed blob.
    fn retain_all(&mut self, blobs: &Vec<Vec<u8>>) -> (r: Result<(), StateError>)
        requires
            old(self).wf(),
        ensures
            final(self).wf(),
            final(self).base() == old(self).base(),
            match model::retain(old(self)@.refs, bytes::contents(blobs@)) {
                Ok(refs) => r is Ok && final(self)@ == (model::Tables { refs, ..old(self)@ }),
                Err(e) => r == Err::<(), StateError>(e) && final(self)@ == (model::Tables {
                    refs: model::retain_far(old(self)@.refs, bytes::contents(blobs@)),
                    ..old(self)@
                }),
            },
    {
        let ghost start = self@;
        let ghost base = self.base();
        let ghost all = bytes::contents(blobs@);
        let mut i: usize = 0;
        while i < blobs.len()
            invariant
                self.wf(),
                self.base() == base,
                base == old(self).base(),
                start == old(self)@,
                i <= blobs@.len(),
                all == bytes::contents(blobs@),
                model::retain(start.refs, all.take(i as int)) is Ok,
                self@ == (model::Tables {
                    refs: model::retain(start.refs, all.take(i as int))->Ok_0,
                    ..start
                }),
            decreases blobs@.len() - i,
        {
            proof {
                assert(all.take(i + 1).drop_last() =~= all.take(i as int));
                assert(all.take(i + 1).last() == blobs@[i as int]@);
            }
            let count: Option<i64> = self.count(&blobs[i]);
            if let Some(n) = count {
                if n == i64::MAX {
                    proof {
                        lemma_retain_stops(start.refs, all, i + 1);
                    }
                    return Err(StateError::TooManyRefs);
                }
            }
            self.run(RowOp::Retain { blob: bytes::to_vec(blobs[i].as_slice()) });
            i = i + 1;
        }
        assert(all.take(i as int) =~= all);
        Ok(())
    }

    /// Gives back the references of the manifest under the key, where there is one.
    fn release_row(&mut self, bucket: &String, key: &String) -> (r: Result<(), StateError>)
        requires
            old(self).wf(),
        ensures
            final(self).wf(),
            final(self).base() == old(self).base(),
            match model::without_row(old(self)@, (bucket@, key@)) {
                Ok(refs) => r is Ok && final(self)@ == (model::Tables { refs, ..old(self)@ }),
                Err(e) => r == Err::<(), StateError>(e) && final(self)@ == old(self)@,
            },
    {
        let blobs = match self.tables.manifests.get(&(bucket.clone(), key.clone())) {
            None => {
                return Ok(());
            },
            Some(row) => copy_blobs(&row.blobs),
        };
        match &blobs {
            None => Err(StateError::BadManifest),
            Some(b) => {
                self.release_all(b);
                Ok(())
            },
        }
    }

    /// Writes the manifest of an object and moves the references from the one it
    /// replaces to the new one.
    fn write_row(
        &mut self,
        bucket: &String,
        key: &String,
        object_hash: &Vec<u8>,
        manifest_bytes: &Vec<u8>,
        signature: &Vec<u8>,
        blobs: &Option<Vec<Vec<u8>>>,
        created_at: u64,
    ) -> (r: Result<(), StateError>)
        requires
            old(self).wf(),
        ensures
            final(self).wf(),
            final(self).base() == old(self).base(),
            ({
                let id = (bucket@, key@);
                let row = model::manifest_row(
                    object_hash@,
                    manifest_bytes@,
                    signature@,
                    created_at,
                    *blobs,
                );
                match model::with_row(old(self)@, id, row) {
                    Ok(t) => r is Ok && final(self)@ == t,
                    Err(e) => r == Err::<(), StateError>(e) && final(self)@
                        == model::with_row_failed(old(self)@, id, row),
                }
            }),
    {
        if let Err(e) = self.release_row(bucket, key) {
            return Err(e);
        }
        match blobs {
            None => {
                return Err(StateError::BadManifest);
            },
            Some(b) => {
                if let Err(e) = self.retain_all(b) {
                    return Err(e);
                }
            },
        }
        let row = ManifestRow {
            object_hash: bytes::to_vec(object_hash.as_slice()),
            manifest: bytes::to_vec(manifest_bytes.as_slice()),
            signature: bytes::to_vec(signature.as_slice()),
            created_at,
            blobs: copy_blobs(blobs),
        };
        assert(row@ =~= model::manifest_row(
            object_hash@,
            manifest_bytes@,
            signature@,
            created_at,
            *blobs,
        ));
        self.run(RowOp::PutManifest { bucket: bucket.clone(), key: key.clone(), row });
        Ok(())
    }

    /// Applies one command. The caller commits once for the whole batch, and
    /// drops the transaction where this is an error.
    pub fn apply_command(
        &mut self,
        cmd: &IndexNodeRequest,
        log_index: u64,
        node_registry: &mut Registry,
    ) -> (r: Result<IndexNodeResponse, StateError>)
        requires
            old(self).wf(),
            old(node_registry).wf(),
        ensures
            final(self).wf(),
            final(node_registry).wf(),
            final(self).base() == old(self).base(),
            model::applied(
                model::Index { tables: old(self)@, nodes: old(node_registry)@ },
                *cmd,
                log_index,
                r,
                model::Index { tables: final(self)@, nodes: final(node_registry)@ },
            ),
        decreases cmd,
    {
        match cmd {
            IndexNodeRequest::CommitManifest {
                bucket,
                key,
                object_hash,
                manifest_bytes,
                signature,
                blobs,
                created_at,
                caller,
            } => {
                let owner = self.bucket_owner(bucket);
                if let Some(o) = &owner {
                    if !bytes::same_bytes(o.as_slice(), caller.as_slice()) {
                        return Ok(IndexNodeResponse::err("forbidden"));
                    }
                }
                if let Err(e) = self.write_row(
                    bucket,
                    key,
                    object_hash,
                    manifest_bytes,
                    signature,
                    blobs,
                    *created_at,
                ) {
                    return Err(e);
                }
                if owner.is_none() {
                    self.run(
                        RowOp::InsertBucket {
                            name: bucket.clone(),
                            created_at: *created_at,
                            owner: bytes::to_vec(caller.as_slice()),
                        },
                    );
                }
                Ok(IndexNodeResponse::ok())
            },
            IndexNodeRequest::CreateBucket { name, created_at, owner } => {
                match self.bucket_owner(name) {
                    Some(o) => {
                        if bytes::same_bytes(o.as_slice(), owner.as_slice()) {
                            Ok(IndexNodeResponse::ok())
                        } else {
                            Ok(IndexNodeResponse::err("bucket owned by another key"))
                        }
                    },
                    None => {
                        self.run(
                            RowOp::InsertBucket {
                                name: name.clone(),
                                created_at: *created_at,
                                owner: bytes::to_vec(owner.as_slice()),
                            },
                        );
                        Ok(IndexNodeResponse::ok())
                    },
                }
            },
            IndexNodeRequest::DeleteBucket { name, caller } => {
                if !self.owned_by(name, caller) {
                    return Ok(IndexNodeResponse::err("forbidden"));
                }
                let blobs = blobs_of_bucket(&self.tables.manifests, name);
                self.release_all(&blobs);
                proof {
                    model::lemma_release_rows(
                        old(self)@.refs,
                        bytes::contents(blobs@),
                        model::manifests_of(old(self)@.manifests, name@),
                    );
                }
                self.run(RowOp::DeleteBucket { name: name.clone() });
                self.run(RowOp::DeleteManifestsOf { bucket: name.clone() });
                Ok(IndexNodeResponse::ok())
            },
            IndexNodeRequest::DeleteManifest { bucket, key, caller } => {
                if !self.owned_by(bucket, caller) {
                    return Ok(IndexNodeResponse::err("forbidden"));
                }
                if !self.has_manifest(bucket, key) {
                    return Ok(IndexNodeResponse::err("object not found"));
                }
                if let Err(e) = self.release_row(bucket, key) {
                    return Err(e);
                }
                self.run(RowOp::DeleteManifest { bucket: bucket.clone(), key: key.clone() });
                Ok(IndexNodeResponse::ok())
            },
            IndexNodeRequest::SetRepairOperator { caller } => {
                if self.tables.repair_operator.is_some() {
                    if self.is_operator(caller) {
                        Ok(IndexNodeResponse::ok())
                    } else {
                        Ok(IndexNodeResponse::err("forbidden"))
                    }
                } else {
                    self.run(RowOp::SetOperator { operator: bytes::to_vec(caller.as_slice()) });
                    Ok(IndexNodeResponse::ok())
                }
            },
            IndexNodeRequest::RepairManifest {
                bucket,
                key,
                object_hash,
                manifest_bytes,
                signature,
                blobs,
                created_at,
                caller,
            } => {
                if !self.is_operator(caller) {
                    return Ok(IndexNodeResponse::err("forbidden"));
                }
                if !self.has_manifest(bucket, key) {
                    return Ok(IndexNodeResponse::err("object not found"));
                }
                if let Err(e) = self.write_row(
                    bucket,
                    key,
                    object_hash,
                    manifest_bytes,
                    signature,
                    blobs,
                    *created_at,
                ) {
                    return Err(e);
                }
                Ok(IndexNodeResponse::ok())
            },
            IndexNodeRequest::Batch(entries) => {
                let ghost start = model::Index { tables: self@, nodes: node_registry@ };
                let ghost base = self.base();
                let mut responses: Vec<IndexNodeResponse> = Vec::new();
                let mut i: usize = 0;
                while i < entries.len()
                    invariant
                        self.wf(),
                        node_registry.wf(),
                        self.base() == base,
                        base == old(self).base(),
                        start == (model::Index {
                            tables: old(self)@,
                            nodes: old(node_registry)@,
                        }),
                        i <= entries@.len(),
                        *cmd is Batch,
                        *entries == (*cmd)->Batch_0,
                        model::outcomes(start, entries@.take(i as int), log_index) matches Ok(p)
                            && p.0 == (model::Index { tables: self@, nodes: node_registry@ })
                            && p.1.len() == i,
                        responses@.len() == i,
                        forall|j: int|
                            0 <= j < i ==> (#[trigger] responses@[j]).says(
                                model::outcomes(
                                    start,
                                    entries@.take(i as int),
                                    log_index,
                                )->Ok_0.1[j],
                            ),
                    decreases entries@.len() - i,
                {
                    proof {
                        assert(entries@.take(i + 1).drop_last() =~= entries@.take(i as int));
                        assert(entries@.take(i + 1).last() == entries@[i as int]);
                        assert(decreases_to!(*cmd => *entries));
                    }
                    match self.apply_command(&entries[i], log_index, node_registry) {
                        Ok(r) => {
                            responses.push(r);
                        },
                        Err(e) => {
                            proof {
                                lemma_outcomes_stop(start, entries@, i + 1, log_index, e);
                            }
                            return Err(e);
                        },
                    }
                    i = i + 1;
                }
                assert(entries@.take(i as int) =~= entries@);
                Ok(IndexNodeResponse::batch(responses))
            },
            IndexNodeRequest::RegisterNode { node_id, capacity_bytes, addr, relay_url } => {
                node_registry.put(
                    bytes::to_vec(node_id.as_slice()),
                    NodeStats {
                        node_id: bytes::to_vec(node_id.as_slice()),
                        capacity_bytes: *capacity_bytes,
                        addr: addr.clone(),
                        relay_url: types::copy_optional(relay_url),
                        last_seen: log_index,
                        status: NodeStatus::Online,
                    },
                );
                Ok(IndexNodeResponse::ok())
            },
            IndexNodeRequest::MarkNodesOffline { node_ids } => {
                mark_offline(node_registry, node_ids);
                Ok(IndexNodeResponse::ok())
            },
        }
    }

    fn owned_by(&self, bucket: &String, caller: &Vec<u8>) -> (r: bool)
        requires
            self.wf(),
        ensures
            r == (model::owner_of(self@, bucket@) == Some(caller@)),
    {
        match self.bucket_owner(bucket) {
            Some(o) => bytes::same_bytes(o.as_slice(), caller.as_slice()),
            None => false,
        }
    }

    fn is_operator(&self, caller: &Vec<u8>) -> (r: bool)
        requires
            self.wf(),
        ensures
            r == (self@.repair_operator == Some(caller@)),
    {
        match &self.tables.repair_operator {
            Some(o) => bytes::same_bytes(o.as_slice(), caller.as_slice()),
            None => false,
        }
    }
}

proof fn lemma_retain_stops(refs: Map<Seq<u8>, i64>, blobs: Seq<Seq<u8>>, i: int)
    requires
        0 <= i <= blobs.len(),
        model::retain(refs, blobs.take(i)) is Err,
    ensures
        model::retain(refs, blobs) == model::retain(refs, blobs.take(i)),
        model::retain_far(refs, blobs) == model::retain_far(refs, blobs.take(i)),
    decreases blobs.len() - i,
{
    if i < blobs.len() {
        assert(blobs.drop_last().take(i) =~= blobs.take(i));
        lemma_retain_stops(refs, blobs.drop_last(), i);
    } else {
        assert(blobs.take(i) =~= blobs);
    }
}

proof fn lemma_outcomes_stop(
    s: model::Index,
    cmds: Seq<IndexNodeRequest>,
    i: int,
    log_index: u64,
    e: StateError,
)
    requires
        0 <= i <= cmds.len(),
        model::outcomes(s, cmds.take(i), log_index) == Err::<
            (model::Index, Seq<types::Answer>),
            StateError,
        >(e),
    ensures
        model::outcomes(s, cmds, log_index) == Err::<
            (model::Index, Seq<types::Answer>),
            StateError,
        >(e),
        model::left_behind_by_all(s, cmds, log_index) == model::left_behind_by_all(
            s,
            cmds.take(i),
            log_index,
        ),
    decreases cmds.len() - i,
{
    if i < cmds.len() {
        assert(cmds.drop_last().take(i) =~= cmds.take(i));
        lemma_outcomes_stop(s, cmds.drop_last(), i, log_index, e);
    } else {
        assert(cmds.take(i) =~= cmds);
    }
}

/// Marks some nodes of the registry as offline.
fn mark_offline(registry: &mut Registry, ids: &Vec<Vec<u8>>)
    requires
        old(registry).wf(),
    ensures
        final(registry).wf(),
        final(registry)@ == model::marked_offline(old(registry)@, bytes::contents(ids@)),
{
    let ghost start = registry@;
    let ghost all = bytes::contents(ids@);
    let mut i: usize = 0;
    assert(registry@ =~= model::marked_offline(start, all.take(0)));
    while i < ids.len()
        invariant
            registry.wf(),
            i <= ids@.len(),
            all == bytes::contents(ids@),
            registry@ == model::marked_offline(start, all.take(i as int)),
        decreases ids@.len() - i,
    {
        let found: Option<NodeStats> = match registry.get(&ids[i]) {
            Some(n) => Some(n.copied()),
            None => None,
        };
        let ghost prior = registry@;
        if let Some(n) = found {
            let mut n = n;
            n.status = NodeStatus::Offline;
            registry.put(bytes::to_vec(ids[i].as_slice()), n);
        }
        proof {
            let id = all[i as int];
            let t = all.take(i + 1);
            assert(t =~= all.take(i as int).push(id));
            assert forall|x: Seq<u8>| #[trigger] t.contains(x) <==> all.take(i as int).contains(x)
                || x == id by {
                if all.take(i as int).contains(x) {
                    let j = choose|j: int| 0 <= j < i && all.take(i as int)[j] == x;
                    assert(t[j] == x);
                }
                assert(t[i as int] == id);
            }
            assert(registry@ =~= model::marked_offline(start, t));
        }
        i = i + 1;
    }
    assert(all.take(i as int) =~= all);
}

/// The blobs that the manifests in a bucket list, one manifest after the other. One
/// that does not decode lists none.
fn blobs_of_bucket(
    manifests: &Table<(String, String), ManifestRow>,
    bucket: &String,
) -> (r: Vec<Vec<u8>>)
    requires
        manifests.wf(),
    ensures
        forall|blob: Seq<u8>| #[trigger]
            model::occurrences(bytes::contents(r@), blob) == model::live(
                model::manifests_of(manifests@, bucket@),
                blob,
            ),
{
    let mut out: Vec<Vec<u8>> = Vec::new();
    let ghost mut seen: Map<model::ObjectKey, ManifestView> = Map::empty();
    let mut i: usize = 0;
    let n: usize = manifests.len();
    proof {
        manifests.lemma_rows();
    }
    while i < n
        invariant
            manifests.wf(),
            i <= n,
            n == manifests.count(),
            seen.dom().finite(),
            forall|a: int, b: int|
                0 <= a < b < n ==> #[trigger] manifests.key_at(a) != #[trigger] manifests.key_at(b),
            forall|id: model::ObjectKey| #[trigger]
                seen.dom().contains(id) <==> id.0 == bucket@ && exists|j: int|
                    0 <= j < i && #[trigger] manifests.key_at(j) == id,
            forall|id: model::ObjectKey| #[trigger]
                seen.dom().contains(id) ==> manifests@.dom().contains(id) && seen[id]
                    == manifests@[id],
            forall|blob: Seq<u8>| #[trigger]
                model::occurrences(bytes::contents(out@), blob) == model::live(seen, blob),
        decreases n - i,
    {
        let (key, row) = manifests.row(i);
        let ghost id = key@;
        let ghost prior = seen;
        let ghost before = bytes::contents(out@);
        assert(!prior.dom().contains(id)) by {
            if prior.dom().contains(id) {
                let j = choose|j: int| 0 <= j < i && #[trigger] manifests.key_at(j) == id;
                assert(manifests.key_at(j) != manifests.key_at(i as int));
            }
        }
        if key.0.same(bucket) {
            if let Some(blobs) = &row.blobs {
                append_copies(&mut out, blobs);
            }
            proof {
                seen = prior.insert(id, row@);
                assert forall|blob: Seq<u8>| #[trigger] model::occurrences(
                    bytes::contents(out@),
                    blob,
                ) == model::live(seen, blob) by {
                    model::lemma_live_insert(prior, blob, id, row@);
                    assert(prior.remove(id) =~= prior);
                    assert(model::occurrences(before, blob) == model::live(prior, blob));
                    if let Some(blobs) = &row.blobs {
                        lemma_occurrences_add(before, bytes::contents(blobs@), blob);
                    }
                }
            }
        }
        proof {
            assert forall|x: model::ObjectKey| #[trigger] seen.dom().contains(x) <==> x.0 == bucket@
                && exists|j: int| 0 <= j < i + 1 && #[trigger] manifests.key_at(j) == x by {
                if prior.dom().contains(x) {
                    let j = choose|j: int| 0 <= j < i && #[trigger] manifests.key_at(j) == x;
                    assert(manifests.key_at(j) == x);
                }
                if x == id {
                    assert(manifests.key_at(i as int) == x);
                }
            }
        }
        i = i + 1;
    }
    assert(seen =~= model::manifests_of(manifests@, bucket@));
    out
}

/// Adds copies of some byte strings to a list.
fn append_copies(out: &mut Vec<Vec<u8>>, more: &Vec<Vec<u8>>)
    ensures
        bytes::contents(final(out)@) == bytes::contents(old(out)@) + bytes::contents(more@),
{
    let ghost start = bytes::contents(out@);
    let ghost all = bytes::contents(more@);
    let mut i: usize = 0;
    assert(start + all.take(0) =~= start);
    while i < more.len()
        invariant
            i <= more@.len(),
            all == bytes::contents(more@),
            bytes::contents(out@) == start + all.take(i as int),
        decreases more@.len() - i,
    {
        let ghost before = bytes::contents(out@);
        out.push(bytes::to_vec(more[i].as_slice()));
        i = i + 1;
        assert(bytes::contents(out@) =~= before.push(all[i - 1]));
        assert(start + all.take(i as int) =~= (start + all.take(i - 1)).push(all[i - 1]));
    }
    assert(all.take(i as int) =~= all);
}

proof fn lemma_occurrences_add(a: Seq<Seq<u8>>, b: Seq<Seq<u8>>, blob: Seq<u8>)
    ensures
        model::occurrences(a + b, blob) == model::occurrences(a, blob) + model::occurrences(b, blob),
    decreases b.len(),
{
    if b.len() == 0 {
        assert(a + b =~= a);
    } else {
        assert((a + b).drop_last() =~= a + b.drop_last());
        assert((a + b).last() == b.last());
        lemma_occurrences_add(a, b.drop_last(), blob);
    }
}

/// The rows of the manifest table that lie in other buckets.
fn others(
    manifests: &Table<(String, String), ManifestRow>,
    bucket: &String,
) -> (r: Table<(String, String), ManifestRow>)
    requires
        manifests.wf(),
    ensures
        r.wf(),
        r@ == model::without_manifests_of(manifests@, bucket@),
{
    let mut out: Table<(String, String), ManifestRow> = Table::new();
    let mut i: usize = 0;
    let n: usize = manifests.len();
    proof {
        manifests.lemma_rows();
    }
    while i < n
        invariant
            manifests.wf(),
            out.wf(),
            i <= n,
            n == manifests.count(),
            forall|id: model::ObjectKey| #[trigger]
                out@.dom().contains(id) <==> id.0 != bucket@ && exists|j: int|
                    0 <= j < i && #[trigger] manifests.key_at(j) == id,
            forall|id: model::ObjectKey| #[trigger]
                out@.dom().contains(id) ==> manifests@.dom().contains(id) && out@[id]
                    == manifests@[id],
        decreases n - i,
    {
        let (key, row) = manifests.row(i);
        let ghost prior = out@;
        if !key.0.same(bucket) {
            out.put(key.copied(), row.copied());
        }
        proof {
            assert forall|id: model::ObjectKey| #[trigger] out@.dom().contains(id) <==> id.0
                != bucket@ && exists|j: int|
                0 <= j < i + 1 && #[trigger] manifests.key_at(j) == id by {
                if prior.dom().contains(id) {
                    let j = choose|j: int| 0 <= j < i && #[trigger] manifests.key_at(j) == id;
                    assert(manifests.key_at(j) == id);
                }
                if out@.dom().contains(id) && !prior.dom().contains(id) {
                    assert(manifests.key_at(i as int) == id);
                }
            }
        }
        i = i + 1;
    }
    assert(out@ =~= model::without_manifests_of(manifests@, bucket@));
    out
}

} // verus!
