//! The store: an append-only vector file with its manifest, and a staging tier in memory.

use std::collections::{HashMap, HashSet};

use vstd::prelude::*;

use crate::compact::{dead_ratio, is_dead_ratio, live_ids};
use crate::ids::lists_set;
use crate::ivf::{wide_product, IvfIndex, IvfView, VectorMath};
use crate::manifest::{make_manifest, Manifest};
use crate::postings::PostingIndex;
use crate::state::{staged, DbView, OpView, Staged};
use crate::types::{ChunkRecord, CompactionPolicy, DbError, Point, VectorId, EMBEDDING_DIM};
use crate::words::{read_words, word_count, words_of, ByteOrder};

pub mod compaction;
pub mod delete;
pub mod insert;
pub mod open;
pub mod search;

pub use open::{opening_ops, DiskImage};
pub use search::SearchHit;

verus! {

broadcast use vstd::std_specs::hash::group_hash_axioms;

/// A change to the files of a store.
#[derive(Debug)]
pub enum DiskOp {
    /// Append to the vector file and flush it to the device.
    AppendVectors(Vec<u8>),
    /// Put new contents in place of the vector file, all at once.
    ReplaceVectors(Vec<u8>),
    /// Put a new manifest in place of the old one, all at once.
    WriteManifest(Manifest),
    /// Put a new centroid file in place of the old one, all at once.
    WriteCentroids(Vec<u8>),
    /// Remove the centroid file where there is one.
    RemoveCentroids,
}

impl View for DiskOp {
    type V = OpView;

    open spec fn view(&self) -> OpView {
        match self {
            DiskOp::AppendVectors(bytes) => OpView::AppendVectors(bytes@),
            DiskOp::ReplaceVectors(bytes) => OpView::ReplaceVectors(bytes@),
            DiskOp::WriteManifest(manifest) => OpView::WriteManifest(manifest@),
            DiskOp::WriteCentroids(bytes) => OpView::WriteCentroids(bytes@),
            DiskOp::RemoveCentroids => OpView::RemoveCentroids,
        }
    }
}

impl DiskOp {
    /// A manifest that is written can be read again, and names every id once.
    pub open spec fn sound(self) -> bool {
        self matches DiskOp::WriteManifest(manifest) ==> manifest.canonical()
    }
}

/// What a list of changes does.
pub open spec fn op_views(ops: Seq<DiskOp>) -> Seq<OpView> {
    Seq::new(ops.len(), |i: int| ops[i]@)
}

/// A row of the staging tier.
#[derive(Debug)]
struct StagedRow {
    id: VectorId,
    vector: Vec<u32>,
    record: ChunkRecord,
}

spec fn staged_views(rows: Seq<StagedRow>) -> Seq<Staged> {
    Seq::new(
        rows.len(),
        |i: int| Staged { id: rows[i].id, row: rows[i].vector@, record: rows[i].record },
    )
}

spec fn index_view(index: Option<IvfIndex>) -> Option<IvfView> {
    match index {
        Some(index) => Some(index@),
        None => None,
    }
}

/// A two-tier store of fixed-width vectors with their metadata.
///
/// The store works on the contents of its files in memory. Every change to the files is queued in
/// the order in which it has to be made; see [`Rek0nDb::take_ops`].
pub struct Rek0nDb<M: VectorMath> {
    math: M,
    dim: usize,
    order: ByteOrder,
    vectors: Vec<u8>,
    next_id: VectorId,
    records: HashMap<VectorId, ChunkRecord>,
    id_offsets: HashMap<VectorId, u64>,
    tombstones: HashSet<VectorId>,
    postings: PostingIndex,
    ivf: Option<IvfIndex>,
    compaction_policy: CompactionPolicy,
    staging: Vec<StagedRow>,
    read_only: bool,
    pending: Vec<DiskOp>,
}

impl<M: VectorMath> View for Rek0nDb<M> {
    type V = DbView;

    closed spec fn view(&self) -> DbView {
        DbView {
            dim: self.dim,
            order: self.order,
            bytes: self.vectors@,
            next_id: self.next_id,
            records: self.records@,
            offsets: self.id_offsets@,
            tombstones: self.tombstones@,
            postings: self.postings@,
            ivf: index_view(self.ivf),
            policy: self.compaction_policy,
            staging: staged_views(self.staging@),
            read_only: self.read_only,
            ops: op_views(self.pending@),
        }
    }
}

impl<M: VectorMath> Rek0nDb<M> {
    /// The arithmetic that the store was opened with.
    pub closed spec fn math(self) -> M {
        self.math
    }

    /// The parts behind the view are in order.
    closed spec fn parts_ok(self) -> bool {
        self.postings.wf() && forall|i: int|
            0 <= i < self.pending@.len() ==> (#[trigger] self.pending@[i]).sound()
    }

    /// What holds of every open store.
    pub closed spec fn inv(self) -> bool {
        self.parts_ok() && self@.inv()
    }

    /// The state of an open store is in order, and finite.
    pub proof fn law_open_store_is_in_order(self)
        requires
            self.inv(),
        ensures
            self@.inv(),
            self@.records.dom().finite(),
    {
    }

    pub fn is_read_only(&self) -> (r: bool)
        ensures
            r == self@.read_only,
    {
        self.read_only
    }

    /// Refuses a change of a store that is open for reading.
    pub fn ensure_writable(&self) -> (r: Result<(), DbError>)
        ensures
            r == (if self@.read_only {
                Err(DbError::ReadOnly)
            } else {
                Ok(())
            }),
    {
        if self.read_only {
            return Err(DbError::ReadOnly);
        }
        Ok(())
    }

    /// The same store for vectors of another width, which only an empty store can take.
    pub fn with_dim(self, dim: usize) -> (r: Result<Self, DbError>)
        requires
            self.inv(),
        ensures
            match r {
                Ok(db) => {
                    &&& dim != 0
                    &&& dim == self@.dim || self@.row_count() == 0
                    &&& db.inv()
                    &&& db.math() == self.math()
                    &&& db@ == DbView { dim, ..self@ }
                },
                Err(e) => if dim == 0 {
                    e == (DbError::InvalidDimension { expected: EMBEDDING_DIM, got: 0 })
                } else {
                    e == DbError::DimensionChangeOnNonEmptyDb && dim != self@.dim
                        && self@.row_count() > 0
                },
            },
    {
        if dim == 0 {
            return Err(DbError::InvalidDimension { expected: EMBEDDING_DIM, got: 0 });
        }
        if dim != self.dim && !self.is_empty() {
            return Err(DbError::DimensionChangeOnNonEmptyDb);
        }
        let mut db = self;
        db.dim = dim;
        Ok(db)
    }

    /// The same store with another compaction policy.
    pub fn with_compaction_policy(self, policy: CompactionPolicy) -> (r: Result<Self, DbError>)
        requires
            self.inv(),
        ensures
            match r {
                Ok(db) => policy.valid() && db.inv() && db.math() == self.math() && db@ == (DbView {
                    policy,
                    ..self@
                }),
                Err(e) => !policy.valid() && e == (DbError::InvalidCompactionPolicy {
                    threshold: policy.dead_ratio_threshold,
                }),
            },
    {
        match policy.validate() {
            Ok(policy) => {
                let mut db = self;
                db.compaction_policy = policy;
                Ok(db)
            },
            Err(e) => Err(e),
        }
    }

    pub fn dim(&self) -> (r: usize)
        ensures
            r == self@.dim,
    {
        self.dim
    }

    pub fn compaction_policy(&self) -> (r: CompactionPolicy)
        ensures
            r == self@.policy,
    {
        self.compaction_policy
    }

    pub fn tombstone_count(&self) -> (r: usize)
        ensures
            r == self@.tombstones.len(),
    {
        self.tombstones.len()
    }

    /// The share of allocated ids that carry a tombstone.
    pub fn dead_ratio(&self) -> (r: u32)
        ensures
            is_dead_ratio(
                self.math(),
                self@.tombstones.len(),
                self@.next_id as usize,
                r,
            ),
    {
        dead_ratio(&self.math, &self.tombstones, self.next_id as usize)
    }

    /// Number of rows of both tiers.
    pub fn len(&self) -> (r: usize)
        requires
            self.inv(),
        ensures
            r == self@.row_count(),
    {
        let live = live_ids(&self.records, &self.tombstones);
        proof {
            lemma_listed_len(live@, self@.live());
        }
        word_count(live.as_slice()) + self.staging.len()
    }

    pub fn is_empty(&self) -> (r: bool)
        requires
            self.inv(),
        ensures
            r == (self@.row_count() == 0),
    {
        self.len() == 0
    }

    /// Number of persistent rows that carry no tombstone.
    pub fn live_persistent_count(&self) -> (r: usize)
        ensures
            r == self@.live().len(),
    {
        let live = self.live_persistent_ids();
        proof {
            lemma_listed_len(live@, self@.live());
        }
        live.len()
    }

    pub fn staging_count(&self) -> (r: usize)
        ensures
            r == self@.staging.len(),
    {
        self.staging.len()
    }

    pub fn has_ivf_index(&self) -> (r: bool)
        ensures
            r == self@.ivf is Some,
    {
        self.ivf.is_some()
    }

    /// Whether a bucketed index, where there is one, has a centroid for each bucket.
    pub fn index_covers(&self) -> (r: bool)
        ensures
            r == self@.index_covers(),
    {
        match &self.ivf {
            Some(index) => wide_product(index.num_buckets, self.dim)
                <= index.centroids.len() as u128,
            None => true,
        }
    }

    /// Whether a bucketed index, where there is one, has a bucket and a centroid for each bucket.
    pub fn index_usable(&self) -> (r: bool)
        ensures
            r == self@.index_usable(),
    {
        self.index_covers() && match &self.ivf {
            Some(index) => index.num_buckets > 0,
            None => true,
        }
    }

    /// The changes to the files that have been decided since the last call, in the order in which
    /// they have to be made.
    pub fn take_ops(&mut self) -> (r: Vec<DiskOp>)
        requires
            old(self).inv(),
        ensures
            final(self).inv(),
            final(self).math() == old(self).math(),
            op_views(r@) == old(self)@.ops,
            forall|i: int| 0 <= i < r@.len() ==> (#[trigger] r@[i]).sound(),
            final(self)@ == (DbView { ops: Seq::empty(), ..old(self)@ }),
    {
        let mut ops: Vec<DiskOp> = Vec::new();
        ops.append(&mut self.pending);
        assert(self@ =~= (DbView { ops: Seq::empty(), ..old(self)@ }));
        ops
    }

    fn push_op(&mut self, op: DiskOp)
        requires
            old(self).parts_ok(),
            op.sound(),
        ensures
            final(self).parts_ok(),
            final(self).math() == old(self).math(),
            final(self)@ == old(self)@.with_op(op@),
    {
        self.pending.push(op);
        assert(op_views(self.pending@) =~= op_views(old(self).pending@).push(op@));
    }

    /// Queues a manifest of the present state.
    fn persist_manifest(&mut self)
        requires
            old(self).parts_ok(),
        ensures
            final(self).parts_ok(),
            final(self).math() == old(self).math(),
            final(self)@ == old(self)@.recorded(),
    {
        let manifest = make_manifest(
            self.dim,
            self.next_id,
            self.compaction_policy,
            &self.records,
            &self.id_offsets,
            &self.tombstones,
            &self.postings,
            &self.ivf,
        );
        self.push_op(DiskOp::WriteManifest(manifest));
    }

    /// Checks that the vector file holds whole words.
    fn ensure_aligned(&self) -> (r: Result<(), DbError>)
        ensures
            r == (if self@.aligned() {
                Ok(())
            } else {
                Err(DbError::InvalidVectorBytes { len: self@.bytes.len() as usize })
            }),
    {
        let len: usize = self.vectors.len();
        if len % 4 != 0 {
            return Err(DbError::InvalidVectorBytes { len });
        }
        Ok(())
    }

    /// The words of the vector file.
    fn persistent_vectors(&self) -> (r: Result<Vec<u32>, DbError>)
        ensures
            match r {
                Ok(words) => self@.aligned() && words@ == self@.words(),
                Err(e) => !self@.aligned() && e == (DbError::InvalidVectorBytes {
                    len: self@.bytes.len() as usize,
                }),
            },
    {
        if let Err(e) = self.ensure_aligned() {
            return Err(e);
        }
        let len: usize = self.vectors.len();
        let words = read_words(self.order, self.vectors.as_slice(), 0, len / 4);
        assert(words_of(self.order, self.vectors@).subrange(0, len as int / 4) =~= words_of(self.order, self.vectors@));
        Ok(words)
    }

    fn is_live(&self, id: VectorId) -> (r: bool)
        ensures
            r == !self@.tombstones.contains(id),
    {
        !self.tombstones.contains(&id)
    }

    fn live_persistent_ids(&self) -> (r: Vec<VectorId>)
        ensures
            lists_set(r@, self@.live()),
    {
        live_ids(&self.records, &self.tombstones)
    }

    /// The place of an id in the staging tier.
    fn staging_index(&self, id: VectorId) -> (r: Option<usize>)
        requires
            self@.staging_valid(),
        ensures
            match r {
                Some(i) => i < self.staging@.len() && staged(self@.staging, id) == Some(
                    self@.staging[i as int],
                ) && self@.staging[i as int].id == id,
                None => staged(self@.staging, id) is None,
            },
    {
        let mut low: usize = 0;
        let mut high: usize = self.staging.len();
        while low < high
            invariant
                low <= high <= self.staging@.len(),
                self@.staging_valid(),
                forall|j: int| 0 <= j < low ==> (#[trigger] self@.staging[j]).id < id,
                forall|j: int|
                    high <= j < self.staging@.len() ==> (#[trigger] self@.staging[j]).id > id,
            decreases high - low,
        {
            let middle: usize = low + (high - low) / 2;
            let found: VectorId = self.staging[middle].id;
            assert(self@.staging[middle as int].id == found);
            if found == id {
                proof {
                    lemma_staged_at(self@.staging, id, middle as int);
                }
                return Some(middle);
            } else if found < id {
                low = middle + 1;
            } else {
                high = middle;
            }
        }
        proof {
            lemma_not_staged(self@.staging, id);
        }
        None
    }

    /// The persistent row of a live id.
    fn persistent_vector_at(&self, id: VectorId) -> (r: Option<Vec<u32>>)
        ensures
            match r {
                Some(row) => !self@.tombstones.contains(id) && self@.row(id) == Some(row@),
                None => self@.tombstones.contains(id) || self@.row(id) is None,
            },
    {
        if !self.is_live(id) {
            return None;
        }
        let len: usize = self.vectors.len();
        if len % 4 != 0 {
            return None;
        }
        let total: usize = len / 4;
        match self.id_offsets.get(&id) {
            None => None,
            Some(byte_offset) => {
                let start: u64 = *byte_offset / 4;
                if self.dim <= total && start <= (total - self.dim) as u64 {
                    Some(read_words(self.order, self.vectors.as_slice(), start as usize, self.dim))
                } else {
                    None
                }
            },
        }
    }

    fn record_for_id(&self, id: VectorId) -> (r: Option<&ChunkRecord>)
        requires
            self@.staging_valid(),
        ensures
            match r {
                Some(record) => self@.record_for(id) == Some(*record),
                None => self@.record_for(id) is None,
            },
    {
        match self.staging_index(id) {
            Some(i) => Some(&self.staging[i].record),
            None => self.records.get(&id),
        }
    }

    /// Fetches a live row and its record.
    pub fn get(&self, id: VectorId) -> (r: Result<Point, DbError>)
        requires
            self.inv(),
        ensures
            match r {
                Ok(point) => point.id == id && self@.fetched(id) == Ok::<
                    (Seq<u32>, ChunkRecord),
                    DbError,
                >((point.vector@, point.record)),
                Err(e) => self@.fetched(id) == Err::<(Seq<u32>, ChunkRecord), DbError>(e),
            },
    {
        if let Some(i) = self.staging_index(id) {
            let vector = self.staging[i].vector.clone();
            assert(vector@ =~= self@.staging[i as int].row);
            return Ok(Point { id, vector, record: self.staging[i].record.clone() });
        }
        let record = match self.records.get(&id) {
            Some(record) => record,
            None => {
                return Err(DbError::MissingMetadata { id });
            },
        };
        if !self.is_live(id) {
            return Err(DbError::MissingMetadata { id });
        }
        match self.persistent_vector_at(id) {
            Some(vector) => Ok(Point { id, vector, record: record.clone() }),
            None => Err(DbError::MissingOffset { id }),
        }
    }
}

pub(crate) proof fn lemma_listed_len(ids: Seq<VectorId>, set: Set<VectorId>)
    requires
        lists_set(ids, set),
    ensures
        ids.len() == set.len(),
{
    ids.unique_seq_to_set();
    assert(ids.to_set() =~= set) by {
        assert forall|id: VectorId| ids.to_set().contains(id) <==> set.contains(id) by {
            assert(ids.to_set().contains(id) <==> ids.contains(id));
        }
    }
}

/// The staged row of an id that stands at `i`, while ids are staged in ascending order.
pub(crate) proof fn lemma_staged_at(staging: Seq<Staged>, id: VectorId, i: int)
    requires
        0 <= i < staging.len(),
        staging[i].id == id,
        forall|a: int, b: int|
            0 <= a < b < staging.len() ==> (#[trigger] staging[a]).id < (#[trigger] staging[b]).id,
    ensures
        staged(staging, id) == Some(staging[i]),
    decreases staging.len(),
{
    if i < staging.len() - 1 {
        let fewer = staging.drop_last();
        assert(staging[i].id < staging[staging.len() - 1].id);
        assert forall|a: int, b: int| 0 <= a < b < fewer.len() implies (#[trigger] fewer[a]).id < (
        #[trigger] fewer[b]).id by {
            assert(staging[a].id < staging[b].id);
        }
        lemma_staged_at(fewer, id, i);
    }
}

pub(crate) proof fn lemma_not_staged(staging: Seq<Staged>, id: VectorId)
    requires
        forall|i: int| 0 <= i < staging.len() ==> (#[trigger] staging[i]).id != id,
    ensures
        staged(staging, id) is None,
    decreases staging.len(),
{
    if staging.len() > 0 {
        assert(staging[staging.len() - 1].id != id);
        assert forall|i: int| 0 <= i < staging.drop_last().len() implies (
        #[trigger] staging.drop_last()[i]).id != id by {
            assert(staging[i].id != id);
        }
        lemma_not_staged(staging.drop_last(), id);
    }
}

} // verus!
