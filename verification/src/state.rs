//! The abstract state of a store and the changes that its operations make to it.

use vstd::prelude::*;
use vstd::utf8::encode_utf8;

use crate::bits::spec_ge;
use crate::compact::{compacted, is_dead_ratio};
use crate::ids::lists_set;
use crate::ivf::{built, nearest_in, row_of, IvfView, VectorMath};
use crate::manifest::{buckets_of, row_fits, rows_distinct, Persisted};
use crate::postings::{list_of, listed, Lists, PostingsView};
use crate::types::{
    ChunkRecord, CompactionPolicy, CompactionStats, DbError, VectorId, DEFAULT_IVF_BUCKETS,
    DEFAULT_IVF_PROBE, MAX_RECORD_TEXT_BYTES, MAX_STAGING_VECTORS, MAX_VECTORS_BYTES,
};
use crate::words::{bytes_of, words_of, ByteOrder};

verus! {

/// A row of the staging tier.
pub struct Staged {
    pub id: VectorId,
    pub row: Seq<u32>,
    pub record: ChunkRecord,
}

/// A change to the files of a store.
pub enum OpView {
    /// Append to the vector file.
    AppendVectors(Seq<u8>),
    /// Put new contents in place of the vector file.
    ReplaceVectors(Seq<u8>),
    /// Put a new manifest in place.
    WriteManifest(Persisted),
    /// Put a new centroid file in place.
    WriteCentroids(Seq<u8>),
    /// Remove the centroid file.
    RemoveCentroids,
}

/// The state of a store: what it holds in memory, and the changes to its files that have been
/// decided and not yet handed out, in their order.
#[verifier::ext_equal]
pub struct DbView {
    pub dim: usize,
    pub order: ByteOrder,
    pub bytes: Seq<u8>,
    pub next_id: VectorId,
    pub records: Map<VectorId, ChunkRecord>,
    pub offsets: Map<VectorId, u64>,
    pub tombstones: Set<VectorId>,
    pub postings: PostingsView,
    pub ivf: Option<IvfView>,
    pub policy: CompactionPolicy,
    pub staging: Seq<Staged>,
    pub read_only: bool,
    pub ops: Seq<OpView>,
}

/// The staged row of an id.
pub open spec fn staged(staging: Seq<Staged>, id: VectorId) -> Option<Staged>
    decreases staging.len(),
{
    if staging.len() == 0 {
        None
    } else if staging.last().id == id {
        Some(staging.last())
    } else {
        staged(staging.drop_last(), id)
    }
}

/// The staged rows of all other files, in order.
pub open spec fn of_other_files(staging: Seq<Staged>, path: Seq<char>) -> Seq<Staged>
    decreases staging.len(),
{
    if staging.len() == 0 {
        Seq::empty()
    } else {
        let rest = of_other_files(staging.drop_last(), path);
        if staging.last().record.file_path@ == path {
            rest
        } else {
            rest.push(staging.last())
        }
    }
}

/// The length of the text of a record, in bytes.
pub open spec fn text_len(record: ChunkRecord) -> usize {
    encode_utf8(record.text@).len() as usize
}

/// A length as an error reports it.
pub open spec fn capped(len: int) -> u64 {
    if len > u64::MAX {
        u64::MAX
    } else {
        len as u64
    }
}

impl DbView {
    /// The persistent rows that carry no tombstone.
    pub open spec fn live(self) -> Set<VectorId> {
        self.records.dom().difference(self.tombstones)
    }

    /// The vector file holds whole words.
    pub open spec fn aligned(self) -> bool {
        self.bytes.len() % 4 == 0
    }

    pub open spec fn words(self) -> Seq<u32> {
        words_of(self.order, self.bytes)
    }

    /// The persistent row of an id.
    pub open spec fn row(self, id: VectorId) -> Option<Seq<u32>> {
        if self.aligned() {
            row_of(self.words(), self.dim as nat, self.offsets, id)
        } else {
            None
        }
    }

    pub open spec fn staging_valid(self) -> bool {
        &&& self.staging.len() <= MAX_STAGING_VECTORS
        &&& forall|i: int|
            0 <= i < self.staging.len() ==> (#[trigger] self.staging[i]).row.len() == self.dim
                && self.staging[i].id < self.next_id
        &&& forall|i: int, j: int|
            0 <= i < j < self.staging.len() ==> (#[trigger] self.staging[i]).id < (
            #[trigger] self.staging[j]).id
    }

    /// What holds of every open store.
    pub open spec fn inv(self) -> bool {
        &&& self.dim > 0
        &&& self.records.dom().finite()
        &&& self.records.dom() == self.offsets.dom()
        &&& self.tombstones.subset_of(self.records.dom())
        &&& forall|id: VectorId|
            self.live().contains(id) ==> #[trigger] row_fits(
                self.dim as nat,
                self.offsets,
                self.bytes.len(),
                id,
            )
        &&& self.policy.valid()
        &&& self.staging_valid()
    }

    /// A bucketed index, where there is one, has a centroid for each bucket.
    pub open spec fn index_covers(self) -> bool {
        self.ivf matches Some(index) ==> index.num_buckets * self.dim <= index.centroids.len()
    }

    /// A bucketed index, where there is one, has a bucket and a centroid for each bucket.
    pub open spec fn index_usable(self) -> bool {
        self.index_covers() && (self.ivf matches Some(index) ==> index.num_buckets > 0)
    }

    /// What a manifest says of this state.
    pub open spec fn persisted(self) -> Persisted {
        Persisted {
            dim: self.dim,
            next_id: self.next_id,
            policy: self.policy,
            records: self.records,
            offsets: self.offsets,
            tombstones: self.tombstones,
            postings: self.postings,
            ivf: buckets_of(self.ivf),
        }
    }

    pub open spec fn with_op(self, op: OpView) -> DbView {
        DbView { ops: self.ops.push(op), ..self }
    }

    /// The manifest is written.
    pub open spec fn recorded(self) -> DbView {
        self.with_op(OpView::WriteManifest(self.persisted()))
    }

    /// Number of rows of both tiers.
    pub open spec fn row_count(self) -> nat {
        self.live().len() + self.staging.len()
    }

    /// What an id stands for.
    pub open spec fn fetched(self, id: VectorId) -> Result<(Seq<u32>, ChunkRecord), DbError> {
        match staged(self.staging, id) {
            Some(s) => Ok((s.row, s.record)),
            None => if !self.live().contains(id) {
                Err(DbError::MissingMetadata { id })
            } else {
                match self.row(id) {
                    Some(row) => Ok((row, self.records[id])),
                    None => Err(DbError::MissingOffset { id }),
                }
            },
        }
    }

    /// The record of an id, a staged one first, whether it carries a tombstone or not.
    pub open spec fn record_for(self, id: VectorId) -> Option<ChunkRecord> {
        match staged(self.staging, id) {
            Some(s) => Some(s.record),
            None => if self.records.contains_key(id) {
                Some(self.records[id])
            } else {
                None
            },
        }
    }

    /// Why a row is refused, whatever its tier.
    pub open spec fn refusal(self, width: nat, record: ChunkRecord) -> Option<DbError> {
        if self.read_only {
            Some(DbError::ReadOnly)
        } else if width != self.dim {
            Some(DbError::InvalidDimension { expected: self.dim, got: width as usize })
        } else if text_len(record) > MAX_RECORD_TEXT_BYTES {
            Some(
                DbError::RecordTextTooLarge { len: text_len(record), max: MAX_RECORD_TEXT_BYTES },
            )
        } else {
            None
        }
    }

    /// Why the staging tier refuses a row.
    pub open spec fn staging_refusal(self, width: nat, record: ChunkRecord) -> Option<DbError> {
        match self.refusal(width, record) {
            Some(e) => Some(e),
            None => if self.staging.len() >= MAX_STAGING_VECTORS {
                Some(
                    DbError::StagingCapacityExceeded {
                        count: (self.staging.len() + 1) as usize,
                        max: MAX_STAGING_VECTORS,
                    },
                )
            } else if self.next_id == VectorId::MAX {
                Some(DbError::IdExhausted)
            } else {
                None
            },
        }
    }

    /// Why `more` bytes do not fit into the vector file.
    pub open spec fn capacity_refusal(self, more: int) -> Option<DbError> {
        if self.bytes.len() + more > MAX_VECTORS_BYTES {
            Some(
                DbError::VectorsFileTooLarge {
                    len: capped(self.bytes.len() + more),
                    max: MAX_VECTORS_BYTES,
                },
            )
        } else {
            None
        }
    }

    /// Why the persistent tier refuses a row.
    pub open spec fn persistent_refusal(self, width: nat, record: ChunkRecord) -> Option<DbError> {
        match self.refusal(width, record) {
            Some(e) => Some(e),
            None => match self.capacity_refusal(4 * width as int) {
                Some(e) => Some(e),
                None => if self.next_id == VectorId::MAX {
                    Some(DbError::IdExhausted)
                } else {
                    None
                },
            },
        }
    }

    /// A row joins the staging tier under the next id.
    pub open spec fn with_staged(self, row: Seq<u32>, record: ChunkRecord) -> DbView {
        DbView {
            staging: self.staging.push(Staged { id: self.next_id, row, record }),
            next_id: (self.next_id + 1) as VectorId,
            ..self
        }
    }

    /// A new store, for what is in memory.
    pub open spec fn fresh(self) -> DbView {
        let first = Persisted::initial();
        DbView {
            dim: first.dim,
            bytes: Seq::empty(),
            next_id: first.next_id,
            records: first.records,
            offsets: first.offsets,
            tombstones: first.tombstones,
            postings: first.postings,
            ivf: None,
            policy: first.policy,
            staging: Seq::empty(),
            ..self
        }
    }

    /// The id carries a tombstone: it leaves the posting lists and the bucketed index.
    pub open spec fn with_tombstone(self, id: VectorId) -> DbView {
        DbView {
            tombstones: self.tombstones.insert(id),
            postings: self.postings.remove(id, self.records[id]),
            ivf: match self.ivf {
                Some(index) => Some(
                    IvfView { assignments: index.assignments.remove(id), ..index },
                ),
                None => None,
            },
            ..self
        }
    }
}

/// How the bucketed index follows a new row: the row goes to the nearest bucket.
pub open spec fn bucket_added<M: VectorMath>(
    math: M,
    dim: nat,
    id: VectorId,
    row: Seq<u32>,
    before: Option<IvfView>,
    after: Option<IvfView>,
) -> bool {
    match (before, after) {
        (None, None) => true,
        (Some(old_index), Some(new_index)) => {
            &&& nearest_in(math, row, old_index, dim, new_index.assignments[id])
            &&& new_index == IvfView {
                assignments: old_index.assignments.insert(id, new_index.assignments[id]),
                ..old_index
            }
        },
        _ => false,
    }
}

/// A row joins the persistent tier: its bytes go to the end of the vector file.
pub open spec fn appended<M: VectorMath>(
    math: M,
    v: DbView,
    id: VectorId,
    row: Seq<u32>,
    record: ChunkRecord,
    w: DbView,
) -> bool {
    &&& bucket_added(math, v.dim as nat, id, row, v.ivf, w.ivf)
    &&& w == DbView {
        bytes: v.bytes + bytes_of(v.order, row),
        offsets: v.offsets.insert(id, v.bytes.len() as u64),
        records: v.records.insert(id, record),
        postings: v.postings.insert(id, record),
        ivf: w.ivf,
        ..v
    }
}

/// A row joins the persistent tier under the next id, its manifest not yet written.
pub open spec fn inserted<M: VectorMath>(
    math: M,
    v: DbView,
    row: Seq<u32>,
    record: ChunkRecord,
    w: DbView,
) -> bool {
    appended(
        math,
        DbView {
            next_id: (v.next_id + 1) as VectorId,
            ops: v.ops.push(OpView::AppendVectors(bytes_of(v.order, row))),
            ..v
        },
        v.next_id,
        row,
        record,
        w,
    )
}

/// A row is added to the persistent tier, or refused.
pub open spec fn insert_outcome<M: VectorMath>(
    math: M,
    v: DbView,
    row: Seq<u32>,
    record: ChunkRecord,
    w: DbView,
    r: Result<VectorId, DbError>,
) -> bool {
    match v.persistent_refusal(row.len(), record) {
        Some(e) => r == Err::<VectorId, DbError>(e) && w == v,
        None => r == Ok::<VectorId, DbError>(v.next_id) && exists|m: DbView|
            #[trigger] inserted(math, v, row, record, m) && w == m.recorded(),
    }
}

/// A row is added to the staging tier, or refused.
pub open spec fn stage_outcome(
    v: DbView,
    row: Seq<u32>,
    record: ChunkRecord,
    w: DbView,
    r: Result<VectorId, DbError>,
) -> bool {
    match v.staging_refusal(row.len(), record) {
        Some(e) => r == Err::<VectorId, DbError>(e) && w == v,
        None => r == Ok::<VectorId, DbError>(v.next_id) && w == v.with_staged(row, record),
    }
}

/// The staging tier is emptied.
pub open spec fn clear_outcome(v: DbView, w: DbView, r: Result<(), DbError>) -> bool {
    if v.read_only {
        r == Err::<(), DbError>(DbError::ReadOnly) && w == v
    } else {
        r == Ok::<(), DbError>(()) && w == (DbView { staging: Seq::empty(), ..v })
    }
}

/// The store becomes that of a new directory.
pub open spec fn reset_outcome(v: DbView, w: DbView, r: Result<(), DbError>) -> bool {
    if v.read_only {
        r == Err::<(), DbError>(DbError::ReadOnly) && w == v
    } else {
        r == Ok::<(), DbError>(()) && w == v.fresh().with_op(
            OpView::ReplaceVectors(Seq::empty()),
        ).recorded().with_op(OpView::RemoveCentroids)
    }
}

/// Staged rows join the persistent tier one after the other.
pub open spec fn rows_appended<M: VectorMath>(
    math: M,
    v: DbView,
    rows: Seq<Staged>,
    w: DbView,
) -> bool
    decreases rows.len(),
{
    if rows.len() == 0 {
        w == v
    } else {
        exists|m: DbView|
            rows_appended(math, v, rows.drop_last(), m) && #[trigger] appended(
                math,
                m,
                rows.last().id,
                rows.last().row,
                rows.last().record,
                w,
            )
    }
}

/// All staged rows have moved to the persistent tier, and the manifest says so.
pub open spec fn flushed<M: VectorMath>(math: M, v: DbView, w: DbView) -> bool {
    exists|m: DbView| #[trigger]
        rows_appended(math, v, v.staging, m) && w == (DbView {
            staging: Seq::empty(),
            ops: v.ops.push(OpView::AppendVectors(m.bytes.skip(v.bytes.len() as int))),
            ..m
        }).recorded()
}

/// Why a flush is refused.
pub open spec fn flush_refusal(v: DbView) -> Option<DbError> {
    if v.read_only {
        Some(DbError::ReadOnly)
    } else if v.staging.len() == 0 {
        None
    } else {
        v.capacity_refusal(v.staging.len() * v.dim * 4)
    }
}

/// The vector file holds the live rows only, and the manifest says so.
pub open spec fn compaction_step(v: DbView, w: DbView, stats: CompactionStats) -> bool {
    exists|words: Seq<u32>|
        {
            &&& #[trigger] compacted(
                v.dim as nat,
                v.live(),
                v.offsets,
                v.words(),
                w.offsets,
                words,
            )
            &&& w == (DbView {
                bytes: bytes_of(v.order, words),
                offsets: w.offsets,
                records: v.records.remove_keys(v.tombstones),
                tombstones: Set::empty(),
                ..v
            }).with_op(OpView::ReplaceVectors(bytes_of(v.order, words))).recorded()
            &&& stats.vectors_before == v.records.len()
            &&& stats.vectors_after == v.live().len()
            &&& stats.bytes_reclaimed == if words.len() <= v.words().len() {
                4 * (v.words().len() - words.len())
            } else {
                0
            }
        }
}

/// The bucketed index is built anew over the live rows, or given up where they are too few.
pub open spec fn rebuilt<M: VectorMath>(
    math: M,
    v: DbView,
    num_buckets: usize,
    probe_buckets: usize,
    w: DbView,
    r: Result<(), DbError>,
) -> bool {
    if v.read_only {
        r == Err::<(), DbError>(DbError::ReadOnly) && w == v
    } else if v.live().len() < num_buckets {
        r == Ok::<(), DbError>(()) && w == (DbView { ivf: None, ..v }).with_op(
            OpView::RemoveCentroids,
        ).recorded()
    } else if !v.aligned() {
        r == Err::<(), DbError>(DbError::InvalidVectorBytes { len: v.bytes.len() as usize }) && w
            == v
    } else if num_buckets == 0 {
        r == Err::<(), DbError>(DbError::InvalidIvfBucketCount) && w == v
    } else {
        r == Ok::<(), DbError>(()) && index_built(math, v, num_buckets, probe_buckets, w)
    }
}

/// A new index over the live rows is in place, and its files are written.
pub open spec fn index_built<M: VectorMath>(
    math: M,
    v: DbView,
    num_buckets: usize,
    probe_buckets: usize,
    w: DbView,
) -> bool {
    exists|ids: Seq<VectorId>, index: IvfView|
        #![trigger lists_set(ids, v.live()), built(math, num_buckets, probe_buckets, v.dim as nat, v.words(), v.offsets, ids, index)]
        {
            &&& lists_set(ids, v.live())
            &&& built(
                math,
                num_buckets,
                probe_buckets,
                v.dim as nat,
                v.words(),
                v.offsets,
                ids,
                index,
            )
            &&& w == (DbView { ivf: Some(index), ..v }).with_op(
                OpView::WriteCentroids(bytes_of(v.order, index.centroids)),
            ).recorded()
        }
}

/// The bucket settings that a compaction keeps.
pub open spec fn bucket_settings(v: DbView) -> (usize, usize) {
    match v.ivf {
        Some(index) => (index.num_buckets, index.probe_buckets),
        None => (DEFAULT_IVF_BUCKETS, DEFAULT_IVF_PROBE),
    }
}

/// A compaction: the manifest is written before the index is built again, with the bucket
/// settings there were.
pub open spec fn compact_outcome<M: VectorMath>(
    math: M,
    v: DbView,
    w: DbView,
    r: Result<CompactionStats, DbError>,
) -> bool {
    if v.read_only {
        r == Err::<CompactionStats, DbError>(DbError::ReadOnly) && w == v
    } else if !v.aligned() {
        r == Err::<CompactionStats, DbError>(
            DbError::InvalidVectorBytes { len: v.bytes.len() as usize },
        ) && w == v
    } else {
        exists|m: DbView, stats: CompactionStats, done: Result<(), DbError>|
            #![trigger compaction_step(v, m, stats), rebuilt(math, m, bucket_settings(v).0, bucket_settings(v).1, w, done)]
            {
                &&& compaction_step(v, m, stats)
                &&& rebuilt(math, m, bucket_settings(v).0, bucket_settings(v).1, w, done)
                &&& r == match done {
                    Ok(()) => Ok(stats),
                    Err(e) => Err(e),
                }
            }
    }
}

/// With this share of dead rows the store is due for compaction.
pub open spec fn compaction_due(ratio: u32, policy: CompactionPolicy, dead: nat) -> bool {
    spec_ge(ratio, policy.dead_ratio_threshold) && dead > 0
}

/// A compaction where one is due.
pub open spec fn maybe_compacted<M: VectorMath>(
    math: M,
    v: DbView,
    w: DbView,
    r: Result<Option<CompactionStats>, DbError>,
) -> bool {
    exists|ratio: u32|
        #[trigger] is_dead_ratio(math, v.tombstones.len(), v.next_id as usize, ratio)
            && maybe_compacted_at(math, ratio, v, w, r)
}

/// A compaction where one is due at this share of dead rows.
pub open spec fn maybe_compacted_at<M: VectorMath>(
    math: M,
    ratio: u32,
    v: DbView,
    w: DbView,
    r: Result<Option<CompactionStats>, DbError>,
) -> bool {
    if compaction_due(ratio, v.policy, v.tombstones.len()) {
        exists|done: Result<CompactionStats, DbError>|
            #[trigger] compact_outcome(math, v, w, done) && r == match done {
                Ok(stats) => Ok(Some(stats)),
                Err(e) => Err(e),
            }
    } else {
        w == v && r == Ok::<Option<CompactionStats>, DbError>(None)
    }
}

/// The last step of a change: a compaction where one is due, whose error is the error of the
/// whole change.
pub open spec fn settled<M: VectorMath, T>(
    math: M,
    v: DbView,
    w: DbView,
    value: T,
    r: Result<T, DbError>,
) -> bool {
    exists|done: Result<Option<CompactionStats>, DbError>|
        #[trigger] maybe_compacted(math, v, w, done) && r == match done {
            Ok(_) => Ok(value),
            Err(e) => Err(e),
        }
}

/// A flush.
pub open spec fn flush_outcome<M: VectorMath>(
    math: M,
    v: DbView,
    w: DbView,
    r: Result<(), DbError>,
) -> bool {
    match flush_refusal(v) {
        Some(e) => r == Err::<(), DbError>(e) && w == v,
        None => if v.staging.len() == 0 {
            r == Ok::<(), DbError>(()) && w == v
        } else {
            exists|m: DbView| #[trigger] flushed(math, v, m) && settled(math, m, w, (), r)
        },
    }
}

/// Ids get their tombstones one after the other: the state, the number of ids that had none
/// before, and the first id without a record, where it stops.
pub open spec fn tombstone_list(v: DbView, ids: Seq<VectorId>) -> (DbView, nat, Option<VectorId>)
    decreases ids.len(),
{
    if ids.len() == 0 {
        (v, 0, None)
    } else {
        let (m, n, stop) = tombstone_list(v, ids.drop_last());
        let id = ids.last();
        if stop is Some || m.tombstones.contains(id) {
            (m, n, stop)
        } else if !m.records.contains_key(id) {
            (m, n, Some(id))
        } else {
            (m.with_tombstone(id), n + 1, None)
        }
    }
}

/// All rows of a file leave the store: persistent ones get a tombstone, staged ones are dropped.
pub open spec fn delete_outcome<M: VectorMath>(
    math: M,
    v: DbView,
    path: Seq<char>,
    w: DbView,
    r: Result<usize, DbError>,
) -> bool {
    if v.read_only {
        r == Err::<usize, DbError>(DbError::ReadOnly) && w == v
    } else {
        let (m, n, stop) = tombstone_list(v, list_of(v.postings.by_file, path));
        match stop {
            Some(id) => r == Err::<usize, DbError>(DbError::MissingMetadata { id }) && w == m,
            None => {
                let d = DbView { staging: of_other_files(m.staging, path), ..m };
                let e = if n > 0 {
                    d.recorded()
                } else {
                    d
                };
                let removed = n + (m.staging.len() - d.staging.len());
                settled(math, e, w, removed as usize, r)
            },
        }
    }
}

/// A single id gets its tombstone.
pub open spec fn tombstone_outcome<M: VectorMath>(
    math: M,
    v: DbView,
    id: VectorId,
    w: DbView,
    r: Result<bool, DbError>,
) -> bool {
    if v.read_only {
        r == Err::<bool, DbError>(DbError::ReadOnly) && w == v
    } else if v.tombstones.contains(id) {
        r == Ok::<bool, DbError>(false) && w == v
    } else if !v.records.contains_key(id) {
        r == Err::<bool, DbError>(DbError::MissingMetadata { id }) && w == v
    } else {
        settled(math, v.with_tombstone(id).recorded(), w, true, r)
    }
}

/// A replacement row: a vector and its record.
pub struct Chunk {
    pub row: Seq<u32>,
    pub record: ChunkRecord,
}

/// One replacement row of a file joins the persistent tier, or is refused; after a refusal
/// nothing more happens.
pub open spec fn chunk_inserted<M: VectorMath>(
    math: M,
    v: DbView,
    before: Option<DbError>,
    path: Seq<char>,
    chunk: Chunk,
    w: DbView,
    stop: Option<DbError>,
) -> bool {
    if before is Some {
        w == v && stop == before
    } else if chunk.record.file_path@ != path {
        &&& w == v
        &&& stop matches Some(DbError::FilePathMismatch { expected, got })
        &&& expected@ == path
        &&& got@ == chunk.record.file_path@
    } else {
        match v.persistent_refusal(chunk.row.len(), chunk.record) {
            Some(e) => w == v && stop == Some(e),
            None => stop is None && inserted(math, v, chunk.row, chunk.record, w),
        }
    }
}

/// Replacement rows join the persistent tier one after the other, up to the first refusal.
pub open spec fn chunks_inserted<M: VectorMath>(
    math: M,
    v: DbView,
    path: Seq<char>,
    chunks: Seq<Chunk>,
    w: DbView,
    stop: Option<DbError>,
) -> bool
    decreases chunks.len(),
{
    if chunks.len() == 0 {
        w == v && stop is None
    } else {
        exists|m: DbView, before: Option<DbError>|
            chunks_inserted(math, v, path, chunks.drop_last(), m, before)
                && #[trigger] chunk_inserted(math, m, before, path, chunks.last(), w, stop)
    }
}

/// The first of the replacement rows is not refused, so that a row joins the persistent tier.
pub open spec fn first_joins(v: DbView, path: Seq<char>, chunks: Seq<Chunk>) -> bool {
    &&& chunks.len() > 0
    &&& chunks[0].record.file_path@ == path
    &&& v.persistent_refusal(chunks[0].row.len(), chunks[0].record) is None
}

/// The rows of a file make place for others.
pub open spec fn replace_outcome<M: VectorMath>(
    math: M,
    v: DbView,
    path: Seq<char>,
    chunks: Seq<Chunk>,
    w: DbView,
    r: Result<(), DbError>,
) -> bool {
    exists|m: DbView, removed: Result<usize, DbError>| #[trigger]
        delete_outcome(math, v, path, m, removed) && match removed {
            Err(e) => r == Err::<(), DbError>(e) && w == m,
            Ok(_) => refilled(math, m, path, chunks, w, r),
        }
}

/// Other rows take the place of the deleted ones.
pub open spec fn refilled<M: VectorMath>(
    math: M,
    v: DbView,
    path: Seq<char>,
    chunks: Seq<Chunk>,
    w: DbView,
    r: Result<(), DbError>,
) -> bool {
    exists|m: DbView, stop: Option<DbError>| #[trigger]
        chunks_inserted(math, v, path, chunks, m, stop) && match stop {
            Some(e) => r == Err::<(), DbError>(e) && w == m,
            None => settled(math, m.recorded(), w, (), r),
        }
}

/// The files of a store.
pub struct Disk {
    pub vectors: Seq<u8>,
    pub manifest: Option<Persisted>,
    pub centroids: Option<Seq<u8>>,
}

impl Disk {
    pub open spec fn apply(self, op: OpView) -> Disk {
        match op {
            OpView::AppendVectors(bytes) => Disk { vectors: self.vectors + bytes, ..self },
            OpView::ReplaceVectors(bytes) => Disk { vectors: bytes, ..self },
            OpView::WriteManifest(manifest) => Disk { manifest: Some(manifest), ..self },
            OpView::WriteCentroids(bytes) => Disk { centroids: Some(bytes), ..self },
            OpView::RemoveCentroids => Disk { centroids: None, ..self },
        }
    }

    /// The files after a list of changes.
    pub open spec fn run(self, ops: Seq<OpView>) -> Disk
        decreases ops.len(),
    {
        if ops.len() == 0 {
            self
        } else {
            self.run(ops.drop_last()).apply(ops.last())
        }
    }

    /// The vector file and the centroid file hold what the store holds in memory.
    pub open spec fn holds_files(self, v: DbView) -> bool {
        &&& self.vectors == v.bytes
        &&& v.ivf matches Some(index) ==> self.centroids == Some(bytes_of(v.order, index.centroids))
    }

    /// The manifest says what the store knows.
    pub open spec fn holds_manifest(self, v: DbView) -> bool {
        self.manifest == Some(v.persisted())
    }
}

/// The posting lists of a record: by file or by kind.
pub open spec fn posting_key(record: ChunkRecord, by_file: bool) -> Seq<char> {
    if by_file {
        record.file_path@
    } else {
        record.kind@
    }
}

/// Every live row is listed under its own key, and nothing else is listed.
pub open spec fn lists_live(
    lists: Lists,
    live: Set<VectorId>,
    records: Map<VectorId, ChunkRecord>,
    by_file: bool,
) -> bool {
    forall|key: Seq<char>, id: VectorId|
        #[trigger] listed(lists, key, id) <==> live.contains(id) && posting_key(
            records[id],
            by_file,
        ) == key
}

/// The row of `id` begins at a whole word and ends within `len` bytes.
pub open spec fn row_placed(dim: nat, offsets: Map<VectorId, u64>, len: nat, id: VectorId) -> bool {
    offsets[id] % 4 == 0 && row_fits(dim, offsets, len, id)
}

/// No two rows overlap.
pub open spec fn rows_apart(dim: nat, offsets: Map<VectorId, u64>) -> bool {
    forall|a: VectorId, b: VectorId|
        offsets.contains_key(a) && offsets.contains_key(b) && a != b ==> #[trigger] offsets[a] + 4
            * dim <= #[trigger] offsets[b] || offsets[b] + 4 * dim <= offsets[a]
}

/// The bucketed index fits the width and has a bucket for exactly the live rows.
pub open spec fn index_coherent(index: Option<IvfView>, dim: nat, live: Set<VectorId>) -> bool {
    index matches Some(index) ==> {
        &&& index.num_buckets > 0
        &&& index.centroids.len() == index.num_buckets * dim
        &&& index.assignments.dom() == live
        &&& forall|id: VectorId| #[trigger]
            index.assignments.contains_key(id) ==> index.assignments[id] < index.num_buckets
    }
}

impl DbView {
    /// No id is in both tiers.
    pub open spec fn tiers_apart(self) -> bool {
        forall|i: int|
            0 <= i < self.staging.len() ==> !self.records.contains_key(
                (#[trigger] self.staging[i]).id,
            )
    }

    /// Every row can be read: the vector file holds whole words, and no id is in both tiers.
    pub open spec fn readable(self) -> bool {
        self.inv() && self.aligned() && self.tiers_apart()
    }

    /// Ids to come are new.
    pub open spec fn ids_below(self) -> bool {
        forall|id: VectorId| #[trigger] self.records.contains_key(id) ==> id < self.next_id
    }

    /// The posting lists, by file or by kind, name exactly the live rows.
    pub open spec fn listed(self, by_file: bool) -> bool {
        lists_live(
            if by_file {
                self.postings.by_file
            } else {
                self.postings.by_kind
            },
            self.live(),
            self.records,
            by_file,
        )
    }

    /// What the rows of a store keep through every run of calls: they can be read, ids to come
    /// are new, and the posting lists by file name exactly the live rows.
    pub open spec fn regular(self) -> bool {
        self.readable() && self.ids_below() && self.listed(true)
    }

    /// The vector file is within its limit and holds every stored row, dead ones too, no two of
    /// them at the same offset: what opening a store asks for.
    pub open spec fn stored(self) -> bool {
        &&& self.bytes.len() <= MAX_VECTORS_BYTES
        &&& rows_distinct(self.offsets)
        &&& forall|id: VectorId|
            self.offsets.contains_key(id) ==> #[trigger] row_fits(
                self.dim as nat,
                self.offsets,
                self.bytes.len(),
                id,
            )
    }

    /// The vector file is within its limit, and every stored row, dead ones too, has its own place
    /// in it.
    pub open spec fn placed(self) -> bool {
        &&& self.bytes.len() <= MAX_VECTORS_BYTES
        &&& rows_apart(self.dim as nat, self.offsets)
        &&& forall|id: VectorId|
            self.offsets.contains_key(id) ==> #[trigger] row_placed(
                self.dim as nat,
                self.offsets,
                self.bytes.len(),
                id,
            )
    }

    /// With so many rows more, all of them fit into a vector file within the limit.
    pub open spec fn has_room(self, more: nat) -> bool {
        4 * ((self.row_count() + more) * self.dim) <= MAX_VECTORS_BYTES
    }

    /// A bucketed index, where there is one, has exactly one centroid for each bucket.
    pub open spec fn index_sized(self) -> bool {
        self.ivf matches Some(index) ==> index.centroids.len() == index.num_buckets * self.dim
    }

    /// A bucketed index, where there is one, has a bucket for every live row.
    pub open spec fn index_total(self) -> bool {
        self.ivf matches Some(index) ==> forall|id: VectorId| #[trigger]
            self.live().contains(id) ==> index.assignments.contains_key(id)
                && index.assignments[id] < index.num_buckets
    }

    /// A bucketed index, where there is one, fits the width and has a bucket for exactly the live
    /// rows.
    pub open spec fn indexed(self) -> bool {
        index_coherent(self.ivf, self.dim as nat, self.live())
    }

    /// What holds of a store that was filled by its own operations only: besides the rows, the
    /// posting lists by kind, the places of the rows and the bucketed index are in order.
    pub open spec fn coherent(self) -> bool {
        self.regular() && self.listed(false) && self.placed() && self.indexed()
    }
}

} // verus!
