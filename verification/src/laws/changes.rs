//! What each call accepts, what it refuses with which error, and what it changes.

use vstd::prelude::*;
use vstd::utf8::encode_utf8;

use super::coherence::{
    law_compact_keeps_rows, law_recording_keeps_rows, law_settling_keeps_rows, lemma_with_id,
    lemma_without_id,
};
use super::rows::{
    law_delete_removes_the_file, law_every_file_is_listed, lemma_chunks_inserted,
    lemma_drop_staged, lemma_tombstone_list,
};
use super::upkeep::law_compaction_packs_the_live_rows;
use crate::compact::is_dead_ratio;
use crate::ivf::{law_nearest_in_scores_best, scores_best, VectorMath};
use crate::postings::{list_of, listed};
use crate::state::{
    appended, bucket_added, bucket_settings, capped, chunk_inserted, chunks_inserted,
    clear_outcome, compact_outcome, compaction_due, delete_outcome, flush_outcome, flushed,
    insert_outcome, inserted, maybe_compacted, maybe_compacted_at, of_other_files, refilled,
    replace_outcome, reset_outcome, settled, stage_outcome, staged, tombstone_list,
    tombstone_outcome, Chunk, DbView, OpView, Staged,
};
use crate::storage::{lemma_not_staged, lemma_staged_at};
use crate::types::{
    ChunkRecord, CompactionStats, DbError, VectorId, DEFAULT_COMPACT_THRESHOLD, EMBEDDING_DIM,
    MAX_RECORD_TEXT_BYTES, MAX_STAGING_VECTORS, MAX_VECTORS_BYTES,
};
use crate::words::{law_words_in_place, word_of};

verus! {

/// What an id stands for, told by the parts of the store. A staged id stands for its row and record.
/// An id that is not staged, and has no record or carries a tombstone, stands for nothing. Any
/// other one stands for its record and, where the vector file holds whole words, for the words that
/// begin at its offset.
pub proof fn law_what_an_id_stands_for(v: DbView, id: VectorId, i: int, j: int)
    requires
        v.inv(),
    ensures
        0 <= i < v.staging.len() && v.staging[i].id == id ==> v.fetched(id) == Ok::<
            (Seq<u32>, ChunkRecord),
            DbError,
        >((v.staging[i].row, v.staging[i].record)),
        0 <= i < v.staging.len() && v.staging[i].id == id ==> v.record_for(id) == Some(
            v.staging[i].record,
        ),
        (forall|p: int| 0 <= p < v.staging.len() ==> (#[trigger] v.staging[p]).id != id) ==> {
            &&& v.record_for(id) is Some <==> v.records.contains_key(id)
            &&& v.records.contains_key(id) ==> v.record_for(id) == Some(v.records[id])
            &&& !v.records.contains_key(id) || v.tombstones.contains(id) ==> v.fetched(id) == Err::<
                (Seq<u32>, ChunkRecord),
                DbError,
            >(DbError::MissingMetadata { id })
            &&& v.records.contains_key(id) && !v.tombstones.contains(id) && v.bytes.len() % 4 != 0
                ==> v.fetched(id) == Err::<(Seq<u32>, ChunkRecord), DbError>(
                DbError::MissingOffset { id },
            )
            &&& v.records.contains_key(id) && !v.tombstones.contains(id) && v.bytes.len() % 4 == 0
                ==> {
                &&& v.fetched(id) is Ok
                &&& v.fetched(id)->Ok_0.1 == v.records[id]
                &&& v.fetched(id)->Ok_0.0.len() == v.dim
                &&& v.offsets[id] % 4 == 0 && 0 <= j < v.dim ==> v.fetched(id)->Ok_0.0[j] == word_of(
                    v.order,
                    seq![
                        v.bytes[v.offsets[id] + 4 * j],
                        v.bytes[v.offsets[id] + 4 * j + 1],
                        v.bytes[v.offsets[id] + 4 * j + 2],
                        v.bytes[v.offsets[id] + 4 * j + 3],
                    ],
                )
            }
        },
{
    if 0 <= i < v.staging.len() && v.staging[i].id == id {
        lemma_staged_at(v.staging, id, i);
    }
    if forall|p: int| 0 <= p < v.staging.len() ==> (#[trigger] v.staging[p]).id != id {
        lemma_not_staged(v.staging, id);
        if v.records.contains_key(id) && !v.tombstones.contains(id) && v.bytes.len() % 4 == 0 {
            crate::storage::compaction::lemma_live_rows(v);
            assert(v.live().contains(id));
            if v.offsets[id] % 4 == 0 && 0 <= j < v.dim {
                let at = v.offsets[id] as int / 4 + j;
                assert(v.offsets.dom().contains(id));
                assert(crate::manifest::row_fits(v.dim as nat, v.offsets, v.bytes.len(), id));
                law_words_in_place(v.order, v.words(), v.bytes, at, 0);
                assert(4 * at == v.offsets[id] + 4 * j);
            }
        }
    }
}

/// When the staging tier takes a row, and with which error it refuses one: a store that is open for
/// reading first, then a row of another width, then a text that is too long, then a full tier, and
/// last that no id is left. A refusal changes nothing.
pub proof fn law_staging_refusals(
    v: DbView,
    row: Seq<u32>,
    record: ChunkRecord,
    w: DbView,
    r: Result<VectorId, DbError>,
)
    requires
        stage_outcome(v, row, record, w, r),
        encode_utf8(record.text@).len() <= usize::MAX,
    ensures
        ({
            let text = encode_utf8(record.text@).len();
            let wide = row.len() == v.dim;
            let short = text <= MAX_RECORD_TEXT_BYTES;
            let room = v.staging.len() < MAX_STAGING_VECTORS;
            &&& r is Ok <==> !v.read_only && wide && short && room && v.next_id < VectorId::MAX
            &&& r is Err ==> w == v
            &&& v.read_only ==> r == Err::<VectorId, DbError>(DbError::ReadOnly)
            &&& !v.read_only && !wide ==> r == Err::<VectorId, DbError>(
                DbError::InvalidDimension { expected: v.dim, got: row.len() as usize },
            )
            &&& !v.read_only && wide && !short ==> r == Err::<VectorId, DbError>(
                DbError::RecordTextTooLarge { len: text as usize, max: MAX_RECORD_TEXT_BYTES },
            )
            &&& !v.read_only && wide && short && !room ==> r == Err::<VectorId, DbError>(
                DbError::StagingCapacityExceeded {
                    count: (v.staging.len() + 1) as usize,
                    max: MAX_STAGING_VECTORS,
                },
            )
            &&& !v.read_only && wide && short && room && v.next_id == VectorId::MAX ==> r == Err::<
                VectorId,
                DbError,
            >(DbError::IdExhausted)
            &&& r is Ok ==> {
                &&& r->Ok_0 == v.next_id
                &&& w.next_id == v.next_id + 1
                &&& w.staging == v.staging.push(Staged { id: v.next_id, row, record })
                &&& w == (DbView { staging: w.staging, next_id: w.next_id, ..v })
            }
        }),
{
}

/// When the persistent tier takes a row, and with which error it refuses one: a store that is open
/// for reading first, then a row of another width, then a text that is too long, then a vector file
/// without room, and last that no id is left. A refusal changes nothing. A row that is taken gets
/// the next id, an offset at the former end of the vector file, and its record; every other record
/// and offset stays, and so do the tombstones and the staging tier.
pub proof fn law_insertion_refusals<M: VectorMath>(
    math: M,
    v: DbView,
    row: Seq<u32>,
    record: ChunkRecord,
    w: DbView,
    r: Result<VectorId, DbError>,
)
    requires
        insert_outcome(math, v, row, record, w, r),
        encode_utf8(record.text@).len() <= usize::MAX,
        v.bytes.len() <= u64::MAX,
    ensures
        ({
            let text = encode_utf8(record.text@).len();
            let wide = row.len() == v.dim;
            let short = text <= MAX_RECORD_TEXT_BYTES;
            let room = v.bytes.len() + 4 * row.len() <= MAX_VECTORS_BYTES;
            &&& r is Ok <==> !v.read_only && wide && short && room && v.next_id < VectorId::MAX
            &&& r is Err ==> w == v
            &&& v.read_only ==> r == Err::<VectorId, DbError>(DbError::ReadOnly)
            &&& !v.read_only && !wide ==> r == Err::<VectorId, DbError>(
                DbError::InvalidDimension { expected: v.dim, got: row.len() as usize },
            )
            &&& !v.read_only && wide && !short ==> r == Err::<VectorId, DbError>(
                DbError::RecordTextTooLarge { len: text as usize, max: MAX_RECORD_TEXT_BYTES },
            )
            &&& !v.read_only && wide && short && !room ==> (r matches Err(
                DbError::VectorsFileTooLarge { len, max },
            ) && max == MAX_VECTORS_BYTES && (v.bytes.len() + 4 * row.len() <= u64::MAX ==> len
                == v.bytes.len() + 4 * row.len()))
            &&& !v.read_only && wide && short && room && v.next_id == VectorId::MAX ==> r == Err::<
                VectorId,
                DbError,
            >(DbError::IdExhausted)
            &&& r is Ok ==> {
                &&& r->Ok_0 == v.next_id
                &&& w.next_id == v.next_id + 1
                &&& w.records == v.records.insert(v.next_id, record)
                &&& w.offsets == v.offsets.insert(v.next_id, v.bytes.len() as u64)
                &&& w.bytes.len() == v.bytes.len() + 4 * row.len()
                &&& w.bytes.take(v.bytes.len() as int) == v.bytes
                &&& w.tombstones == v.tombstones
                &&& w.staging == v.staging
                &&& w.dim == v.dim
                &&& w.policy == v.policy
                &&& w.order == v.order
                &&& w.read_only == v.read_only
            }
        }),
{
    if r is Ok {
        let m = choose|m: DbView| #[trigger] inserted(math, v, row, record, m) && w == m.recorded();
        crate::words::law_words_of_bytes_of(v.order, row);
        assert(w.bytes.take(v.bytes.len() as int) =~= v.bytes);
    }
}

/// What a row that joins the persistent tier does to the posting lists and the bucketed index: it
/// is listed under its own path and its own kind and nowhere else, nothing else is listed
/// differently, and where there is an index the row gets the bucket whose centroid scores best for
/// it, while every other bucket and centroid stays.
pub proof fn law_insertion_lists_the_row<M: VectorMath>(
    math: M,
    v: DbView,
    id: VectorId,
    row: Seq<u32>,
    record: ChunkRecord,
    w: DbView,
)
    requires
        appended(math, v, id, row, record, w),
    ensures
        forall|key: Seq<char>, x: VectorId| #[trigger]
            listed(w.postings.by_file, key, x) <==> listed(v.postings.by_file, key, x) || (key
                == record.file_path@ && x == id),
        forall|key: Seq<char>, x: VectorId| #[trigger]
            listed(w.postings.by_kind, key, x) <==> listed(v.postings.by_kind, key, x) || (key
                == record.kind@ && x == id),
        v.ivf is None <==> w.ivf is None,
        v.ivf matches Some(old_index) ==> {
            let new_index = w.ivf->Some_0;
            &&& new_index.num_buckets == old_index.num_buckets
            &&& new_index.probe_buckets == old_index.probe_buckets
            &&& new_index.centroids == old_index.centroids
            &&& new_index.assignments.contains_key(id)
            &&& old_index.num_buckets > 0 ==> scores_best(
                math,
                row,
                old_index.centroids,
                v.dim as nat,
                old_index.num_buckets as nat,
                new_index.assignments[id],
            )
            &&& forall|x: VectorId|
                x != id ==> (#[trigger] new_index.assignments.contains_key(x)
                    <==> old_index.assignments.contains_key(x)) && new_index.assignments[x]
                    == old_index.assignments[x]
        },
{
    lemma_with_id(v.postings.by_file, record.file_path@, id);
    lemma_with_id(v.postings.by_kind, record.kind@, id);
    assert(bucket_added(math, v.dim as nat, id, row, v.ivf, w.ivf));
    if let Some(old_index) = v.ivf {
        let new_index = w.ivf->Some_0;
        if old_index.num_buckets > 0 {
            law_nearest_in_scores_best(
                math,
                row,
                old_index,
                v.dim as nat,
                new_index.assignments[id],
            );
        }
    }
}

/// What a tombstone does to the parts of a store: the id joins the tombstones, leaves the lists of
/// its path and its kind, and has no bucket any more; its record, its offset and the bytes of its
/// row stay, and so does everything about every other id.
pub proof fn law_tombstone_changes(v: DbView, id: VectorId)
    ensures
        ({
            let w = v.with_tombstone(id);
            let record = v.records[id];
            &&& forall|x: VectorId| #[trigger]
                w.tombstones.contains(x) <==> v.tombstones.contains(x) || x == id
            &&& forall|key: Seq<char>, x: VectorId| #[trigger]
                listed(w.postings.by_file, key, x) <==> listed(v.postings.by_file, key, x) && !(key
                    == record.file_path@ && x == id)
            &&& forall|key: Seq<char>, x: VectorId| #[trigger]
                listed(w.postings.by_kind, key, x) <==> listed(v.postings.by_kind, key, x) && !(key
                    == record.kind@ && x == id)
            &&& v.ivf is None <==> w.ivf is None
            &&& v.ivf matches Some(index) ==> {
                &&& w.ivf->Some_0.num_buckets == index.num_buckets
                &&& w.ivf->Some_0.probe_buckets == index.probe_buckets
                &&& w.ivf->Some_0.centroids == index.centroids
                &&& forall|x: VectorId| #[trigger]
                    w.ivf->Some_0.assignments.contains_key(x) <==> index.assignments.contains_key(
                        x,
                    ) && x != id
                &&& forall|x: VectorId|
                    x != id && index.assignments.contains_key(x)
                        ==> #[trigger] w.ivf->Some_0.assignments[x] == index.assignments[x]
            }
            &&& w == (DbView {
                tombstones: w.tombstones,
                postings: w.postings,
                ivf: w.ivf,
                ..v
            })
        }),
{
    lemma_without_id(v.postings.by_file, v.records[id].file_path@, id);
    lemma_without_id(v.postings.by_kind, v.records[id].kind@, id);
}

/// What giving an id its tombstone answers: a store that is open for reading refuses it; an id that
/// carries one already is answered with false, and an id without a record with an error, and
/// neither changes anything; any other id is answered with true, unless a compaction fails.
pub proof fn law_tombstone_answers<M: VectorMath>(
    math: M,
    v: DbView,
    id: VectorId,
    w: DbView,
    r: Result<bool, DbError>,
)
    requires
        tombstone_outcome(math, v, id, w, r),
    ensures
        v.read_only ==> r == Err::<bool, DbError>(DbError::ReadOnly) && w == v,
        !v.read_only && v.tombstones.contains(id) ==> r == Ok::<bool, DbError>(false) && w == v,
        !v.read_only && !v.tombstones.contains(id) && !v.records.contains_key(id) ==> r == Err::<
            bool,
            DbError,
        >(DbError::MissingMetadata { id }) && w == v,
        !v.read_only && !v.tombstones.contains(id) && v.records.contains_key(id) && r is Ok ==> r
            == Ok::<bool, DbError>(true) && settled(
            math,
            v.with_tombstone(id).recorded(),
            w,
            true,
            r,
        ),
{
}

/// When a flush is refused: for a store that is open for reading, and where the staged rows do not
/// fit into the vector file. A refusal changes nothing, and so does a flush of an empty tier.
pub proof fn law_flush_refusals<M: VectorMath>(
    math: M,
    v: DbView,
    w: DbView,
    r: Result<(), DbError>,
)
    requires
        flush_outcome(math, v, w, r),
    ensures
        v.read_only ==> r == Err::<(), DbError>(DbError::ReadOnly) && w == v,
        !v.read_only && v.staging.len() == 0 ==> r == Ok::<(), DbError>(()) && w == v,
        !v.read_only && v.staging.len() > 0 && v.bytes.len() + 4 * (v.staging.len() * v.dim)
            > MAX_VECTORS_BYTES ==> w == v && (r matches Err(
            DbError::VectorsFileTooLarge { len, max },
        ) && max == MAX_VECTORS_BYTES && (v.bytes.len() + 4 * (v.staging.len() * v.dim) <= u64::MAX
            ==> len == v.bytes.len() + 4 * (v.staging.len() * v.dim))),
        !v.read_only && v.staging.len() > 0 && v.bytes.len() + 4 * (v.staging.len() * v.dim)
            <= MAX_VECTORS_BYTES ==> crate::state::flush_refusal(v) is None,
{
    let n = v.staging.len() as int;
    let d = v.dim as int;
    assert(n * d * 4 == 4 * (n * d)) by (nonlinear_arith);
    assert(n * d >= 0) by (nonlinear_arith)
        requires
            n >= 0,
            d >= 0,
    ;
}

/// Emptying the staging tier is refused for a store that is open for reading, and otherwise takes
/// every staged row out and changes nothing else.
pub proof fn law_clearing(v: DbView, w: DbView, r: Result<(), DbError>)
    requires
        clear_outcome(v, w, r),
    ensures
        v.read_only ==> r == Err::<(), DbError>(DbError::ReadOnly) && w == v,
        !v.read_only ==> r is Ok && w.staging.len() == 0 && w == (DbView {
            staging: w.staging,
            ..v
        }),
{
}

/// A reset is refused for a store that is open for reading, and otherwise leaves a store of the
/// default width and policy that holds nothing, whose next id is 0 and which has no index; it stays
/// open for writing. The files are emptied, the manifest says so, and the centroids go.
pub proof fn law_reset(v: DbView, w: DbView, r: Result<(), DbError>)
    requires
        reset_outcome(v, w, r),
    ensures
        v.read_only ==> r == Err::<(), DbError>(DbError::ReadOnly) && w == v,
        !v.read_only ==> {
            &&& r is Ok
            &&& w.dim == EMBEDDING_DIM
            &&& w.policy.dead_ratio_threshold == DEFAULT_COMPACT_THRESHOLD
            &&& w.next_id == 0
            &&& w.bytes.len() == 0
            &&& w.staging.len() == 0
            &&& w.ivf is None
            &&& !w.read_only
            &&& w.order == v.order
            &&& w.ops == v.ops + seq![
                OpView::ReplaceVectors(Seq::empty()),
                OpView::WriteManifest(w.persisted()),
                OpView::RemoveCentroids,
            ]
            &&& forall|id: VectorId| !(#[trigger] w.records.contains_key(id))
            &&& forall|id: VectorId| !(#[trigger] w.offsets.contains_key(id))
            &&& forall|id: VectorId| !(#[trigger] w.tombstones.contains(id))
            &&& forall|key: Seq<char>, id: VectorId| !(#[trigger] listed(w.postings.by_file, key, id))
            &&& forall|key: Seq<char>, id: VectorId| !(#[trigger] listed(w.postings.by_kind, key, id))
        },
{
    if !v.read_only {
        assert(w.ops =~= v.ops + seq![
            OpView::ReplaceVectors(Seq::empty()),
            OpView::WriteManifest(w.persisted()),
            OpView::RemoveCentroids,
        ]);
    }
}

/// A deletion and a replacement are refused for a store that is open for reading, and then change
/// nothing.
pub proof fn law_read_only_files_stay<M: VectorMath>(
    math: M,
    v: DbView,
    path: Seq<char>,
    chunks: Seq<Chunk>,
    w: DbView,
    deleted: Result<usize, DbError>,
    replaced: Result<(), DbError>,
)
    requires
        v.read_only,
    ensures
        delete_outcome(math, v, path, w, deleted) ==> deleted == Err::<usize, DbError>(
            DbError::ReadOnly,
        ) && w == v,
        replace_outcome(math, v, path, chunks, w, replaced) ==> replaced == Err::<(), DbError>(
            DbError::ReadOnly,
        ) && w == v,
{
}

/// A replacement row can be taken: it belongs to the file, has the width of the store, and its text
/// is not too long.
pub open spec fn acceptable(dim: usize, path: Seq<char>, chunk: Chunk) -> bool {
    &&& chunk.record.file_path@ == path
    &&& chunk.row.len() == dim
    &&& encode_utf8(chunk.record.text@).len() <= MAX_RECORD_TEXT_BYTES
}

/// Replacement rows that can all be taken, with room and ids for each, are all taken.
proof fn lemma_chunks_taken<M: VectorMath>(
    math: M,
    v: DbView,
    path: Seq<char>,
    chunks: Seq<Chunk>,
    w: DbView,
    stop: Option<DbError>,
)
    requires
        !v.read_only,
        chunks_inserted(math, v, path, chunks, w, stop),
        forall|i: int| 0 <= i < chunks.len() ==> acceptable(v.dim, path, #[trigger] chunks[i]),
        v.bytes.len() + 4 * (chunks.len() * v.dim) <= MAX_VECTORS_BYTES,
        v.next_id + chunks.len() <= VectorId::MAX,
    ensures
        stop is None,
        w.next_id == v.next_id + chunks.len(),
        w.bytes.len() == v.bytes.len() + 4 * (chunks.len() * v.dim),
        w.dim == v.dim,
        !w.read_only,
    decreases chunks.len(),
{
    let n = chunks.len() as int;
    let d = v.dim as int;
    if chunks.len() > 0 {
        let fewer = chunks.drop_last();
        let last = chunks.last();
        let (m, before) = choose|m: DbView, before: Option<DbError>|
            chunks_inserted(math, v, path, chunks.drop_last(), m, before)
                && #[trigger] chunk_inserted(math, m, before, path, chunks.last(), w, stop);
        assert(n * d == (n - 1) * d + d) by (nonlinear_arith);
        assert forall|i: int| 0 <= i < fewer.len() implies acceptable(
            v.dim,
            path,
            #[trigger] fewer[i],
        ) by {
            assert(acceptable(v.dim, path, chunks[i]));
        }
        lemma_chunks_taken(math, v, path, fewer, m, before);
        assert(acceptable(v.dim, path, chunks[n - 1]));
        crate::words::law_words_of_bytes_of(m.order, last.row);
    } else {
        assert(n * d == 0) by (nonlinear_arith)
            requires
                n == 0,
        ;
    }
}

/// Replacement rows of which one cannot be taken, while the rows before it can, stop there.
proof fn lemma_chunks_stop<M: VectorMath>(
    math: M,
    v: DbView,
    path: Seq<char>,
    chunks: Seq<Chunk>,
    w: DbView,
    stop: Option<DbError>,
    at: int,
)
    requires
        !v.read_only,
        0 <= at < chunks.len(),
        chunks_inserted(math, v, path, chunks, w, stop),
        forall|i: int| 0 <= i < at ==> acceptable(v.dim, path, #[trigger] chunks[i]),
        !acceptable(v.dim, path, chunks[at]),
        v.bytes.len() + 4 * (at * v.dim) <= MAX_VECTORS_BYTES,
        v.next_id + at <= VectorId::MAX,
        encode_utf8(chunks[at].record.text@).len() <= usize::MAX,
    ensures
        w.next_id == v.next_id + at,
        ({
            let chunk = chunks[at];
            let text = encode_utf8(chunk.record.text@).len();
            if chunk.record.file_path@ != path {
                stop matches Some(DbError::FilePathMismatch { expected, got }) && expected@ == path
                    && got@ == chunk.record.file_path@
            } else if chunk.row.len() != v.dim {
                stop == Some(
                    DbError::InvalidDimension { expected: v.dim, got: chunk.row.len() as usize },
                )
            } else {
                stop == Some(
                    DbError::RecordTextTooLarge { len: text as usize, max: MAX_RECORD_TEXT_BYTES },
                )
            }
        }),
    decreases chunks.len(),
{
    let fewer = chunks.drop_last();
    let (m, before) = choose|m: DbView, before: Option<DbError>|
        chunks_inserted(math, v, path, chunks.drop_last(), m, before)
            && #[trigger] chunk_inserted(math, m, before, path, chunks.last(), w, stop);
    assert forall|i: int| 0 <= i < at implies acceptable(v.dim, path, #[trigger] fewer[i]) by {
        assert(acceptable(v.dim, path, chunks[i]));
    }
    if at == chunks.len() - 1 {
        lemma_chunks_taken(math, v, path, fewer, m, before);
    } else {
        assert(fewer[at] == chunks[at]);
        lemma_chunks_stop(math, v, path, fewer, m, before, at);
    }
}

/// What other rows in place of the deleted ones meet with. Rows that can all be taken, with room in
/// the vector file and ids for each of them, are all taken, in their order, under the next ids. The
/// first one that cannot be taken stops everything with the error that tells why: it belongs to
/// another file, has another width, or its text is too long.
pub proof fn law_refill_answers<M: VectorMath>(
    math: M,
    v: DbView,
    path: Seq<char>,
    chunks: Seq<Chunk>,
    w: DbView,
    r: Result<(), DbError>,
    at: int,
)
    requires
        !v.read_only,
        refilled(math, v, path, chunks, w, r),
        forall|i: int| 0 <= i < at ==> acceptable(v.dim, path, #[trigger] chunks[i]),
        0 <= at <= chunks.len(),
        v.bytes.len() + 4 * (at * v.dim) <= MAX_VECTORS_BYTES,
        v.next_id + at <= VectorId::MAX,
        at < chunks.len() ==> encode_utf8(chunks[at].record.text@).len() <= usize::MAX,
    ensures
        at == chunks.len() ==> exists|m: DbView| #[trigger]
            chunks_inserted(math, v, path, chunks, m, None) && m.next_id == v.next_id + at
                && settled(math, m.recorded(), w, (), r),
        at < chunks.len() && chunks[at].record.file_path@ != path ==> (r matches Err(
            DbError::FilePathMismatch { expected, got },
        ) && expected@ == path && got@ == chunks[at].record.file_path@),
        at < chunks.len() && chunks[at].record.file_path@ == path && chunks[at].row.len() != v.dim
            ==> r == Err::<(), DbError>(
            DbError::InvalidDimension { expected: v.dim, got: chunks[at].row.len() as usize },
        ),
        at < chunks.len() && chunks[at].record.file_path@ == path && chunks[at].row.len() == v.dim
            && encode_utf8(chunks[at].record.text@).len() > MAX_RECORD_TEXT_BYTES ==> r == Err::<
            (),
            DbError,
        >(
            DbError::RecordTextTooLarge {
                len: encode_utf8(chunks[at].record.text@).len() as usize,
                max: MAX_RECORD_TEXT_BYTES,
            },
        ),
        at < chunks.len() && !acceptable(v.dim, path, chunks[at]) ==> w.next_id == v.next_id + at,
{
    let (m, stop) = choose|m: DbView, stop: Option<DbError>| #[trigger]
        chunks_inserted(math, v, path, chunks, m, stop) && match stop {
            Some(e) => r == Err::<(), DbError>(e) && w == m,
            None => settled(math, m.recorded(), w, (), r),
        };
    if at == chunks.len() {
        lemma_chunks_taken(math, v, path, chunks, m, stop);
    } else if !acceptable(v.dim, path, chunks[at]) {
        lemma_chunks_stop(math, v, path, chunks, m, stop, at);
    }
}

/// A settled store has an index with buckets, and its vector file is the one there was or holds
/// nothing but the live rows.
proof fn lemma_settled_file<M: VectorMath, T>(
    math: M,
    v: DbView,
    w: DbView,
    value: T,
    r: Result<T, DbError>,
)
    requires
        v.inv(),
        v.aligned(),
        !v.read_only,
        bucket_settings(v).0 > 0,
        settled(math, v, w, value, r),
    ensures
        bucket_settings(w).0 > 0,
        w.bytes == v.bytes || w.bytes.len() == 4 * (w.live().len() * v.dim),
{
    let done = choose|done: Result<Option<CompactionStats>, DbError>|
        #[trigger] maybe_compacted(math, v, w, done) && r == match done {
            Ok(_) => Ok(value),
            Err(e) => Err(e),
        };
    let ratio = choose|ratio: u32|
        #[trigger] is_dead_ratio(math, v.tombstones.len(), v.next_id as usize, ratio)
            && maybe_compacted_at(math, ratio, v, w, done);
    if compaction_due(ratio, v.policy, v.tombstones.len()) {
        let c = choose|c: Result<CompactionStats, DbError>|
            #[trigger] compact_outcome(math, v, w, c) && done == match c {
                Ok(stats) => Ok(Some(stats)),
                Err(e) => Err(e),
            };
        law_compact_keeps_rows(math, v, w, c);
        law_compaction_packs_the_live_rows(math, v, w, c->Ok_0);
        assert(w.live() =~= w.records.dom());
    }
}

/// What a replacement meets with. Rows that can all be taken, with room in the vector file and ids
/// for each of them, make it succeed. The first one that cannot be taken stops it with the error
/// that tells why; the rows before that one have joined the store.
pub proof fn law_replacing_answers<M: VectorMath>(
    math: M,
    v: DbView,
    path: Seq<char>,
    chunks: Seq<Chunk>,
    w: DbView,
    r: Result<(), DbError>,
    at: int,
)
    requires
        v.regular(),
        v.row_count() <= usize::MAX,
        bucket_settings(v).0 > 0,
        !v.read_only,
        replace_outcome(math, v, path, chunks, w, r),
        forall|i: int| 0 <= i < at ==> acceptable(v.dim, path, #[trigger] chunks[i]),
        0 <= at <= chunks.len(),
        v.bytes.len() + 4 * (at * v.dim) <= MAX_VECTORS_BYTES,
        4 * (v.row_count() * v.dim) + 4 * (at * v.dim) <= MAX_VECTORS_BYTES,
        v.next_id + at <= VectorId::MAX,
        at < chunks.len() ==> encode_utf8(chunks[at].record.text@).len() <= usize::MAX,
    ensures
        at == chunks.len() ==> r is Ok,
        at < chunks.len() && chunks[at].record.file_path@ != path ==> (r matches Err(
            DbError::FilePathMismatch { expected, got },
        ) && expected@ == path && got@ == chunks[at].record.file_path@),
        at < chunks.len() && chunks[at].record.file_path@ == path && chunks[at].row.len() != v.dim
            ==> r == Err::<(), DbError>(
            DbError::InvalidDimension { expected: v.dim, got: chunks[at].row.len() as usize },
        ),
        at < chunks.len() && chunks[at].record.file_path@ == path && chunks[at].row.len() == v.dim
            && encode_utf8(chunks[at].record.text@).len() > MAX_RECORD_TEXT_BYTES ==> r == Err::<
            (),
            DbError,
        >(
            DbError::RecordTextTooLarge {
                len: encode_utf8(chunks[at].record.text@).len() as usize,
                max: MAX_RECORD_TEXT_BYTES,
            },
        ),
        at < chunks.len() && !acceptable(v.dim, path, chunks[at]) ==> w.next_id == v.next_id + at,
{
    let (m, removed) = choose|m: DbView, removed: Result<usize, DbError>| #[trigger]
        delete_outcome(math, v, path, m, removed) && match removed {
            Err(e) => r == Err::<(), DbError>(e) && w == m,
            Ok(_) => refilled(math, m, path, chunks, w, r),
        };
    law_every_file_is_listed(v, path);
    law_delete_removes_the_file(math, v, path, m, removed);
    lemma_deleted_file(math, v, path, m, removed);
    let a = m.live().len() as int;
    let b = v.row_count() as int;
    let d = v.dim as int;
    assert(a * d <= b * d) by (nonlinear_arith)
        requires
            a <= b,
            d >= 0,
    ;
    law_refill_answers(math, m, path, chunks, w, r, at);
    if at == chunks.len() {
        let x = choose|x: DbView| #[trigger]
            chunks_inserted(math, m, path, chunks, x, None) && x.next_id == m.next_id + at
                && settled(math, x.recorded(), w, (), r);
        assert forall|id: VectorId| #[trigger] m.records.contains_key(id) implies id
            < m.next_id by {
            assert(m.records.dom().contains(id));
            assert(v.records.contains_key(id));
        }
        lemma_chunks_inserted(math, m, path, chunks, x, None);
        law_recording_keeps_rows(x, x.recorded());
        law_settling_keeps_rows(math, x.recorded(), w, (), r);
    }
}

/// The vector file after a deletion.
proof fn lemma_deleted_file<M: VectorMath>(
    math: M,
    v: DbView,
    path: Seq<char>,
    w: DbView,
    r: Result<usize, DbError>,
)
    requires
        v.regular(),
        !v.read_only,
        bucket_settings(v).0 > 0,
        delete_outcome(math, v, path, w, r),
    ensures
        bucket_settings(w).0 > 0,
        w.bytes == v.bytes || w.bytes.len() == 4 * (w.live().len() * v.dim),
{
    let ids = list_of(v.postings.by_file, path);
    assert forall|i: int| 0 <= i < ids.len() implies v.live().contains(#[trigger] ids[i]) by {
        assert(listed(v.postings.by_file, path, ids[i]));
    }
    lemma_tombstone_list(v, ids);
    lemma_tombstones_keep_bytes(v, ids);
    let (m, n, stop) = tombstone_list(v, ids);
    lemma_drop_staged(m, path);
    let d = DbView { staging: of_other_files(m.staging, path), ..m };
    let e = if n > 0 {
        d.recorded()
    } else {
        d
    };
    law_recording_keeps_rows(d, d.recorded());
    let removed = n + (m.staging.len() - d.staging.len());
    lemma_settled_file(math, e, w, removed as usize, r);
}

proof fn lemma_tombstones_keep_bytes(v: DbView, ids: Seq<VectorId>)
    ensures
        tombstone_list(v, ids).0.bytes == v.bytes,
    decreases ids.len(),
{
    if ids.len() > 0 {
        lemma_tombstones_keep_bytes(v, ids.drop_last());
    }
}

/// A replacement that succeeds had rows of the file only, each of the width of the store and with a
/// text that is not too long.
pub proof fn law_replaced_rows_are_acceptable<M: VectorMath>(
    math: M,
    v: DbView,
    path: Seq<char>,
    chunks: Seq<Chunk>,
    w: DbView,
    i: int,
)
    requires
        refilled(math, v, path, chunks, w, Ok::<(), DbError>(())),
        0 <= i < chunks.len(),
        encode_utf8(chunks[i].record.text@).len() <= usize::MAX,
    ensures
        !v.read_only,
        chunks[i].record.file_path@ == path,
        chunks[i].row.len() == v.dim,
        encode_utf8(chunks[i].record.text@).len() <= MAX_RECORD_TEXT_BYTES,
{
    let r = Ok::<(), DbError>(());
    let (m, stop) = choose|m: DbView, stop: Option<DbError>| #[trigger]
        chunks_inserted(math, v, path, chunks, m, stop) && match stop {
            Some(e) => r == Err::<(), DbError>(e) && w == m,
            None => settled(math, m.recorded(), w, (), r),
        };
    lemma_taken_is_acceptable(math, v, path, chunks, m, i);
}

proof fn lemma_taken_is_acceptable<M: VectorMath>(
    math: M,
    v: DbView,
    path: Seq<char>,
    chunks: Seq<Chunk>,
    w: DbView,
    i: int,
)
    requires
        chunks_inserted(math, v, path, chunks, w, None),
        0 <= i < chunks.len(),
        encode_utf8(chunks[i].record.text@).len() <= usize::MAX,
    ensures
        !v.read_only,
        w.dim == v.dim,
        acceptable(v.dim, path, chunks[i]),
    decreases chunks.len(),
{
    let fewer = chunks.drop_last();
    let (m, before) = choose|m: DbView, before: Option<DbError>|
        chunks_inserted(math, v, path, chunks.drop_last(), m, before)
            && #[trigger] chunk_inserted(
            math,
            m,
            before,
            path,
            chunks.last(),
            w,
            None::<DbError>,
        );
    lemma_taken_frame(math, v, path, fewer, m);
    if i < fewer.len() {
        assert(fewer[i] == chunks[i]);
        lemma_taken_is_acceptable(math, v, path, fewer, m, i);
    }
}

proof fn lemma_taken_frame<M: VectorMath>(
    math: M,
    v: DbView,
    path: Seq<char>,
    chunks: Seq<Chunk>,
    w: DbView,
)
    requires
        chunks_inserted(math, v, path, chunks, w, None),
    ensures
        w.dim == v.dim,
        w.read_only == v.read_only,
    decreases chunks.len(),
{
    if chunks.len() > 0 {
        let (m, before) = choose|m: DbView, before: Option<DbError>|
            chunks_inserted(math, v, path, chunks.drop_last(), m, before)
                && #[trigger] chunk_inserted(
                math,
                m,
                before,
                path,
                chunks.last(),
                w,
                None::<DbError>,
            );
        lemma_taken_frame(math, v, path, chunks.drop_last(), m);
    }
}

/// The files are written in an order in which nothing is lost: an inserted row, and staged rows that
/// are flushed, go to the end of the vector file before the manifest names them, and an id that gets
/// its tombstone is named by the manifest before any compaction.
pub proof fn law_rows_are_written_before_they_are_named<M: VectorMath>(
    math: M,
    v: DbView,
    row: Seq<u32>,
    record: ChunkRecord,
    id: VectorId,
    w: DbView,
)
    ensures
        insert_outcome(math, v, row, record, w, Ok::<VectorId, DbError>(id)) ==> w.ops == v.ops
            + seq![
            OpView::AppendVectors(w.bytes.skip(v.bytes.len() as int)),
            OpView::WriteManifest(w.persisted()),
        ],
        flushed(math, v, w) ==> w.ops == v.ops + seq![
            OpView::AppendVectors(w.bytes.skip(v.bytes.len() as int)),
            OpView::WriteManifest(w.persisted()),
        ],
        tombstone_outcome(math, v, id, w, Ok::<bool, DbError>(true)) && !v.tombstones.contains(id)
            ==> {
            &&& w.ops.len() > v.ops.len()
            &&& w.ops[v.ops.len() as int] matches OpView::WriteManifest(said)
                && said.tombstones.contains(id)
        },
{
    if insert_outcome(math, v, row, record, w, Ok::<VectorId, DbError>(id)) {
        let m = choose|m: DbView| #[trigger] inserted(math, v, row, record, m) && w == m.recorded();
        assert(w.bytes.skip(v.bytes.len() as int) =~= crate::words::bytes_of(v.order, row));
        assert(w.ops =~= v.ops + seq![
            OpView::AppendVectors(w.bytes.skip(v.bytes.len() as int)),
            OpView::WriteManifest(w.persisted()),
        ]);
    }
    if flushed(math, v, w) {
        assert(w.ops =~= v.ops + seq![
            OpView::AppendVectors(w.bytes.skip(v.bytes.len() as int)),
            OpView::WriteManifest(w.persisted()),
        ]);
    }
    if tombstone_outcome(math, v, id, w, Ok::<bool, DbError>(true)) && !v.tombstones.contains(id) {
        let m = v.with_tombstone(id).recorded();
        super::durability::law_settling_follows(math, m, w, true, Ok::<bool, DbError>(true));
        assert(m.ops.is_prefix_of(w.ops));
        assert(w.ops.subrange(0, m.ops.len() as int)[v.ops.len() as int] == m.ops[v.ops.len() as int]);
    }
}

/// Deleting a file that has no persistent row, from a store without tombstones, drops its staged rows
/// and writes nothing.
pub proof fn law_deleting_staged_rows_writes_nothing<M: VectorMath>(
    math: M,
    v: DbView,
    path: Seq<char>,
    w: DbView,
    r: Result<usize, DbError>,
)
    requires
        v.inv(),
        !v.read_only,
        list_of(v.postings.by_file, path).len() == 0,
        v.tombstones.len() == 0,
        delete_outcome(math, v, path, w, r),
    ensures
        r is Ok,
        w == (DbView { staging: w.staging, ..v }),
        forall|i: int|
            0 <= i < w.staging.len() ==> (#[trigger] w.staging[i]).record.file_path@ != path
                && v.staging.contains(w.staging[i]),
        forall|s: Staged|
            #[trigger] v.staging.contains(s) && s.record.file_path@ != path ==> w.staging.contains(
                s,
            ),
{
    crate::storage::delete::lemma_other_files(v.staging, path);
}

/// A length is reported as it is, up to the greatest that can be reported.
pub proof fn law_reported_length(len: int)
    ensures
        0 <= len <= u64::MAX ==> capped(len) == len,
        len > u64::MAX ==> capped(len) == u64::MAX,
{
}

} // verus!
