//! Where the bucketed index keeps its rows: every operation leaves each live row in the bucket
//! whose centroid scores best for it.

use vstd::prelude::*;

use super::changes::law_insertion_lists_the_row;
use super::coherence::{
    law_compact_keeps_rows, law_compaction_step_keeps_rows, law_recording_keeps_rows,
    law_rebuild_keeps_rows, law_same_tier_keeps_order,
};
use super::rows::{
    ids_are_new, law_delete_removes_the_file, law_every_file_is_listed, law_flush_step_keeps_rows,
    lemma_appended_rows, lemma_chunks_inserted, lemma_drop_staged,
    lemma_rows_appended, lemma_tombstone_list,
};
use super::upkeep::law_building_an_index;
use crate::compact::is_dead_ratio;
use crate::ivf::{scores_best, VectorMath};
use crate::postings::list_of;
use crate::state::{
    appended, bucket_settings, chunk_inserted, chunks_inserted, compact_outcome, compaction_due,
    compaction_step, delete_outcome, flush_outcome, flush_refusal, flushed, insert_outcome,
    inserted, maybe_compacted, maybe_compacted_at, of_other_files, rebuilt, refilled,
    replace_outcome, rows_appended, settled, tombstone_list, tombstone_outcome, Chunk, DbView,
    OpView, Staged,
};
use crate::types::{ChunkRecord, CompactionStats, DbError, VectorId, MAX_VECTORS_BYTES};
use crate::words::bytes_of;

verus! {

/// Where there is an index, every live row can be read and is in the bucket whose centroid scores
/// best for it.
pub open spec fn well_bucketed<M: VectorMath>(math: M, v: DbView) -> bool {
    v.ivf matches Some(index) ==> {
        &&& index.num_buckets > 0
        &&& forall|id: VectorId|
            v.records.contains_key(id) && !v.tombstones.contains(id) ==> {
                &&& #[trigger] v.row(id) is Some
                &&& index.assignments.contains_key(id)
                &&& scores_best(
                    math,
                    v.row(id)->Some_0,
                    index.centroids,
                    v.dim as nat,
                    index.num_buckets as nat,
                    index.assignments[id],
                )
            }
    }
}

/// A state with the same rows and the same index.
proof fn lemma_same_tier<M: VectorMath>(math: M, v: DbView, w: DbView)
    requires
        well_bucketed(math, v),
        w.ivf == v.ivf,
        w.records == v.records,
        w.tombstones == v.tombstones,
        w.bytes == v.bytes,
        w.order == v.order,
        w.offsets == v.offsets,
        w.dim == v.dim,
    ensures
        well_bucketed(math, w),
{
    assert forall|id: VectorId| #[trigger] w.row(id) == v.row(id) by {}
}

proof fn lemma_appended<M: VectorMath>(
    math: M,
    v: DbView,
    id: VectorId,
    row: Seq<u32>,
    record: ChunkRecord,
    w: DbView,
)
    requires
        v.inv(),
        v.aligned(),
        v.bytes.len() <= u64::MAX,
        row.len() == v.dim,
        appended(math, v, id, row, record, w),
        well_bucketed(math, v),
    ensures
        well_bucketed(math, w),
{
    lemma_appended_rows(math, v, id, row, record, w);
    law_insertion_lists_the_row(math, v, id, row, record, w);
    if let Some(index) = w.ivf {
        assert forall|x: VectorId|
            w.records.contains_key(x) && !w.tombstones.contains(x) implies {
            &&& #[trigger] w.row(x) is Some
            &&& index.assignments.contains_key(x)
            &&& scores_best(
                math,
                w.row(x)->Some_0,
                index.centroids,
                w.dim as nat,
                index.num_buckets as nat,
                index.assignments[x],
            )
        } by {
            if x != id {
                assert(v.live().contains(x));
                assert(w.row(x) == v.row(x));
            }
        }
    }
}

/// A row that was inserted is in the bucket that scores best for it, and so are all others.
pub proof fn law_inserting_picks_the_best_bucket<M: VectorMath>(
    math: M,
    v: DbView,
    row: Seq<u32>,
    record: ChunkRecord,
    w: DbView,
    r: Result<VectorId, DbError>,
)
    requires
        v.inv(),
        v.aligned(),
        well_bucketed(math, v),
        insert_outcome(math, v, row, record, w, r),
    ensures
        well_bucketed(math, w),
{
    if v.persistent_refusal(row.len(), record) is None {
        let m = choose|m: DbView| #[trigger] inserted(math, v, row, record, m) && w == m.recorded();
        lemma_inserted(math, v, row, record, m);
        lemma_same_tier(math, m, w);
    }
}

proof fn lemma_inserted<M: VectorMath>(
    math: M,
    v: DbView,
    row: Seq<u32>,
    record: ChunkRecord,
    w: DbView,
)
    requires
        v.inv(),
        v.aligned(),
        v.persistent_refusal(row.len(), record) is None,
        inserted(math, v, row, record, w),
        well_bucketed(math, v),
    ensures
        well_bucketed(math, w),
{
    let m = DbView {
        next_id: (v.next_id + 1) as VectorId,
        ops: v.ops.push(OpView::AppendVectors(bytes_of(v.order, row))),
        ..v
    };
    law_same_tier_keeps_order(v, m);
    lemma_same_tier(math, v, m);
    lemma_appended(math, m, v.next_id, row, record, w);
}

proof fn lemma_rows<M: VectorMath>(math: M, v: DbView, rows: Seq<Staged>, w: DbView)
    requires
        v.readable(),
        v.bytes.len() + 4 * (rows.len() * v.dim) <= MAX_VECTORS_BYTES,
        rows.len() <= v.staging.len(),
        rows == v.staging.take(rows.len() as int),
        rows_appended(math, v, rows, w),
        well_bucketed(math, v),
    ensures
        well_bucketed(math, w),
    decreases rows.len(),
{
    if rows.len() > 0 {
        let fewer = rows.drop_last();
        let last = rows.last();
        let n = rows.len() as int;
        let d = v.dim as int;
        let m = choose|m: DbView|
            rows_appended(math, v, rows.drop_last(), m) && #[trigger] appended(
                math,
                m,
                rows.last().id,
                rows.last().row,
                rows.last().record,
                w,
            );
        assert(n * d == (n - 1) * d + d && (n - 1) * d >= 0) by (nonlinear_arith)
            requires
                n > 0,
                d >= 0,
        ;
        assert(fewer =~= v.staging.take(fewer.len() as int));
        lemma_rows(math, v, fewer, m);
        lemma_rows_appended(math, v, fewer, m);
        assert(last == v.staging[n - 1]);
        lemma_appended(math, m, last.id, last.row, last.record, w);
    }
}

proof fn lemma_chunks<M: VectorMath>(
    math: M,
    v: DbView,
    path: Seq<char>,
    chunks: Seq<Chunk>,
    w: DbView,
    stop: Option<DbError>,
)
    requires
        v.readable(),
        ids_are_new(v, chunks.len()),
        chunks_inserted(math, v, path, chunks, w, stop),
        well_bucketed(math, v),
    ensures
        well_bucketed(math, w),
    decreases chunks.len(),
{
    if chunks.len() > 0 {
        let fewer = chunks.drop_last();
        let last = chunks.last();
        let (m, before) = choose|m: DbView, before: Option<DbError>|
            chunks_inserted(math, v, path, chunks.drop_last(), m, before)
                && #[trigger] chunk_inserted(math, m, before, path, chunks.last(), w, stop);
        lemma_chunks(math, v, path, fewer, m, before);
        lemma_chunks_inserted(math, v, path, fewer, m, before);
        if before is None && last.record.file_path@ == path && m.persistent_refusal(
            last.row.len(),
            last.record,
        ) is None {
            lemma_inserted(math, m, last.row, last.record, w);
        }
    }
}

proof fn lemma_tombstone<M: VectorMath>(math: M, v: DbView, id: VectorId)
    requires
        well_bucketed(math, v),
    ensures
        well_bucketed(math, v.with_tombstone(id)),
{
    let w = v.with_tombstone(id);
    assert forall|x: VectorId| #[trigger] w.row(x) == v.row(x) by {}
}

proof fn lemma_tombstones<M: VectorMath>(math: M, v: DbView, ids: Seq<VectorId>)
    requires
        well_bucketed(math, v),
    ensures
        well_bucketed(math, tombstone_list(v, ids).0),
    decreases ids.len(),
{
    if ids.len() > 0 {
        lemma_tombstones(math, v, ids.drop_last());
        lemma_tombstone(math, tombstone_list(v, ids.drop_last()).0, ids.last());
    }
}

/// An index that was built, where there is one, has every live row in the bucket that scores best
/// for it.
pub proof fn law_building_picks_the_best_buckets<M: VectorMath>(
    math: M,
    v: DbView,
    num_buckets: usize,
    probe_buckets: usize,
    w: DbView,
    r: Result<(), DbError>,
)
    requires
        v.inv(),
        rebuilt(math, v, num_buckets, probe_buckets, w, r),
    ensures
        r is Ok ==> well_bucketed(math, w),
{
    law_building_an_index(math, v, num_buckets, probe_buckets, w, r);
    law_rebuild_keeps_rows(math, v, num_buckets, probe_buckets, w, r);
    if r is Ok && w.ivf is Some {
        assert forall|id: VectorId| #[trigger] w.row(id) == v.row(id) by {}
        let index = w.ivf->Some_0;
        assert forall|id: VectorId|
            w.records.contains_key(id) && !w.tombstones.contains(id) implies {
            &&& #[trigger] w.row(id) is Some
            &&& index.assignments.contains_key(id)
            &&& scores_best(
                math,
                w.row(id)->Some_0,
                index.centroids,
                w.dim as nat,
                index.num_buckets as nat,
                index.assignments[id],
            )
        } by {
            assert(v.live().contains(id));
            assert(crate::manifest::row_fits(v.dim as nat, v.offsets, v.bytes.len(), id));
            assert(index.assignments[id] < num_buckets);
        }
    }
}

/// A compaction puts every row into the bucket that scores best for it: where it succeeds, whatever
/// buckets the rows had before.
pub proof fn law_compacting_picks_the_best_buckets<M: VectorMath>(
    math: M,
    v: DbView,
    w: DbView,
    r: Result<CompactionStats, DbError>,
)
    requires
        v.inv(),
        compact_outcome(math, v, w, r),
    ensures
        r is Ok ==> well_bucketed(math, w),
        well_bucketed(math, v) ==> well_bucketed(math, w),
{
    law_compact_keeps_rows(math, v, w, r);
    if !v.read_only && v.aligned() {
        let (m, stats, done) = choose|m: DbView, stats: CompactionStats, done: Result<(), DbError>|
            #![trigger compaction_step(v, m, stats), rebuilt(math, m, bucket_settings(v).0, bucket_settings(v).1, w, done)]
            {
                &&& compaction_step(v, m, stats)
                &&& rebuilt(math, m, bucket_settings(v).0, bucket_settings(v).1, w, done)
                &&& r == match done {
                    Ok(()) => Ok(stats),
                    Err(e) => Err(e),
                }
            };
        law_compaction_step_keeps_rows(v, m, stats);
        law_building_picks_the_best_buckets(
            math,
            m,
            bucket_settings(v).0,
            bucket_settings(v).1,
            w,
            done,
        );
    }
}

/// The last step of a change keeps every row in the bucket that scores best for it.
pub proof fn law_settling_keeps_the_best_buckets<M: VectorMath, T>(
    math: M,
    v: DbView,
    w: DbView,
    value: T,
    r: Result<T, DbError>,
)
    requires
        v.inv(),
        well_bucketed(math, v),
        settled(math, v, w, value, r),
    ensures
        well_bucketed(math, w),
{
    let done = choose|done: Result<Option<CompactionStats>, DbError>|
        #[trigger] maybe_compacted(math, v, w, done) && r == match done {
            Ok(_) => Ok(value),
            Err(e) => Err(e),
        };
    let ratio = choose|ratio: u32|
        #[trigger] is_dead_ratio(math, v.tombstones.len(), v.next_id as usize, ratio)
            && maybe_compacted_at(math, ratio, v, w, done);
    if compaction_due(ratio, v.policy, v.tombstones.len()) {
        let c = choose|c: Result<CompactionStats, DbError>|
            #[trigger] compact_outcome(math, v, w, c) && done == match c {
                Ok(stats) => Ok(Some(stats)),
                Err(e) => Err(e),
            };
        law_compacting_picks_the_best_buckets(math, v, w, c);
    }
}

/// Staged rows that a flush moves go to the buckets that score best for them.
pub proof fn law_flushing_picks_the_best_buckets<M: VectorMath>(
    math: M,
    v: DbView,
    w: DbView,
    r: Result<(), DbError>,
)
    requires
        v.readable(),
        well_bucketed(math, v),
        flush_outcome(math, v, w, r),
    ensures
        well_bucketed(math, w),
{
    if flush_refusal(v) is None && v.staging.len() > 0 {
        let m = choose|m: DbView| #[trigger] flushed(math, v, m) && settled(math, m, w, (), r);
        law_flush_step_keeps_rows(math, v, m);
        let x = choose|x: DbView| #[trigger]
            rows_appended(math, v, v.staging, x) && m == (DbView {
                staging: Seq::empty(),
                ops: v.ops.push(OpView::AppendVectors(x.bytes.skip(v.bytes.len() as int))),
                ..x
            }).recorded();
        let n = v.staging.len() as int;
        let d = v.dim as int;
        assert(n * d * 4 == 4 * (n * d)) by (nonlinear_arith);
        assert(v.staging =~= v.staging.take(n));
        lemma_rows(math, v, v.staging, x);
        lemma_same_tier(math, x, m);
        law_settling_keeps_the_best_buckets(math, m, w, (), r);
    }
}

/// A tombstone leaves every other row in the bucket that scores best for it.
pub proof fn law_tombstone_keeps_the_best_buckets<M: VectorMath>(
    math: M,
    v: DbView,
    id: VectorId,
    w: DbView,
    r: Result<bool, DbError>,
)
    requires
        v.inv(),
        well_bucketed(math, v),
        tombstone_outcome(math, v, id, w, r),
    ensures
        well_bucketed(math, w),
{
    if !v.read_only && !v.tombstones.contains(id) && v.records.contains_key(id) {
        let m = v.with_tombstone(id);
        super::coherence::law_tombstone_keeps_order(v, id);
        lemma_tombstone(math, v, id);
        law_recording_keeps_rows(m, m.recorded());
        lemma_same_tier(math, m, m.recorded());
        law_settling_keeps_the_best_buckets(math, m.recorded(), w, true, r);
    }
}

/// Deleting a file leaves every other row in the bucket that scores best for it.
pub proof fn law_deleting_keeps_the_best_buckets<M: VectorMath>(
    math: M,
    v: DbView,
    path: Seq<char>,
    w: DbView,
    r: Result<usize, DbError>,
)
    requires
        v.regular(),
        well_bucketed(math, v),
        delete_outcome(math, v, path, w, r),
    ensures
        well_bucketed(math, w),
{
    if !v.read_only {
        let ids = list_of(v.postings.by_file, path);
        law_every_file_is_listed(v, path);
        assert forall|i: int| 0 <= i < ids.len() implies v.live().contains(#[trigger] ids[i]) by {
            assert(crate::postings::listed(v.postings.by_file, path, ids[i]));
        }
        lemma_tombstone_list(v, ids);
        lemma_tombstones(math, v, ids);
        let (m, n, stop) = tombstone_list(v, ids);
        lemma_drop_staged(m, path);
        let d = DbView { staging: of_other_files(m.staging, path), ..m };
        let e = if n > 0 {
            d.recorded()
        } else {
            d
        };
        law_recording_keeps_rows(d, d.recorded());
        lemma_same_tier(math, m, e);
        let removed = n + (m.staging.len() - d.staging.len());
        law_settling_keeps_the_best_buckets(math, e, w, removed as usize, r);
    }
}

/// The rows that take the place of a file's go to the buckets that score best for them.
pub proof fn law_replacing_picks_the_best_buckets<M: VectorMath>(
    math: M,
    v: DbView,
    path: Seq<char>,
    chunks: Seq<Chunk>,
    w: DbView,
    r: Result<(), DbError>,
)
    requires
        v.regular(),
        v.row_count() <= usize::MAX,
        well_bucketed(math, v),
        replace_outcome(math, v, path, chunks, w, r),
    ensures
        well_bucketed(math, w),
{
    let (m, removed) = choose|m: DbView, removed: Result<usize, DbError>| #[trigger]
        delete_outcome(math, v, path, m, removed) && match removed {
            Err(e) => r == Err::<(), DbError>(e) && w == m,
            Ok(_) => refilled(math, m, path, chunks, w, r),
        };
    law_deleting_keeps_the_best_buckets(math, v, path, m, removed);
    if !v.read_only && removed is Ok {
        law_every_file_is_listed(v, path);
        law_delete_removes_the_file(math, v, path, m, removed);
        assert forall|id: VectorId| #[trigger] m.records.contains_key(id) implies id
            < m.next_id by {
            assert(m.records.dom().contains(id));
            assert(v.records.contains_key(id));
        }
        let (x, stop) = choose|x: DbView, stop: Option<DbError>| #[trigger]
            chunks_inserted(math, m, path, chunks, x, stop) && match stop {
                Some(e) => r == Err::<(), DbError>(e) && w == x,
                None => settled(math, x.recorded(), w, (), r),
            };
        lemma_chunks(math, m, path, chunks, x, stop);
        lemma_chunks_inserted(math, m, path, chunks, x, stop);
        if stop is None {
            law_recording_keeps_rows(x, x.recorded());
            lemma_same_tier(math, x, x.recorded());
            law_settling_keeps_the_best_buckets(math, x.recorded(), w, (), r);
        }
    }
}

} // verus!
