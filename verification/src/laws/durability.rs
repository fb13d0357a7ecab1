//! What the files of a store hold once the changes that its operations decide have been made.

use vstd::prelude::*;

use super::coherence::{
    law_compact_keeps_rows, law_recording_keeps_rows, law_same_tier_keeps_order, same_rows,
};
use super::rows::{
    ids_are_new, law_flush_keeps_rows, law_insert_keeps_store, law_replace_swaps_the_file,
    lists_file,
};
use crate::ids::lists_set;
use crate::ivf::{built, IvfView, VectorMath};
use crate::manifest::{row_fits, Persisted};
use crate::postings::list_of;
use crate::state::{
    appended, bucket_settings, chunk_inserted, chunks_inserted, compact_outcome, compaction_due,
    compaction_step, delete_outcome, flush_outcome, flushed, insert_outcome, inserted,
    maybe_compacted, maybe_compacted_at, of_other_files, rebuilt, refilled, replace_outcome,
    reset_outcome, row_placed, rows_appended, settled, staged, tombstone_list, tombstone_outcome,
    Chunk, DbView, Disk, OpView, Staged,
};
use crate::storage::open::{consistent, open_outcome, opened, opening_writes, DiskImage};
use crate::storage::Rek0nDb;
use crate::types::{ChunkRecord, CompactionStats, DbError, VectorId, MAX_VECTORS_BYTES};
use crate::words::{bytes_of, law_words_of_bytes_of, words_of, ByteOrder};

verus! {

/// The changes between two states of a store.
pub open spec fn new_ops(v: DbView, w: DbView) -> Seq<OpView> {
    w.ops.skip(v.ops.len() as int)
}

/// The files of the store hold all that it holds, except the staging tier.
pub open spec fn on_disk(disk: Disk, v: DbView) -> bool {
    disk.holds_files(v) && disk.holds_manifest(v)
}

/// Vector file and centroid file stay in step with the store.
pub open spec fn files_follow(v: DbView, w: DbView) -> bool {
    v.ops.is_prefix_of(w.ops) && forall|disk: Disk| #[trigger]
        disk.holds_files(v) ==> disk.run(new_ops(v, w)).holds_files(w)
}

/// All files stay in step with the store.
pub open spec fn disk_follows(v: DbView, w: DbView) -> bool {
    files_follow(v, w) && forall|disk: Disk| #[trigger]
        disk.holds_manifest(v) ==> disk.run(new_ops(v, w)).holds_manifest(w)
}

/// All files hold the new state, whatever the manifest said before.
pub open spec fn saved(v: DbView, w: DbView) -> bool {
    files_follow(v, w) && forall|disk: Disk| (#[trigger] disk.run(new_ops(v, w))).holds_manifest(w)
}

pub(crate) proof fn lemma_run_concat(disk: Disk, a: Seq<OpView>, b: Seq<OpView>)
    ensures
        disk.run(a + b) == disk.run(a).run(b),
    decreases b.len(),
{
    if b.len() == 0 {
        assert(a + b =~= a);
    } else {
        assert((a + b).drop_last() =~= a + b.drop_last());
        lemma_run_concat(disk, a, b.drop_last());
    }
}

proof fn lemma_new_ops(u: DbView, v: DbView, w: DbView)
    requires
        u.ops.is_prefix_of(v.ops),
        v.ops.is_prefix_of(w.ops),
    ensures
        u.ops.is_prefix_of(w.ops),
        new_ops(u, w) == new_ops(u, v) + new_ops(v, w),
{
    assert(w.ops.subrange(0, u.ops.len() as int) =~= u.ops) by {
        assert(v.ops =~= w.ops.subrange(0, v.ops.len() as int));
        assert(u.ops =~= v.ops.subrange(0, u.ops.len() as int));
    }
    assert(new_ops(u, w) =~= new_ops(u, v) + new_ops(v, w)) by {
        assert(v.ops =~= w.ops.subrange(0, v.ops.len() as int));
    }
}

proof fn lemma_follow_chain(u: DbView, v: DbView, w: DbView)
    requires
        files_follow(u, v),
        files_follow(v, w),
    ensures
        files_follow(u, w),
        disk_follows(u, v) && disk_follows(v, w) ==> disk_follows(u, w),
        saved(v, w) ==> saved(u, w),
        saved(u, v) && disk_follows(v, w) ==> saved(u, w),
{
    lemma_new_ops(u, v, w);
    assert forall|disk: Disk| #[trigger] disk.holds_files(u) implies disk.run(
        new_ops(u, w),
    ).holds_files(w) by {
        lemma_run_concat(disk, new_ops(u, v), new_ops(v, w));
        assert(disk.run(new_ops(u, v)).holds_files(v));
    }
    if disk_follows(u, v) && disk_follows(v, w) {
        assert forall|disk: Disk| #[trigger] disk.holds_manifest(u) implies disk.run(
            new_ops(u, w),
        ).holds_manifest(w) by {
            lemma_run_concat(disk, new_ops(u, v), new_ops(v, w));
            assert(disk.run(new_ops(u, v)).holds_manifest(v));
        }
    }
    if saved(v, w) {
        assert forall|disk: Disk| (#[trigger] disk.run(new_ops(u, w))).holds_manifest(w) by {
            lemma_run_concat(disk, new_ops(u, v), new_ops(v, w));
            let mid = disk.run(new_ops(u, v));
            assert(mid.run(new_ops(v, w)).holds_manifest(w));
        }
    }
    if saved(u, v) && disk_follows(v, w) {
        assert forall|disk: Disk| (#[trigger] disk.run(new_ops(u, w))).holds_manifest(w) by {
            lemma_run_concat(disk, new_ops(u, v), new_ops(v, w));
            assert(disk.run(new_ops(u, v)).holds_manifest(v));
        }
    }
}

/// States that differ in neither files nor knowledge need no change.
pub(crate) proof fn lemma_follow_same(v: DbView, w: DbView)
    requires
        w.ops == v.ops,
        w.order == v.order,
        w.bytes == v.bytes,
        match (v.ivf, w.ivf) {
            (Some(a), Some(b)) => a.centroids == b.centroids,
            (_, None) => true,
            _ => false,
        },
    ensures
        files_follow(v, w),
        w.persisted() == v.persisted() ==> disk_follows(v, w),
{
    assert(v.ops.is_prefix_of(w.ops)) by {
        assert(w.ops.subrange(0, v.ops.len() as int) =~= v.ops);
    }
    assert(new_ops(v, w) =~= Seq::<OpView>::empty());
}

/// One queued change.
proof fn lemma_follow_op(v: DbView, op: OpView)
    ensures
        v.ops.is_prefix_of(v.with_op(op).ops),
        forall|disk: Disk| #[trigger]
            disk.run(new_ops(v, v.with_op(op))) == disk.apply(op),
{
    let w = v.with_op(op);
    assert(w.ops.subrange(0, v.ops.len() as int) =~= v.ops);
    assert(new_ops(v, w) =~= seq![op]);
    assert forall|disk: Disk| #[trigger] disk.run(new_ops(v, w)) == disk.apply(op) by {
        assert(seq![op].drop_last() =~= Seq::<OpView>::empty());
        assert(disk.run(seq![op].drop_last()) == disk);
    }
}

/// A written manifest holds what the store knows.
pub proof fn law_manifest_saves(v: DbView)
    ensures
        saved(v, v.recorded()),
{
    lemma_follow_op(v, OpView::WriteManifest(v.persisted()));
}

/// A row that is appended in memory is appended to the vector file.
pub proof fn law_insert_follows<M: VectorMath>(
    math: M,
    v: DbView,
    row: Seq<u32>,
    record: ChunkRecord,
    w: DbView,
)
    requires
        inserted(math, v, row, record, w),
    ensures
        files_follow(v, w),
{
    lemma_follow_op(v, OpView::AppendVectors(bytes_of(v.order, row)));
    let m = v.with_op(OpView::AppendVectors(bytes_of(v.order, row)));
    assert(new_ops(v, w) == new_ops(v, m));
}

/// After an insertion into the persistent tier all files hold the new state.
pub proof fn law_insert_is_saved<M: VectorMath>(
    math: M,
    v: DbView,
    row: Seq<u32>,
    record: ChunkRecord,
    w: DbView,
    r: Result<VectorId, DbError>,
)
    requires
        insert_outcome(math, v, row, record, w, r),
        r is Ok,
    ensures
        saved(v, w),
{
    let m = choose|m: DbView| #[trigger] inserted(math, v, row, record, m) && w == m.recorded();
    law_insert_follows(math, v, row, record, m);
    law_manifest_saves(m);
    lemma_follow_chain(v, m, w);
}

proof fn lemma_rows_appended_files<M: VectorMath>(
    math: M,
    v: DbView,
    rows: Seq<Staged>,
    w: DbView,
)
    requires
        rows_appended(math, v, rows, w),
    ensures
        w.ops == v.ops,
        w.order == v.order,
        v.bytes.is_prefix_of(w.bytes),
        match (v.ivf, w.ivf) {
            (Some(a), Some(b)) => a.centroids == b.centroids,
            (None, None) => true,
            _ => false,
        },
    decreases rows.len(),
{
    if rows.len() > 0 {
        let m = choose|m: DbView|
            rows_appended(math, v, rows.drop_last(), m) && #[trigger] appended(
                math,
                m,
                rows.last().id,
                rows.last().row,
                rows.last().record,
                w,
            );
        lemma_rows_appended_files(math, v, rows.drop_last(), m);
        assert(w.bytes.subrange(0, v.bytes.len() as int) =~= v.bytes) by {
            assert(m.bytes.subrange(0, v.bytes.len() as int) =~= v.bytes);
        }
    } else {
        assert(w.bytes.subrange(0, v.bytes.len() as int) =~= v.bytes);
    }
}

/// After the rows of the staging tier have moved all files hold the new state.
pub proof fn law_flush_step_is_saved<M: VectorMath>(math: M, v: DbView, w: DbView)
    requires
        flushed(math, v, w),
    ensures
        saved(v, w),
{
    let m = choose|m: DbView| #[trigger]
        rows_appended(math, v, v.staging, m) && w == (DbView {
            staging: Seq::empty(),
            ops: v.ops.push(OpView::AppendVectors(m.bytes.skip(v.bytes.len() as int))),
            ..m
        }).recorded();
    lemma_rows_appended_files(math, v, v.staging, m);
    let op = OpView::AppendVectors(m.bytes.skip(v.bytes.len() as int));
    let e = DbView { staging: Seq::empty(), ops: v.ops.push(op), ..m };
    lemma_follow_op(v, op);
    assert(new_ops(v, e) == new_ops(v, v.with_op(op)));
    assert(v.bytes + m.bytes.skip(v.bytes.len() as int) =~= m.bytes);
    assert(files_follow(v, e));
    law_manifest_saves(e);
    lemma_follow_chain(v, e, w);
}

/// After a compaction of the vector file all files hold the new state.
pub proof fn law_compaction_step_is_saved(v: DbView, w: DbView, stats: CompactionStats)
    requires
        compaction_step(v, w, stats),
    ensures
        saved(v, w),
{
    let words = choose|words: Seq<u32>|
        {
            &&& #[trigger] crate::compact::compacted(
                v.dim as nat,
                v.live(),
                v.offsets,
                v.words(),
                w.offsets,
                words,
            )
            &&& w == (DbView {
                bytes: bytes_of(v.order, words),
                offsets: w.offsets,
                records: v.records.remove_keys(v.tombstones),
                tombstones: Set::empty(),
                ..v
            }).with_op(OpView::ReplaceVectors(bytes_of(v.order, words))).recorded()
        };
    let op = OpView::ReplaceVectors(bytes_of(v.order, words));
    let m = (DbView {
        bytes: bytes_of(v.order, words),
        offsets: w.offsets,
        records: v.records.remove_keys(v.tombstones),
        tombstones: Set::empty(),
        ..v
    }).with_op(op);
    lemma_follow_op(v, op);
    assert(new_ops(v, m) == new_ops(v, v.with_op(op)));
    assert(files_follow(v, m));
    law_manifest_saves(m);
    lemma_follow_chain(v, m, w);
}

/// A new bucketed index is in the files with the state that has it.
pub proof fn law_rebuild_is_saved<M: VectorMath>(
    math: M,
    v: DbView,
    num_buckets: usize,
    probe_buckets: usize,
    w: DbView,
    r: Result<(), DbError>,
)
    requires
        rebuilt(math, v, num_buckets, probe_buckets, w, r),
    ensures
        disk_follows(v, w),
        r is Ok ==> saved(v, w),
{
    if r is Err {
        lemma_follow_same(v, w);
    } else if v.live().len() < num_buckets {
        let m = (DbView { ivf: None, ..v }).with_op(OpView::RemoveCentroids);
        lemma_follow_op(v, OpView::RemoveCentroids);
        assert(new_ops(v, m) == new_ops(v, v.with_op(OpView::RemoveCentroids)));
        assert(files_follow(v, m));
        law_manifest_saves(m);
        lemma_follow_chain(v, m, w);
    } else {
        let (ids, index) = choose|ids: Seq<VectorId>, index: IvfView|
            #![trigger lists_set(ids, v.live()), built(math, num_buckets, probe_buckets, v.dim as nat, v.words(), v.offsets, ids, index)]
            {
                &&& lists_set(ids, v.live())
                &&& built(
                    math,
                    num_buckets,
                    probe_buckets,
                    v.dim as nat,
                    v.words(),
                    v.offsets,
                    ids,
                    index,
                )
                &&& w == (DbView { ivf: Some(index), ..v }).with_op(
                    OpView::WriteCentroids(bytes_of(v.order, index.centroids)),
                ).recorded()
            };
        let op = OpView::WriteCentroids(bytes_of(v.order, index.centroids));
        let m = (DbView { ivf: Some(index), ..v }).with_op(op);
        lemma_follow_op(v, op);
        assert(new_ops(v, m) == new_ops(v, v.with_op(op)));
        assert(files_follow(v, m));
        law_manifest_saves(m);
        lemma_follow_chain(v, m, w);
    }
}

/// After a compaction all files hold the new state.
pub proof fn law_compact_is_saved<M: VectorMath>(
    math: M,
    v: DbView,
    w: DbView,
    r: Result<CompactionStats, DbError>,
)
    requires
        compact_outcome(math, v, w, r),
    ensures
        disk_follows(v, w),
        r is Ok ==> saved(v, w),
{
    if v.read_only || !v.aligned() {
        lemma_follow_same(v, w);
    } else {
        let (m, stats, done) = choose|m: DbView, stats: CompactionStats, done: Result<(), DbError>|
            #![trigger compaction_step(v, m, stats), rebuilt(math, m, bucket_settings(v).0, bucket_settings(v).1, w, done)]
            {
                &&& compaction_step(v, m, stats)
                &&& rebuilt(math, m, bucket_settings(v).0, bucket_settings(v).1, w, done)
                &&& r == match done {
                    Ok(()) => Ok(stats),
                    Err(e) => Err(e),
                }
            };
        law_compaction_step_is_saved(v, m, stats);
        law_rebuild_is_saved(math, m, bucket_settings(v).0, bucket_settings(v).1, w, done);
        lemma_follow_chain(v, m, w);
        lemma_saved_follows(v, m);
    }
}

proof fn lemma_saved_follows(v: DbView, w: DbView)
    requires
        saved(v, w),
    ensures
        disk_follows(v, w),
{
    assert forall|disk: Disk| #[trigger] disk.holds_manifest(v) implies disk.run(
        new_ops(v, w),
    ).holds_manifest(w) by {
        assert(disk.run(new_ops(v, w)).holds_manifest(w));
    }
}

/// The last step of a change keeps all files in step.
pub proof fn law_settling_follows<M: VectorMath, T>(
    math: M,
    v: DbView,
    w: DbView,
    value: T,
    r: Result<T, DbError>,
)
    requires
        settled(math, v, w, value, r),
    ensures
        disk_follows(v, w),
{
    let done = choose|done: Result<Option<CompactionStats>, DbError>|
        #[trigger] maybe_compacted(math, v, w, done) && r == match done {
            Ok(_) => Ok(value),
            Err(e) => Err(e),
        };
    let ratio = choose|ratio: u32|
        #[trigger] crate::compact::is_dead_ratio(
            math,
            v.tombstones.len(),
            v.next_id as usize,
            ratio,
        ) && maybe_compacted_at(math, ratio, v, w, done);
    if compaction_due(ratio, v.policy, v.tombstones.len()) {
        let c = choose|c: Result<CompactionStats, DbError>|
            #[trigger] compact_outcome(math, v, w, c) && done == match c {
                Ok(stats) => Ok(Some(stats)),
                Err(e) => Err(e),
            };
        law_compact_is_saved(math, v, w, c);
    } else {
        lemma_follow_same(v, w);
    }
}

/// A flush that was not refused and had rows to move leaves all files in the new state, staged
/// rows included.
pub proof fn law_flush_is_saved<M: VectorMath>(
    math: M,
    v: DbView,
    w: DbView,
    r: Result<(), DbError>,
)
    requires
        v.staging.len() > 0,
        crate::state::flush_refusal(v) is None,
        flush_outcome(math, v, w, r),
    ensures
        saved(v, w),
{
    let m = choose|m: DbView| #[trigger] flushed(math, v, m) && settled(math, m, w, (), r);
    law_flush_step_is_saved(math, v, m);
    law_settling_follows(math, m, w, (), r);
    lemma_follow_chain(v, m, w);
}

/// Tombstones change no file but the manifest.
proof fn lemma_tombstone_list_files(v: DbView, ids: Seq<VectorId>)
    ensures
        ({
            let (m, n, stop) = tombstone_list(v, ids);
            &&& m.ops == v.ops
            &&& m.order == v.order
            &&& m.bytes == v.bytes
            &&& n == 0 ==> m == v
            &&& match (v.ivf, m.ivf) {
                (Some(a), Some(b)) => a.centroids == b.centroids,
                (None, None) => true,
                _ => false,
            }
        }),
    decreases ids.len(),
{
    if ids.len() > 0 {
        lemma_tombstone_list_files(v, ids.drop_last());
    }
}

/// A deletion that ran to its end leaves all files in step with the store.
pub proof fn law_delete_follows<M: VectorMath>(
    math: M,
    v: DbView,
    path: Seq<char>,
    w: DbView,
    r: Result<usize, DbError>,
)
    requires
        delete_outcome(math, v, path, w, r),
        tombstone_list(v, list_of(v.postings.by_file, path)).2 is None,
    ensures
        disk_follows(v, w),
{
    if v.read_only {
        lemma_follow_same(v, w);
    } else {
        let ids = list_of(v.postings.by_file, path);
        let (m, n, stop) = tombstone_list(v, ids);
        lemma_tombstone_list_files(v, ids);
        let d = DbView { staging: of_other_files(m.staging, path), ..m };
        let e = if n > 0 {
            d.recorded()
        } else {
            d
        };
        let removed = n + (m.staging.len() - d.staging.len());
        lemma_follow_same(v, d);
        law_manifest_saves(d);
        if n > 0 {
            lemma_follow_chain(v, d, e);
            lemma_saved_follows(v, e);
        }
        law_settling_follows(math, e, w, removed as usize, r);
        lemma_follow_chain(v, e, w);
    }
}

/// A tombstone for a single id is in the files with the state that has it.
pub proof fn law_tombstone_follows<M: VectorMath>(
    math: M,
    v: DbView,
    id: VectorId,
    w: DbView,
    r: Result<bool, DbError>,
)
    requires
        tombstone_outcome(math, v, id, w, r),
    ensures
        disk_follows(v, w),
{
    if v.read_only || v.tombstones.contains(id) || !v.records.contains_key(id) {
        lemma_follow_same(v, w);
    } else {
        let m = v.with_tombstone(id);
        lemma_follow_same(v, m);
        law_manifest_saves(m);
        lemma_follow_chain(v, m, m.recorded());
        lemma_saved_follows(v, m.recorded());
        law_settling_follows(math, m.recorded(), w, true, r);
        lemma_follow_chain(v, m.recorded(), w);
    }
}

proof fn lemma_chunks_files<M: VectorMath>(
    math: M,
    v: DbView,
    path: Seq<char>,
    chunks: Seq<Chunk>,
    w: DbView,
    stop: Option<DbError>,
)
    requires
        chunks_inserted(math, v, path, chunks, w, stop),
    ensures
        files_follow(v, w),
    decreases chunks.len(),
{
    if chunks.len() == 0 {
        lemma_follow_same(v, w);
    } else {
        let (m, before) = choose|m: DbView, before: Option<DbError>|
            chunks_inserted(math, v, path, chunks.drop_last(), m, before)
                && #[trigger] chunk_inserted(math, m, before, path, chunks.last(), w, stop);
        lemma_chunks_files(math, v, path, chunks.drop_last(), m, before);
        if w == m {
        } else {
            law_insert_follows(math, m, chunks.last().row, chunks.last().record, w);
            lemma_follow_chain(v, m, w);
        }
    }
}

/// A replacement that succeeds leaves all files in the new state.
pub proof fn law_replace_is_saved<M: VectorMath>(
    math: M,
    v: DbView,
    path: Seq<char>,
    chunks: Seq<Chunk>,
    w: DbView,
    r: Result<(), DbError>,
)
    requires
        replace_outcome(math, v, path, chunks, w, r),
        r is Ok,
    ensures
        saved(v, w),
{
    let (m, removed) = choose|m: DbView, removed: Result<usize, DbError>| #[trigger]
        delete_outcome(math, v, path, m, removed) && match removed {
            Err(e) => r == Err::<(), DbError>(e) && w == m,
            Ok(_) => refilled(math, m, path, chunks, w, r),
        };
    law_delete_follows(math, v, path, m, removed);
    let (x, stop) = choose|x: DbView, stop: Option<DbError>| #[trigger]
        chunks_inserted(math, m, path, chunks, x, stop) && match stop {
            Some(e) => r == Err::<(), DbError>(e) && w == x,
            None => settled(math, x.recorded(), w, (), r),
        };
    lemma_chunks_files(math, m, path, chunks, x, stop);
    law_manifest_saves(x);
    lemma_follow_chain(v, m, x);
    lemma_follow_chain(v, x, x.recorded());
    law_settling_follows(math, x.recorded(), w, (), r);
    lemma_follow_chain(v, x.recorded(), w);
}

/// Whatever becomes of a deletion, vector file and centroid file stay in step.
pub proof fn law_delete_keeps_files<M: VectorMath>(
    math: M,
    v: DbView,
    path: Seq<char>,
    w: DbView,
    r: Result<usize, DbError>,
)
    requires
        delete_outcome(math, v, path, w, r),
    ensures
        files_follow(v, w),
{
    let ids = list_of(v.postings.by_file, path);
    if v.read_only || tombstone_list(v, ids).2 is Some {
        lemma_tombstone_list_files(v, ids);
        lemma_follow_same(v, w);
    } else {
        law_delete_follows(math, v, path, w, r);
    }
}

/// Whatever becomes of a replacement, vector file and centroid file stay in step.
pub proof fn law_replace_follows<M: VectorMath>(
    math: M,
    v: DbView,
    path: Seq<char>,
    chunks: Seq<Chunk>,
    w: DbView,
    r: Result<(), DbError>,
)
    requires
        replace_outcome(math, v, path, chunks, w, r),
    ensures
        files_follow(v, w),
{
    let (m, removed) = choose|m: DbView, removed: Result<usize, DbError>| #[trigger]
        delete_outcome(math, v, path, m, removed) && match removed {
            Err(e) => r == Err::<(), DbError>(e) && w == m,
            Ok(_) => refilled(math, m, path, chunks, w, r),
        };
    law_delete_keeps_files(math, v, path, m, removed);
    if removed is Ok {
        let (x, stop) = choose|x: DbView, stop: Option<DbError>| #[trigger]
            chunks_inserted(math, m, path, chunks, x, stop) && match stop {
                Some(e) => r == Err::<(), DbError>(e) && w == x,
                None => settled(math, x.recorded(), w, (), r),
            };
        lemma_chunks_files(math, m, path, chunks, x, stop);
        lemma_follow_chain(v, m, x);
        if stop is None {
            law_manifest_saves(x);
            law_settling_follows(math, x.recorded(), w, (), r);
            lemma_follow_chain(v, x, x.recorded());
            lemma_follow_chain(v, x.recorded(), w);
        }
    }
}

/// A reset leaves all files in the state of a new store.
pub proof fn law_reset_is_saved(v: DbView, w: DbView, r: Result<(), DbError>)
    requires
        reset_outcome(v, w, r),
        r is Ok,
    ensures
        saved(v, w),
{
    let first = OpView::ReplaceVectors(Seq::<u8>::empty());
    let a = v.fresh().with_op(first);
    lemma_follow_op(v, first);
    assert(new_ops(v, a) == new_ops(v, v.with_op(first)));
    assert(files_follow(v, a));
    law_manifest_saves(a);
    lemma_follow_chain(v, a, a.recorded());
    lemma_follow_op(a.recorded(), OpView::RemoveCentroids);
    assert(disk_follows(a.recorded(), w));
    lemma_follow_chain(v, a.recorded(), w);
}

/// A store that was reopened: all that it held but the staging tier, which is empty. The centroids
/// of a bucketed index come back as they were where a word has its least significant byte first.
pub open spec fn reopened(v: DbView, w: DbView) -> bool {
    &&& w == (DbView {
        staging: Seq::empty(),
        read_only: w.read_only,
        ops: Seq::empty(),
        ivf: w.ivf,
        ..v
    })
    &&& w.inv() && w.stored() && w.live() == v.live()
    &&& w.ivf is Some <==> v.ivf is Some
    &&& v.order is Little ==> w.ivf == v.ivf
    &&& v.coherent() ==> w.coherent()
    &&& forall|id: VectorId|
        staged(v.staging, id) is None ==> #[trigger] w.fetched(id) == v.fetched(id)
    &&& forall|id: VectorId|
        staged(v.staging, id) is Some && !v.records.contains_key(id) ==> #[trigger] w.fetched(id)
            == Err::<(Seq<u32>, ChunkRecord), DbError>(DbError::MissingMetadata { id })
}

/// These files can be opened, and the store is the one that was.
pub open spec fn reopens(disk: Disk, v: DbView, read_only: bool) -> bool {
    &&& disk.manifest == Some(v.persisted())
    &&& consistent(v.persisted(), disk.vectors.len())
    &&& reopened(v, opened(v.order, v.persisted(), disk.vectors, disk.centroids, read_only))
}

/// A store is reopened as it was closed: from files that hold a state comes that state, with an
/// empty staging tier. The rows of the state have to be what opening a store asks for, and its
/// index to have one centroid for each bucket.
pub proof fn law_reopen(v: DbView, disk: Disk, read_only: bool)
    requires
        v.inv(),
        v.stored(),
        v.index_sized(),
        on_disk(disk, v),
    ensures
        reopens(disk, v, read_only),
{
    let w = opened(v.order, v.persisted(), disk.vectors, disk.centroids, read_only);
    if let Some(index) = v.ivf {
        law_words_of_bytes_of(v.order, index.centroids);
        let n = index.num_buckets as int;
        let d = v.dim as int;
        assert(n * d * 4 == 4 * (n * d)) by (nonlinear_arith);
        assert(w.ivf is Some);
        assert(w.ivf->Some_0.centroids.len() == index.centroids.len());
        if v.order is Little {
            assert(w.ivf->Some_0 =~= index);
        }
    }
    assert(w =~= (DbView {
        staging: Seq::empty(),
        read_only,
        ops: Seq::empty(),
        ivf: w.ivf,
        ..v
    }));
    let m = DbView { ivf: v.ivf, ..w };
    law_same_tier_keeps_order(v, m);
    assert(w.live() =~= v.live());
    assert forall|x: VectorId| w.live().contains(x) implies #[trigger] row_fits(
        w.dim as nat,
        w.offsets,
        w.bytes.len(),
        x,
    ) by {
        assert(row_fits(v.dim as nat, v.offsets, v.bytes.len(), x));
    }
    assert forall|x: VectorId| w.offsets.contains_key(x) implies #[trigger] row_fits(
        w.dim as nat,
        w.offsets,
        w.bytes.len(),
        x,
    ) by {
        assert(row_fits(v.dim as nat, v.offsets, v.bytes.len(), x));
    }
    assert forall|id: VectorId| #[trigger] w.row(id) == v.row(id) by {}
    if v.coherent() {
        assert forall|x: VectorId| w.offsets.contains_key(x) implies #[trigger] row_placed(
            w.dim as nat,
            w.offsets,
            w.bytes.len(),
            x,
        ) by {
            assert(row_placed(v.dim as nat, v.offsets, v.bytes.len(), x));
        }
    }
    assert forall|id: VectorId| staged(v.staging, id) is None implies #[trigger] w.fetched(id)
        == v.fetched(id) by {
        assert(w.row(id) == v.row(id));
    }
}

/// A store that was saved can be opened again, and gives everything back but what was staged: the
/// live rows with their records, the tombstones, the width, the compaction policy and the bucketed
/// index.
pub proof fn law_reopen_after_save(v: DbView, w: DbView, disk: Disk, read_only: bool)
    requires
        w.inv(),
        w.stored(),
        w.index_sized(),
        saved(v, w),
        disk.holds_files(v),
    ensures
        reopens(disk.run(new_ops(v, w)), w, read_only),
{
    let after = disk.run(new_ops(v, w));
    assert(after.holds_manifest(w));
    law_reopen(w, after, read_only);
}

/// What the files of a saved store are opened as: an image of them is not refused, and the store
/// that comes out is the one that was.
pub proof fn law_open_does_not_refuse<M: VectorMath>(
    math: M,
    v: DbView,
    disk: Disk,
    read_only: bool,
    image: DiskImage,
    r: Result<Rek0nDb<M>, DbError>,
)
    requires
        reopens(disk, v, read_only),
        image.order == v.order,
        image.vectors@ == disk.vectors,
        image.centroid_bytes() == disk.centroids,
        image.manifest matches Some(manifest) && manifest.sound() && manifest@ == v.persisted(),
        open_outcome(math, image, read_only, r),
    ensures
        r is Ok,
        reopened(v, r->Ok_0@),
        r->Ok_0@.read_only == read_only,
{
}

/// A store that is opened again after an insertion into the persistent tier holds the new row and
/// every other.
pub proof fn law_reopen_after_insert<M: VectorMath>(
    math: M,
    v: DbView,
    row: Seq<u32>,
    record: ChunkRecord,
    w: DbView,
    r: Result<VectorId, DbError>,
    disk: Disk,
    read_only: bool,
)
    requires
        v.inv(),
        v.stored(),
        v.index_sized(),
        disk.holds_files(v),
        insert_outcome(math, v, row, record, w, r),
        r is Ok,
    ensures
        reopens(disk.run(new_ops(v, w)), w, read_only),
{
    let m = choose|m: DbView| #[trigger] inserted(math, v, row, record, m) && w == m.recorded();
    law_insert_keeps_store(math, v, row, record, m);
    law_recording_keeps_rows(m, w);
    law_insert_is_saved(math, v, row, record, w, r);
    law_reopen_after_save(v, w, disk, read_only);
}

/// A store that is opened again after a flush holds every row, the ones that were staged among
/// them. A flush with nothing staged writes nothing, so there the manifest has to be in step
/// before.
pub proof fn law_reopen_after_flush<M: VectorMath>(
    math: M,
    v: DbView,
    w: DbView,
    r: Result<(), DbError>,
    disk: Disk,
    read_only: bool,
)
    requires
        v.readable(),
        v.stored(),
        v.has_room(0),
        v.index_sized(),
        disk.holds_files(v),
        v.staging.len() == 0 ==> disk.holds_manifest(v),
        flush_outcome(math, v, w, r),
        r is Ok,
    ensures
        reopens(disk.run(new_ops(v, w)), w, read_only),
        w.staging.len() == 0,
        same_rows(v, w),
{
    law_flush_keeps_rows(math, v, w, r);
    if v.staging.len() > 0 {
        law_flush_is_saved(math, v, w, r);
        law_reopen_after_save(v, w, disk, read_only);
    } else {
        lemma_follow_same(v, w);
        law_reopen(w, disk.run(new_ops(v, w)), read_only);
    }
}

/// A store that is opened again after the rows of a file were replaced holds the new rows and
/// those of every other file.
pub proof fn law_reopen_after_replace<M: VectorMath>(
    math: M,
    v: DbView,
    path: Seq<char>,
    chunks: Seq<Chunk>,
    w: DbView,
    r: Result<(), DbError>,
    disk: Disk,
    read_only: bool,
)
    requires
        v.readable(),
        v.stored(),
        v.has_room(chunks.len()),
        v.index_sized(),
        lists_file(v, path),
        ids_are_new(v, chunks.len()),
        v.row_count() <= usize::MAX,
        disk.holds_files(v),
        replace_outcome(math, v, path, chunks, w, r),
        r is Ok,
    ensures
        reopens(disk.run(new_ops(v, w)), w, read_only),
{
    assert(!v.read_only);
    law_replace_swaps_the_file(math, v, path, chunks, w, r);
    law_replace_is_saved(math, v, path, chunks, w, r);
    law_reopen_after_save(v, w, disk, read_only);
}

/// A store that is opened again after a compaction holds every live row, and no tombstone.
pub proof fn law_reopen_after_compact<M: VectorMath>(
    math: M,
    v: DbView,
    w: DbView,
    r: Result<CompactionStats, DbError>,
    disk: Disk,
    read_only: bool,
)
    requires
        v.inv(),
        v.stored(),
        v.has_room(0),
        disk.holds_files(v),
        compact_outcome(math, v, w, r),
        r is Ok,
    ensures
        reopens(disk.run(new_ops(v, w)), w, read_only),
        w.tombstones == Set::<VectorId>::empty(),
        same_rows(v, w),
{
    law_compact_keeps_rows(math, v, w, r);
    law_compact_is_saved(math, v, w, r);
    law_reopen_after_save(v, w, disk, read_only);
}

/// A store that is opened is what opening a store asks for, whatever its files hold.
pub proof fn law_opened_store_is_stored<M: VectorMath>(
    math: M,
    image: DiskImage,
    read_only: bool,
    r: Result<Rek0nDb<M>, DbError>,
)
    requires
        open_outcome(math, image, read_only, r),
        r is Ok,
    ensures
        r->Ok_0@.inv(),
        r->Ok_0@.stored(),
        r->Ok_0@.index_sized(),
        r->Ok_0@.tiers_apart(),
{
    let v = r->Ok_0@;
    r->Ok_0.law_open_store_is_in_order();
    if let Some(index) = v.ivf {
        let n = index.num_buckets as int;
        let d = v.dim as int;
        assert((n * d * 4) / 4 == n * d);
    }
}

/// A new store is coherent and holds nothing, whatever lies in a centroid file; its manifest is on
/// disk once the changes are made that opening it asks for.
pub proof fn law_new_store_is_empty(
    order: ByteOrder,
    centroids: Option<Seq<u8>>,
    read_only: bool,
    disk: Disk,
)
    requires
        disk.vectors == Seq::<u8>::empty(),
    ensures
        ({
            let v = opened(order, Persisted::initial(), disk.vectors, centroids, read_only);
            &&& v.coherent()
            &&& v.row_count() == 0
            &&& on_disk(disk.run(opening_writes(None)), v)
        }),
{
    let v = opened(order, Persisted::initial(), disk.vectors, centroids, read_only);
    assert(v.live() =~= Set::<VectorId>::empty());
    assert(v.records.dom() =~= v.offsets.dom());
    let writes = opening_writes(None);
    assert(writes.drop_last() =~= Seq::<OpView>::empty());
    assert(disk.run(writes.drop_last()) == disk);
    assert(v.persisted() =~= Persisted::initial());
}

/// An append that was not followed by its manifest does no harm: the store opens in the state
/// that the manifest describes, with every row of it.
pub proof fn law_interrupted_append(v: DbView, disk: Disk, more: Seq<u8>, read_only: bool)
    requires
        v.inv(),
        v.aligned(),
        v.stored(),
        v.staging.len() == 0,
        on_disk(disk, v),
        v.bytes.len() + more.len() <= MAX_VECTORS_BYTES,
        more.len() % 4 == 0,
    ensures
        ({
            let after = disk.apply(OpView::AppendVectors(more));
            let w = opened(
                v.order,
                after.manifest->Some_0,
                after.vectors,
                after.centroids,
                read_only,
            );
            &&& consistent(v.persisted(), after.vectors.len())
            &&& same_rows(v, w)
        }),
{
    let after = disk.apply(OpView::AppendVectors(more));
    let w = opened(
        v.order,
        after.manifest->Some_0,
        after.vectors,
        after.centroids,
        read_only,
    );
    assert forall|id: VectorId| v.offsets.contains_key(id) implies #[trigger] row_fits(
        v.dim as nat,
        v.offsets,
        after.vectors.len(),
        id,
    ) by {
        assert(row_fits(v.dim as nat, v.offsets, v.bytes.len(), id));
    }
    assert forall|id: VectorId| #[trigger] w.fetched(id) == v.fetched(id) by {
        assert(w.live().contains(id) <==> v.live().contains(id));
        if v.live().contains(id) {
            assert(row_fits(v.dim as nat, v.offsets, v.bytes.len(), id));
            let from = v.offsets[id] as int / 4;
            lemma_words_prefix(v.order, v.bytes, more);
            assert(w.words().subrange(from, from + v.dim) =~= v.words().subrange(
                from,
                from + v.dim,
            ));
        }
    }
}

proof fn lemma_words_prefix(order: ByteOrder, bytes: Seq<u8>, more: Seq<u8>)
    requires
        bytes.len() % 4 == 0,
    ensures
        forall|i: int|
            0 <= i < words_of(order, bytes).len() ==> #[trigger] words_of(order, bytes + more)[i]
                == words_of(order, bytes)[i],
{
    assert forall|i: int| 0 <= i < words_of(order, bytes).len() implies (
    #[trigger] words_of(order, bytes + more)[i]) == words_of(order, bytes)[i] by {
        assert((bytes + more).subrange(4 * i, 4 * i + 4) =~= bytes.subrange(4 * i, 4 * i + 4));
    }
}

} // verus!
