//! When the vector file is rewritten, what it then holds, and what a new bucketed index holds.

use vstd::prelude::*;

use super::coherence::{
    law_compact_keeps_rows, law_compaction_step_keeps_rows, law_rebuild_keeps_rows, same_rows,
};
use crate::bits::{law_order_of_numbers, law_what_is_not_a_number, spec_ge};
use crate::compact::{ascending, compacted, is_dead_ratio, laid_out};
use crate::ids::lists_set;
use crate::ivf::{built, law_built_index, row_of, scores_best, trained, IvfView, VectorMath};
use crate::postings::list_of;
use crate::state::{
    bucket_settings, chunks_inserted, compact_outcome, compaction_due, compaction_step,
    delete_outcome, flush_outcome, flushed, index_built, maybe_compacted, maybe_compacted_at,
    of_other_files, rebuilt, refilled, replace_outcome, settled, tombstone_list, tombstone_outcome,
    Chunk, DbView, OpView,
};
use crate::types::{
    law_valid_thresholds, CompactionStats, DbError, VectorId, DEFAULT_IVF_BUCKETS,
    DEFAULT_IVF_PROBE,
};
use crate::words::{bytes_of, law_words_of_bytes_of};

verus! {

/// The share has reached the threshold, told by the patterns of both: a share that is a number and
/// not negative, and a threshold between zero and one, or the zero with a sign.
pub open spec fn reaches(ratio: u32, threshold: u32) -> bool {
    ratio <= 0x7f80_0000 && (ratio >= threshold || threshold == 0x8000_0000)
}

proof fn lemma_reaches(ratio: u32, threshold: u32)
    requires
        threshold <= 0x3f80_0000 || threshold == 0x8000_0000,
        ratio < 0x8000_0000,
    ensures
        spec_ge(ratio, threshold) <==> reaches(ratio, threshold),
{
    law_what_is_not_a_number(ratio, threshold);
    if ratio <= 0x7f80_0000 {
        law_order_of_numbers(ratio, threshold);
    }
}

/// Compaction runs exactly where it is due. The share of dead ids is what the arithmetic answers to
/// the number of tombstones and the number of all ids given out so far. Where there is a tombstone
/// and that share has reached the threshold of the policy, no tombstone is left after a success,
/// which says so; where there is none or the share is smaller, nothing happens at all.
pub proof fn law_compaction_runs_when_due<M: VectorMath>(
    math: M,
    v: DbView,
    w: DbView,
    r: Result<Option<CompactionStats>, DbError>,
    ratio: u32,
)
    requires
        v.inv(),
        v.next_id > 0,
        forall|x: u32| #[trigger]
            call_ensures(
                M::ratio,
                (&math, v.tombstones.len() as usize, v.next_id as usize),
                x,
            ) ==> x == ratio,
        ratio < 0x8000_0000,
        maybe_compacted(math, v, w, r),
    ensures
        v.tombstones.len() == 0 || !reaches(ratio, v.policy.dead_ratio_threshold) ==> w == v && r
            == Ok::<Option<CompactionStats>, DbError>(None),
        v.tombstones.len() > 0 && reaches(ratio, v.policy.dead_ratio_threshold) ==> {
            &&& r is Ok ==> r->Ok_0 is Some && forall|id: VectorId| !w.tombstones.contains(id)
            &&& v.read_only ==> r == Err::<Option<CompactionStats>, DbError>(DbError::ReadOnly)
                && w == v
            &&& !v.read_only && v.bytes.len() % 4 == 0 && (v.ivf matches Some(index)
                ==> index.num_buckets > 0) ==> r is Ok
            &&& r matches Ok(Some(stats)) ==> compact_outcome(
                math,
                v,
                w,
                Ok::<CompactionStats, DbError>(stats),
            )
        },
{
    law_valid_thresholds(v.policy);
    lemma_reaches(ratio, v.policy.dead_ratio_threshold);
    let own = choose|own: u32|
        #[trigger] is_dead_ratio(math, v.tombstones.len(), v.next_id as usize, own)
            && maybe_compacted_at(math, own, v, w, r);
    assert(call_ensures(
        M::ratio,
        (&math, v.tombstones.len() as usize, v.next_id as usize),
        own,
    ));
    if compaction_due(ratio, v.policy, v.tombstones.len()) {
        let done = choose|done: Result<CompactionStats, DbError>|
            #[trigger] compact_outcome(math, v, w, done) && r == match done {
                Ok(stats) => Ok(Some(stats)),
                Err(e) => Err(e),
            };
        law_compact_keeps_rows(math, v, w, done);
    }
}

/// A store that gave out no id yet has a share of zero, so that only a threshold of zero is
/// reached.
pub proof fn law_unused_store_is_compacted_at_zero<M: VectorMath>(
    math: M,
    v: DbView,
    w: DbView,
    r: Result<Option<CompactionStats>, DbError>,
)
    requires
        v.inv(),
        v.next_id == 0,
        maybe_compacted(math, v, w, r),
    ensures
        v.tombstones.len() == 0 || !(v.policy.dead_ratio_threshold == 0
            || v.policy.dead_ratio_threshold == 0x8000_0000) ==> w == v && r == Ok::<
            Option<CompactionStats>,
            DbError,
        >(None),
        v.tombstones.len() > 0 && (v.policy.dead_ratio_threshold == 0
            || v.policy.dead_ratio_threshold == 0x8000_0000) && r is Ok ==> r->Ok_0 is Some
            && forall|id: VectorId| !w.tombstones.contains(id),
{
    law_valid_thresholds(v.policy);
    lemma_reaches(0, v.policy.dead_ratio_threshold);
    let own = choose|own: u32|
        #[trigger] is_dead_ratio(math, v.tombstones.len(), v.next_id as usize, own)
            && maybe_compacted_at(math, own, v, w, r);
    if compaction_due(own, v.policy, v.tombstones.len()) {
        let done = choose|done: Result<CompactionStats, DbError>|
            #[trigger] compact_outcome(math, v, w, done) && r == match done {
                Ok(stats) => Ok(Some(stats)),
                Err(e) => Err(e),
            };
        law_compact_keeps_rows(math, v, w, done);
    }
}

/// The arithmetic has one answer to each share.
pub open spec fn one_share_each<M: VectorMath>(math: M) -> bool {
    forall|dead: usize, allocated: usize, x: u32, y: u32| #[trigger]
        call_ensures(M::ratio, (&math, dead, allocated), x) && #[trigger] call_ensures(
            M::ratio,
            (&math, dead, allocated),
            y,
        ) ==> x == y
}

/// No compaction is due: there is no tombstone, or the share of dead ids, where it is a number and
/// not negative, is below the threshold.
pub open spec fn below_threshold<M: VectorMath>(math: M, v: DbView) -> bool {
    v.tombstones.len() == 0 || forall|x: u32| #[trigger]
        call_ensures(M::ratio, (&math, v.tombstones.len() as usize, v.next_id as usize), x) && x
            < 0x8000_0000 ==> !reaches(x, v.policy.dead_ratio_threshold)
}

/// After a change that settles without an error no compaction is due any more, and where none was
/// due before the last step, that step changed nothing.
pub proof fn law_settled_store_is_below_threshold<M: VectorMath, T>(
    math: M,
    v: DbView,
    w: DbView,
    value: T,
    r: Result<T, DbError>,
)
    requires
        v.inv(),
        v.next_id > 0,
        one_share_each(math),
        settled(math, v, w, value, r),
        r is Ok,
    ensures
        below_threshold(math, w),
        r->Ok_0 == value,
        v.tombstones.len() == 0 ==> w == v,
        v.tombstones.len() > 0 && below_threshold(math, v) && (forall|x: u32| #[trigger]
            call_ensures(
                M::ratio,
                (&math, v.tombstones.len() as usize, v.next_id as usize),
                x,
            ) ==> x < 0x8000_0000) ==> w == v,
{
    law_valid_thresholds(v.policy);
    let done = choose|done: Result<Option<CompactionStats>, DbError>|
        #[trigger] maybe_compacted(math, v, w, done) && r == match done {
            Ok(_) => Ok(value),
            Err(e) => Err(e),
        };
    let own = choose|own: u32|
        #[trigger] is_dead_ratio(math, v.tombstones.len(), v.next_id as usize, own)
            && maybe_compacted_at(math, own, v, w, done);
    assert(call_ensures(
        M::ratio,
        (&math, v.tombstones.len() as usize, v.next_id as usize),
        own,
    ));
    if own < 0x8000_0000 {
        lemma_reaches(own, v.policy.dead_ratio_threshold);
    }
    if compaction_due(own, v.policy, v.tombstones.len()) {
        let inner = choose|inner: Result<CompactionStats, DbError>|
            #[trigger] compact_outcome(math, v, w, inner) && done == match inner {
                Ok(stats) => Ok(Some(stats)),
                Err(e) => Err(e),
            };
        law_compact_keeps_rows(math, v, w, inner);
        assert(w.tombstones.len() == 0);
    } else {
        assert(w == v);
        if v.tombstones.len() > 0 {
            assert forall|x: u32| #[trigger]
                call_ensures(
                    M::ratio,
                    (&math, v.tombstones.len() as usize, v.next_id as usize),
                    x,
                ) && x < 0x8000_0000 implies !reaches(x, v.policy.dead_ratio_threshold) by {
                assert(x == own);
            }
        }
    }
}

/// A row that gets its tombstone stays in the vector file while the share of dead ids is below the
/// threshold, and no tombstone is left once it is not.
pub proof fn law_tombstones_accumulate<M: VectorMath>(
    math: M,
    v: DbView,
    id: VectorId,
    w: DbView,
    r: Result<bool, DbError>,
    ratio: u32,
)
    requires
        v.inv(),
        !v.read_only,
        v.next_id > 0,
        v.records.contains_key(id),
        !v.tombstones.contains(id),
        forall|x: u32| #[trigger]
            call_ensures(
                M::ratio,
                (&math, (v.tombstones.len() + 1) as usize, v.next_id as usize),
                x,
            ) ==> x == ratio,
        ratio < 0x8000_0000,
        tombstone_outcome(math, v, id, w, r),
        r is Ok,
    ensures
        r->Ok_0,
        !reaches(ratio, v.policy.dead_ratio_threshold) ==> {
            &&& w.tombstones == v.tombstones.insert(id)
            &&& w.bytes == v.bytes
            &&& w.records == v.records
            &&& w.offsets == v.offsets
        },
        reaches(ratio, v.policy.dead_ratio_threshold) ==> forall|x: VectorId|
            !w.tombstones.contains(x),
{
    let m = v.with_tombstone(id).recorded();
    crate::storage::delete::lemma_tombstone_inv(v, id);
    vstd::set_lib::lemma_len_subset(v.tombstones, v.records.dom());
    assert(m.tombstones.len() == v.tombstones.len() + 1);
    assert(m.live() =~= v.with_tombstone(id).live());
    let done = choose|done: Result<Option<CompactionStats>, DbError>|
        #[trigger] maybe_compacted(math, m, w, done) && r == match done {
            Ok(_) => Ok(true),
            Err(e) => Err(e),
        };
    law_compaction_runs_when_due(math, m, w, done, ratio);
}

/// After a row got its tombstone, after a file was deleted or replaced, and after a flush that had
/// something to move, no compaction is due any more.
pub proof fn law_changes_leave_no_compaction_due<M: VectorMath>(
    math: M,
    v: DbView,
    id: VectorId,
    path: Seq<char>,
    chunks: Seq<Chunk>,
    w: DbView,
)
    requires
        v.readable(),
        v.next_id > 0,
        one_share_each(math),
        super::rows::lists_file(v, path),
        super::rows::ids_are_new(v, chunks.len()),
        v.row_count() <= usize::MAX,
    ensures
        tombstone_outcome(math, v, id, w, Ok::<bool, DbError>(true)) ==> below_threshold(math, w),
        forall|n: usize| #[trigger]
            delete_outcome(math, v, path, w, Ok::<usize, DbError>(n)) ==> below_threshold(math, w),
        replace_outcome(math, v, path, chunks, w, Ok::<(), DbError>(())) ==> below_threshold(
            math,
            w,
        ),
        v.staging.len() > 0 && flush_outcome(math, v, w, Ok::<(), DbError>(()))
            ==> below_threshold(math, w),
{
    if tombstone_outcome(math, v, id, w, Ok::<bool, DbError>(true)) {
        let m = v.with_tombstone(id).recorded();
        crate::storage::delete::lemma_tombstone_inv(v, id);
        assert(m.live() =~= v.with_tombstone(id).live());
        law_settled_store_is_below_threshold(math, m, w, true, Ok::<bool, DbError>(true));
    }
    assert forall|n: usize| #[trigger]
        delete_outcome(math, v, path, w, Ok::<usize, DbError>(n)) implies below_threshold(
        math,
        w,
    ) by {
        lemma_delete_settles(math, v, path, w, n);
    }
    if replace_outcome(math, v, path, chunks, w, Ok::<(), DbError>(())) {
        let r = Ok::<(), DbError>(());
        let (m, removed) = choose|m: DbView, removed: Result<usize, DbError>| #[trigger]
            delete_outcome(math, v, path, m, removed) && match removed {
                Err(e) => r == Err::<(), DbError>(e) && w == m,
                Ok(_) => refilled(math, m, path, chunks, w, r),
            };
        if v.read_only {
            assert(false);
        }
        super::rows::law_delete_removes_the_file(math, v, path, m, removed);
        let (x, stop) = choose|x: DbView, stop: Option<DbError>| #[trigger]
            chunks_inserted(math, m, path, chunks, x, stop) && match stop {
                Some(e) => r == Err::<(), DbError>(e) && w == x,
                None => settled(math, x.recorded(), w, (), r),
            };
        assert(super::rows::ids_are_new(m, chunks.len())) by {
            assert forall|id: VectorId| #[trigger] m.records.contains_key(id) implies id
                < m.next_id || id >= m.next_id + chunks.len() by {
                assert(m.records.dom().contains(id));
                assert(v.records.contains_key(id));
            }
        }
        super::rows::lemma_chunks_inserted(math, m, path, chunks, x, stop);
        super::coherence::law_recording_keeps_rows(x, x.recorded());
        law_settled_store_is_below_threshold(math, x.recorded(), w, (), r);
    }
    if v.staging.len() > 0 && flush_outcome(math, v, w, Ok::<(), DbError>(())) {
        let m = choose|m: DbView| #[trigger]
            flushed(math, v, m) && settled(math, m, w, (), Ok::<(), DbError>(()));
        super::rows::law_flush_step_keeps_rows(math, v, m);
        law_settled_store_is_below_threshold(math, m, w, (), Ok::<(), DbError>(()));
    }
}

proof fn lemma_delete_settles<M: VectorMath>(
    math: M,
    v: DbView,
    path: Seq<char>,
    w: DbView,
    n: usize,
)
    requires
        v.readable(),
        v.next_id > 0,
        one_share_each(math),
        super::rows::lists_file(v, path),
        delete_outcome(math, v, path, w, Ok::<usize, DbError>(n)),
    ensures
        below_threshold(math, w),
{
    let ids = list_of(v.postings.by_file, path);
    assert forall|i: int| 0 <= i < ids.len() implies v.live().contains(#[trigger] ids[i]) by {
        assert(ids.contains(ids[i]));
        assert(crate::postings::listed(v.postings.by_file, path, ids[i]));
    }
    super::rows::lemma_tombstone_list(v, ids);
    let (m, count, stop) = tombstone_list(v, ids);
    super::rows::lemma_drop_staged(m, path);
    let d = DbView { staging: of_other_files(m.staging, path), ..m };
    let e = if count > 0 {
        d.recorded()
    } else {
        d
    };
    super::coherence::law_recording_keeps_rows(d, e);
    let removed = count + (m.staging.len() - d.staging.len());
    law_settled_store_is_below_threshold(
        math,
        e,
        w,
        removed as usize,
        Ok::<usize, DbError>(n),
    );
}

/// What a compaction leaves. Exactly the live rows keep their records and have a place in the new
/// vector file, which holds nothing else: they stand one behind the other in ascending order of
/// their ids and reach to its end. The statistics tell the rows before and after, and by how much
/// the file shrank.
pub proof fn law_compaction_packs_the_live_rows<M: VectorMath>(
    math: M,
    v: DbView,
    w: DbView,
    stats: CompactionStats,
)
    requires
        v.inv(),
        compact_outcome(math, v, w, Ok::<CompactionStats, DbError>(stats)),
    ensures
        !v.read_only,
        forall|id: VectorId| !w.tombstones.contains(id),
        forall|id: VectorId| #[trigger]
            w.records.contains_key(id) <==> v.records.contains_key(id) && !v.tombstones.contains(
                id,
            ),
        forall|id: VectorId| #[trigger]
            w.offsets.contains_key(id) <==> v.records.contains_key(id) && !v.tombstones.contains(
                id,
            ),
        forall|id: VectorId|
            w.records.contains_key(id) ==> #[trigger] w.records[id] == v.records[id] && w.row(id)
                == v.row(id) && w.row(id) is Some,
        w.bytes.len() == 4 * (w.records.len() * v.dim),
        forall|a: VectorId, b: VectorId|
            w.records.contains_key(a) && w.records.contains_key(b) && a < b
                ==> #[trigger] w.offsets[a] + 4 * v.dim <= #[trigger] w.offsets[b],
        forall|a: VectorId|
            w.records.contains_key(a) ==> #[trigger] w.offsets[a] + 4 * v.dim <= w.bytes.len(),
        stats.vectors_before == v.records.len(),
        stats.vectors_after == w.records.len(),
        stats.bytes_reclaimed == if w.bytes.len() <= v.bytes.len() {
            v.bytes.len() - w.bytes.len()
        } else {
            0
        },
        w.staging == v.staging,
        w.next_id == v.next_id,
        w.dim == v.dim,
        w.policy == v.policy,
        w.postings == v.postings,
{
    let settings = bucket_settings(v);
    let (m, own, done) = choose|m: DbView, own: CompactionStats, done: Result<(), DbError>|
        #![trigger compaction_step(v, m, own), rebuilt(math, m, settings.0, settings.1, w, done)]
        {
            &&& compaction_step(v, m, own)
            &&& rebuilt(math, m, settings.0, settings.1, w, done)
            &&& Ok::<CompactionStats, DbError>(stats) == match done {
                Ok(()) => Ok(own),
                Err(e) => Err(e),
            }
        };
    assert(own == stats);
    law_compaction_step_keeps_rows(v, m, stats);
    law_rebuild_keeps_rows(math, m, settings.0, settings.1, w, done);
    let words = choose|words: Seq<u32>|
        {
            &&& #[trigger] compacted(
                v.dim as nat,
                v.live(),
                v.offsets,
                v.words(),
                m.offsets,
                words,
            )
            &&& m == (DbView {
                bytes: bytes_of(v.order, words),
                offsets: m.offsets,
                records: v.records.remove_keys(v.tombstones),
                tombstones: Set::empty(),
                ..v
            }).with_op(OpView::ReplaceVectors(bytes_of(v.order, words))).recorded()
            &&& stats.vectors_before == v.records.len()
            &&& stats.vectors_after == v.live().len()
            &&& stats.bytes_reclaimed == if words.len() <= v.words().len() {
                4 * (v.words().len() - words.len())
            } else {
                0
            }
        };
    let ids = choose|ids: Seq<VectorId>|
        #[trigger] ascending(ids, v.live()) && laid_out(
            v.dim as nat,
            ids,
            v.offsets,
            v.words(),
            m.offsets,
            words,
        );
    law_words_of_bytes_of(v.order, words);
    crate::storage::lemma_listed_len(ids, v.live());
    assert(w.records.dom() =~= v.live());
    assert(v.words().len() * 4 == v.bytes.len());
    assert forall|id: VectorId| #[trigger] w.offsets.contains_key(id) <==> v.live().contains(
        id,
    ) by {
        assert(ids.to_set().contains(id) <==> ids.contains(id));
    }
    assert forall|id: VectorId| w.records.contains_key(id) implies #[trigger] w.records[id]
        == v.records[id] && w.row(id) == v.row(id) && w.row(id) is Some by {
        assert(ids.contains(id));
        let i = choose|i: int| 0 <= i < ids.len() && ids[i] == id;
        assert(ids[i] == id);
        assert(w.words() == words);
    }
    let d = v.dim as int;
    assert forall|a: VectorId, b: VectorId|
        w.records.contains_key(a) && w.records.contains_key(b) && a < b implies #[trigger] w.offsets[a]
        + 4 * v.dim <= #[trigger] w.offsets[b] by {
        assert(ids.contains(a) && ids.contains(b));
        let i = choose|i: int| 0 <= i < ids.len() && ids[i] == a;
        let j = choose|j: int| 0 <= j < ids.len() && ids[j] == b;
        if j < i {
            assert(ids[j] < ids[i]);
        }
        assert(w.offsets[ids[i]] == 4 * (i * v.dim));
        assert(w.offsets[ids[j]] == 4 * (j * v.dim));
        assert(i * d + d <= j * d) by (nonlinear_arith)
            requires
                d > 0,
                i < j,
        ;
    }
    assert forall|a: VectorId| w.records.contains_key(a) implies #[trigger] w.offsets[a] + 4 * v.dim
        <= w.bytes.len() by {
        assert(ids.contains(a));
        let i = choose|i: int| 0 <= i < ids.len() && ids[i] == a;
        let n = ids.len() as int;
        assert(w.offsets[ids[i]] == 4 * (i * v.dim));
        assert(i * d + d <= n * d) by (nonlinear_arith)
            requires
                d > 0,
                i < n,
        ;
    }
}

/// A compaction keeps the settings of the bucketed index, or takes the default ones where there was
/// none, and has an index exactly where the live rows are enough for its buckets. Its files are
/// written in this order: the vectors, the manifest, the centroids or their removal, and the
/// manifest again.
pub proof fn law_compaction_keeps_the_bucket_settings<M: VectorMath>(
    math: M,
    v: DbView,
    w: DbView,
    stats: CompactionStats,
)
    requires
        v.inv(),
        compact_outcome(math, v, w, Ok::<CompactionStats, DbError>(stats)),
    ensures
        v.ivf matches Some(index) ==> {
            &&& w.ivf is Some <==> w.records.len() >= index.num_buckets
            &&& w.ivf matches Some(next) ==> next.num_buckets == index.num_buckets
                && next.probe_buckets == index.probe_buckets
        },
        v.ivf is None ==> {
            &&& w.ivf is Some <==> w.records.len() >= DEFAULT_IVF_BUCKETS
            &&& w.ivf matches Some(next) ==> next.num_buckets == DEFAULT_IVF_BUCKETS
                && next.probe_buckets == DEFAULT_IVF_PROBE
        },
        w.ops.len() == v.ops.len() + 4,
        w.ops.take(v.ops.len() as int) == v.ops,
        w.ops[v.ops.len() as int] == OpView::ReplaceVectors(w.bytes),
        w.ops[v.ops.len() as int + 1] matches OpView::WriteManifest(manifest) && manifest.offsets
            == w.offsets && manifest.records == w.records && manifest.tombstones == w.tombstones,
        match w.ivf {
            Some(index) => w.ops[v.ops.len() as int + 2] == OpView::WriteCentroids(
                bytes_of(v.order, index.centroids),
            ),
            None => w.ops[v.ops.len() as int + 2] == OpView::RemoveCentroids,
        },
        w.ops[v.ops.len() as int + 3] == OpView::WriteManifest(w.persisted()),
{
    let settings = bucket_settings(v);
    let (m, own, done) = choose|m: DbView, own: CompactionStats, done: Result<(), DbError>|
        #![trigger compaction_step(v, m, own), rebuilt(math, m, settings.0, settings.1, w, done)]
        {
            &&& compaction_step(v, m, own)
            &&& rebuilt(math, m, settings.0, settings.1, w, done)
            &&& Ok::<CompactionStats, DbError>(stats) == match done {
                Ok(()) => Ok(own),
                Err(e) => Err(e),
            }
        };
    law_compaction_step_keeps_rows(v, m, own);
    law_rebuild_keeps_rows(math, m, settings.0, settings.1, w, done);
    assert(m.live() =~= v.live());
    assert(w.records.dom() =~= m.live());
    if m.live().len() >= settings.0 {
        assert(index_built(math, m, settings.0, settings.1, w));
    }
    assert(w.ops.take(v.ops.len() as int) =~= v.ops);
}

/// What building an index does: it is refused where the store is open for reading, where the
/// vector file holds no whole number of words, and for no bucket at all; with fewer live rows than
/// buckets there is no index afterwards; and otherwise there is one with the buckets asked for, in
/// which every live row, and nothing else, has the bucket whose centroid scores best for it. No row
/// changes.
pub proof fn law_building_an_index<M: VectorMath>(
    math: M,
    v: DbView,
    num_buckets: usize,
    probe_buckets: usize,
    w: DbView,
    r: Result<(), DbError>,
)
    requires
        v.inv(),
        rebuilt(math, v, num_buckets, probe_buckets, w, r),
    ensures
        v.read_only ==> r == Err::<(), DbError>(DbError::ReadOnly) && w == v,
        !v.read_only && v.live().len() < num_buckets ==> r is Ok && w.ivf is None,
        !v.read_only && v.live().len() >= num_buckets && v.bytes.len() % 4 != 0 ==> r == Err::<
            (),
            DbError,
        >(DbError::InvalidVectorBytes { len: v.bytes.len() as usize }) && w == v,
        !v.read_only && num_buckets == 0 && v.bytes.len() % 4 == 0 ==> r == Err::<(), DbError>(
            DbError::InvalidIvfBucketCount,
        ) && w == v,
        !v.read_only && 0 < num_buckets <= v.live().len() && v.bytes.len() % 4 == 0 ==> r is Ok && (
        w.ivf matches Some(index) && {
            &&& index.num_buckets == num_buckets
            &&& index.probe_buckets == probe_buckets
            &&& index.centroids.len() == num_buckets * v.dim
            &&& forall|id: VectorId| #[trigger]
                index.assignments.contains_key(id) <==> v.records.contains_key(id)
                    && !v.tombstones.contains(id)
            &&& forall|id: VectorId|
                v.live().contains(id) ==> (#[trigger] index.assignments[id]) < num_buckets
                    && scores_best(
                    math,
                    v.row(id)->Some_0,
                    index.centroids,
                    v.dim as nat,
                    num_buckets as nat,
                    index.assignments[id],
                )
            &&& exists|ids: Seq<VectorId>| #[trigger]
                lists_set(ids, v.live()) && trained(
                    math,
                    num_buckets as nat,
                    v.dim as nat,
                    Seq::new(ids.len(), |i: int| v.row(ids[i])->Some_0),
                    index.centroids,
                )
        }),
        same_rows(v, w),
        w.bytes == v.bytes,
        w.records == v.records,
        w.tombstones == v.tombstones,
        w.staging == v.staging,
        w.next_id == v.next_id,
        r is Err ==> w == v,
        r is Ok ==> w.ops == v.ops + seq![
            match w.ivf {
                Some(index) => OpView::WriteCentroids(bytes_of(v.order, index.centroids)),
                None => OpView::RemoveCentroids,
            },
            OpView::WriteManifest(w.persisted()),
        ],
{
    law_rebuild_keeps_rows(math, v, num_buckets, probe_buckets, w, r);
    assert(v.live().len() >= 0);
    if r is Ok {
        assert(w.ops =~= v.ops + seq![
            match w.ivf {
                Some(index) => OpView::WriteCentroids(bytes_of(v.order, index.centroids)),
                None => OpView::RemoveCentroids,
            },
            OpView::WriteManifest(w.persisted()),
        ]);
    }
    if !v.read_only && 0 < num_buckets <= v.live().len() && v.bytes.len() % 4 == 0 {
        assert(v.aligned());
        let (ids, index) = choose|ids: Seq<VectorId>, index: IvfView|
            #![trigger lists_set(ids, v.live()), built(math, num_buckets, probe_buckets, v.dim as nat, v.words(), v.offsets, ids, index)]
            {
                &&& lists_set(ids, v.live())
                &&& built(
                    math,
                    num_buckets,
                    probe_buckets,
                    v.dim as nat,
                    v.words(),
                    v.offsets,
                    ids,
                    index,
                )
                &&& w == (DbView { ivf: Some(index), ..v }).with_op(
                    OpView::WriteCentroids(bytes_of(v.order, index.centroids)),
                ).recorded()
            };
        law_built_index(
            math,
            num_buckets,
            probe_buckets,
            v.dim as nat,
            v.words(),
            v.offsets,
            ids,
            index,
        );
        assert(w.ivf == Some(index));
        assert forall|id: VectorId| #[trigger] index.assignments.contains_key(id)
            <==> v.records.contains_key(id) && !v.tombstones.contains(id) by {
            assert(ids.contains(id) <==> v.live().contains(id));
        }
        assert forall|id: VectorId| v.live().contains(id) implies (
        #[trigger] index.assignments[id]) < num_buckets && scores_best(
            math,
            v.row(id)->Some_0,
            index.centroids,
            v.dim as nat,
            num_buckets as nat,
            index.assignments[id],
        ) by {
            assert(ids.contains(id));
        }
        assert(Seq::new(ids.len(), |i: int| v.row(ids[i])->Some_0) =~= Seq::new(
            ids.len(),
            |i: int| row_of(v.words(), v.dim as nat, v.offsets, ids[i])->Some_0,
        ));
    }
}

} // verus!
