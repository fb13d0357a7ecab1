//! Runs of calls: what every one of them keeps, and what a store holds after it.

use vstd::prelude::*;

use super::coherence::{
    law_compact_keeps_rows, law_placed_rows_are_stored, law_rebuild_keeps_rows,
    law_recording_keeps_rows, law_settling_keeps_rows, law_width_change_keeps_coherence,
    law_width_change_keeps_rows, lemma_compact_keeps_tiers, same_frame, same_rows,
};
use super::durability::{
    files_follow, law_compact_is_saved, law_delete_keeps_files, law_flush_is_saved,
    law_insert_is_saved, law_rebuild_is_saved, law_reopen_after_save, law_replace_follows,
    law_replace_is_saved, law_reset_is_saved, law_settling_follows, law_tombstone_follows,
    lemma_follow_same, lemma_run_concat, new_ops, reopens, saved,
};
use super::rows::{
    ids_are_new, law_clear_staging_hides_staged_rows, law_delete_removes_the_file,
    law_every_file_is_listed, law_flush_keeps_rows, law_get, law_insert_persistent_then_get,
    law_replace_swaps_the_file, law_reset_is_empty, law_rows_are_counted, law_stage_then_get,
    law_tombstone_then_get, nth_id, staged_elsewhere,
};
use crate::compact::is_dead_ratio;
use crate::ivf::VectorMath;
use crate::manifest::Persisted;
use crate::postings::list_of;
use crate::state::{
    appended, chunk_inserted, chunks_inserted, clear_outcome, compact_outcome, compaction_due,
    delete_outcome, flush_outcome, flush_refusal, flushed, insert_outcome, maybe_compacted,
    maybe_compacted_at, of_other_files, rebuilt, refilled, replace_outcome, reset_outcome,
    rows_appended, settled, stage_outcome, staged, tombstone_list, tombstone_outcome, Chunk,
    DbView, Disk, Staged,
};
use crate::storage::open::opened;
use crate::types::{ChunkRecord, CompactionPolicy, CompactionStats, DbError, VectorId};
use crate::words::{law_bytes_of_words_of, ByteOrder};

verus! {

/// A call that may change a store.
pub enum Call {
    InsertStaging { row: Seq<u32>, record: ChunkRecord },
    InsertPersistent { row: Seq<u32>, record: ChunkRecord },
    ReplaceFile { path: Seq<char>, chunks: Seq<Chunk> },
    ClearStaging,
    FlushToDisk,
    DeleteByFilePath { path: Seq<char> },
    Tombstone { id: VectorId },
    Compact,
    MaybeCompact,
    BuildIvfIndex { num_buckets: usize, probe_buckets: usize },
    Reset,
    WithDim { dim: usize },
    WithCompactionPolicy { policy: CompactionPolicy },
    TakeOps,
}

/// The error of a call, if it returns one.
pub open spec fn error_of<T>(r: Result<T, DbError>) -> Option<DbError> {
    match r {
        Ok(_) => None,
        Err(e) => Some(e),
    }
}

/// A call takes a store from one state to another, with or without an error.
pub open spec fn call_outcome<M: VectorMath>(
    math: M,
    v: DbView,
    call: Call,
    w: DbView,
    error: Option<DbError>,
) -> bool {
    match call {
        Call::InsertStaging { row, record } => exists|r: Result<VectorId, DbError>|
            #[trigger] stage_outcome(v, row, record, w, r) && error == error_of(r),
        Call::InsertPersistent { row, record } => exists|r: Result<VectorId, DbError>|
            #[trigger] insert_outcome(math, v, row, record, w, r) && error == error_of(r),
        Call::ReplaceFile { path, chunks } => exists|r: Result<(), DbError>|
            #[trigger] replace_outcome(math, v, path, chunks, w, r) && error == error_of(r),
        Call::ClearStaging => exists|r: Result<(), DbError>|
            #[trigger] clear_outcome(v, w, r) && error == error_of(r),
        Call::FlushToDisk => exists|r: Result<(), DbError>|
            #[trigger] flush_outcome(math, v, w, r) && error == error_of(r),
        Call::DeleteByFilePath { path } => exists|r: Result<usize, DbError>|
            #[trigger] delete_outcome(math, v, path, w, r) && error == error_of(r),
        Call::Tombstone { id } => exists|r: Result<bool, DbError>|
            #[trigger] tombstone_outcome(math, v, id, w, r) && error == error_of(r),
        Call::Compact => exists|r: Result<CompactionStats, DbError>|
            #[trigger] compact_outcome(math, v, w, r) && error == error_of(r),
        Call::MaybeCompact => exists|r: Result<Option<CompactionStats>, DbError>|
            #[trigger] maybe_compacted(math, v, w, r) && error == error_of(r),
        Call::BuildIvfIndex { num_buckets, probe_buckets } => exists|r: Result<(), DbError>|
            #[trigger] rebuilt(math, v, num_buckets, probe_buckets, w, r) && error == error_of(r),
        Call::Reset => exists|r: Result<(), DbError>|
            #[trigger] reset_outcome(v, w, r) && error == error_of(r),
        Call::WithDim { dim } => {
            &&& dim > 0
            &&& dim == v.dim || v.row_count() == 0
            &&& error is None
            &&& w == (DbView { dim, ..v })
        },
        Call::WithCompactionPolicy { policy } => policy.valid() && error is None && w == (DbView {
            policy,
            ..v
        }),
        Call::TakeOps => error is None && w == (DbView { ops: Seq::empty(), ..v }),
    }
}

/// The call changes rows, files or index, so that a store that is open for reading refuses it.
pub open spec fn writes(call: Call) -> bool {
    &&& call !is MaybeCompact
    &&& call !is WithDim
    &&& call !is WithCompactionPolicy
    &&& call !is TakeOps
}

/// A store that is open for reading never changes: every call that writes is refused with
/// `ReadOnly`, a compaction that is not due is none, and the store is as before.
pub proof fn law_read_only_store_is_never_written<M: VectorMath>(
    math: M,
    v: DbView,
    call: Call,
    w: DbView,
    error: Option<DbError>,
)
    requires
        v.read_only,
        call_outcome(math, v, call, w, error),
    ensures
        writes(call) ==> error == Some(DbError::ReadOnly) && w == v,
        call is MaybeCompact ==> w == v && (error is None || error == Some(DbError::ReadOnly)),
{
    match call {
        Call::ReplaceFile { path, chunks } => {
            let r = choose|r: Result<(), DbError>|
                #[trigger] replace_outcome(math, v, path, chunks, w, r) && error == error_of(r);
        },
        _ => {},
    }
}

/// The call leaves width, places and index as they fit each other. Another width does so where no
/// stored row that carries a tombstone has to fit it, nor a bucketed index.
pub open spec fn keeps_places(v: DbView, call: Call) -> bool {
    call matches Call::WithDim { dim } ==> {
        &&& v.ivf is None || dim == v.dim
        &&& dim <= v.dim || v.records.dom() == Set::<VectorId>::empty()
    }
}

/// Every call, refused or not, keeps the rows of a store in order: they can be read, ids to come
/// are new, and the posting lists by file name exactly the live rows. It keeps a coherent store
/// coherent, so its vector file within the limit.
pub proof fn law_call_keeps_order<M: VectorMath>(
    math: M,
    v: DbView,
    call: Call,
    w: DbView,
    error: Option<DbError>,
)
    requires
        v.regular(),
        call_outcome(math, v, call, w, error),
    ensures
        w.regular(),
        w.read_only == v.read_only,
        v.coherent() && keeps_places(v, call) ==> w.coherent(),
{
    if v.read_only {
        law_read_only_store_is_never_written(math, v, call, w, error);
    }
    lemma_room_to_count(v);
    match call {
        Call::InsertStaging { row, record } => {
            let r = choose|r: Result<VectorId, DbError>|
                #[trigger] stage_outcome(v, row, record, w, r) && error == error_of(r);
            if r is Ok {
                law_stage_then_get(v, row, record, w, r);
            }
        },
        Call::InsertPersistent { row, record } => {
            let r = choose|r: Result<VectorId, DbError>|
                #[trigger] insert_outcome(math, v, row, record, w, r) && error == error_of(r);
            if r is Ok {
                law_insert_persistent_then_get(math, v, row, record, w, r);
            }
        },
        Call::ReplaceFile { path, chunks } => {
            let r = choose|r: Result<(), DbError>|
                #[trigger] replace_outcome(math, v, path, chunks, w, r) && error == error_of(r);
            if !v.read_only {
                law_every_file_is_listed(v, path);
                law_replace_swaps_the_file(math, v, path, chunks, w, r);
            }
        },
        Call::ClearStaging => {
            law_clear_staging_hides_staged_rows(v);
        },
        Call::FlushToDisk => {
            let r = choose|r: Result<(), DbError>|
                #[trigger] flush_outcome(math, v, w, r) && error == error_of(r);
            if flush_refusal(v) is None {
                law_flush_keeps_rows(math, v, w, r);
            }
        },
        Call::DeleteByFilePath { path } => {
            let r = choose|r: Result<usize, DbError>|
                #[trigger] delete_outcome(math, v, path, w, r) && error == error_of(r);
            if !v.read_only {
                law_every_file_is_listed(v, path);
                law_delete_removes_the_file(math, v, path, w, r);
            }
        },
        Call::Tombstone { id } => {
            let r = choose|r: Result<bool, DbError>|
                #[trigger] tombstone_outcome(math, v, id, w, r) && error == error_of(r);
            if !v.read_only && v.live().contains(id) {
                law_tombstone_then_get(math, v, id, w, r);
            }
        },
        Call::Compact => {
            let r = choose|r: Result<CompactionStats, DbError>|
                #[trigger] compact_outcome(math, v, w, r) && error == error_of(r);
            law_compact_keeps_rows(math, v, w, r);
            lemma_compact_keeps_tiers(math, v, w, r);
        },
        Call::MaybeCompact => {
            lemma_maybe_compacted_settles(math, v, w, error);
        },
        Call::BuildIvfIndex { num_buckets, probe_buckets } => {
            let r = choose|r: Result<(), DbError>|
                #[trigger] rebuilt(math, v, num_buckets, probe_buckets, w, r) && error == error_of(
                    r,
                );
            law_rebuild_keeps_rows(math, v, num_buckets, probe_buckets, w, r);
        },
        Call::Reset => {
            if !v.read_only {
                law_reset_is_empty(v);
                law_recording_keeps_rows(v.fresh(), w);
            }
        },
        Call::WithDim { dim } => {
            law_width_change_keeps_rows(v, dim);
            if v.coherent() && keeps_places(v, call) {
                law_width_change_keeps_coherence(v, dim);
            }
        },
        Call::WithCompactionPolicy { policy } => {
            law_recording_keeps_rows(v, w);
        },
        Call::TakeOps => {
            law_recording_keeps_rows(v, w);
        },
    }
}

/// Ids leave room to count the rows.
proof fn lemma_room_to_count(v: DbView)
    requires
        v.regular(),
    ensures
        v.row_count() <= usize::MAX,
        !v.records.contains_key(v.next_id),
        forall|n: nat| #[trigger] ids_are_new(v, n),
{
    law_rows_are_counted(v);
}

proof fn lemma_maybe_compacted_settles<M: VectorMath>(
    math: M,
    v: DbView,
    w: DbView,
    error: Option<DbError>,
)
    requires
        v.regular(),
        call_outcome(math, v, Call::MaybeCompact, w, error),
    ensures
        w.regular(),
        v.coherent() ==> w.coherent(),
        same_rows(v, w),
        same_frame(v, w),
{
    let done = choose|done: Result<Option<CompactionStats>, DbError>|
        #[trigger] maybe_compacted(math, v, w, done) && error == error_of(done);
    let r: Result<(), DbError> = match done {
        Ok(_) => Ok(()),
        Err(e) => Err(e),
    };
    assert(settled(math, v, w, (), r));
    law_settling_keeps_rows(math, v, w, (), r);
}

/// A row as it was given to the store, and the tier that it is in.
pub struct Entry {
    pub row: Seq<u32>,
    pub record: ChunkRecord,
    pub staged: bool,
}

/// What a store holds, as its users see it.
#[verifier::ext_equal]
pub struct Contents {
    pub dim: usize,
    pub next_id: VectorId,
    pub rows: Map<VectorId, Entry>,
}

pub open spec fn entry_of(v: DbView, id: VectorId) -> Entry {
    Entry {
        row: v.fetched(id)->Ok_0.0,
        record: v.fetched(id)->Ok_0.1,
        staged: staged(v.staging, id) is Some,
    }
}

/// What the store in this state holds.
pub open spec fn contents(v: DbView) -> Contents {
    Contents {
        dim: v.dim,
        next_id: v.next_id,
        rows: Map::new(|id: VectorId| v.fetched(id) is Ok, |id: VectorId| entry_of(v, id)),
    }
}

/// The rows of all other files.
pub open spec fn without_file(rows: Map<VectorId, Entry>, path: Seq<char>) -> Map<
    VectorId,
    Entry,
> {
    Map::new(
        |id: VectorId| rows.contains_key(id) && rows[id].record.file_path@ != path,
        |id: VectorId| rows[id],
    )
}

/// New rows of the persistent tier, under ids from `first` on.
pub open spec fn with_chunks(
    rows: Map<VectorId, Entry>,
    first: VectorId,
    chunks: Seq<Chunk>,
) -> Map<VectorId, Entry> {
    Map::new(
        |id: VectorId| rows.contains_key(id) || first <= id < first + chunks.len(),
        |id: VectorId|
            if first <= id < first + chunks.len() {
                Entry {
                    row: chunks[id - first].row,
                    record: chunks[id - first].record,
                    staged: false,
                }
            } else {
                rows[id]
            },
    )
}

/// What a store holds after a call that succeeds.
pub open spec fn contents_after(c: Contents, call: Call) -> Contents {
    match call {
        Call::InsertStaging { row, record } => Contents {
            next_id: (c.next_id + 1) as VectorId,
            rows: c.rows.insert(c.next_id, Entry { row, record, staged: true }),
            ..c
        },
        Call::InsertPersistent { row, record } => Contents {
            next_id: (c.next_id + 1) as VectorId,
            rows: c.rows.insert(c.next_id, Entry { row, record, staged: false }),
            ..c
        },
        Call::ReplaceFile { path, chunks } => Contents {
            next_id: (c.next_id + chunks.len()) as VectorId,
            rows: with_chunks(without_file(c.rows, path), c.next_id, chunks),
            ..c
        },
        Call::ClearStaging => Contents {
            rows: Map::new(
                |id: VectorId| c.rows.contains_key(id) && !c.rows[id].staged,
                |id: VectorId| c.rows[id],
            ),
            ..c
        },
        Call::FlushToDisk => Contents {
            rows: Map::new(
                |id: VectorId| c.rows.contains_key(id),
                |id: VectorId| Entry { staged: false, ..c.rows[id] },
            ),
            ..c
        },
        Call::DeleteByFilePath { path } => Contents { rows: without_file(c.rows, path), ..c },
        Call::Tombstone { id } => Contents { rows: c.rows.remove(id), ..c },
        Call::WithDim { dim } => Contents { dim, ..c },
        Call::Reset => Contents {
            dim: Persisted::initial().dim,
            next_id: Persisted::initial().next_id,
            rows: Map::empty(),
        },
        _ => c,
    }
}

/// A call that succeeds does to the contents of a store what it says, and nothing else.
pub proof fn law_call_changes_the_contents<M: VectorMath>(
    math: M,
    v: DbView,
    call: Call,
    w: DbView,
)
    requires
        v.regular(),
        call_outcome(math, v, call, w, None),
    ensures
        contents(w) == contents_after(contents(v), call),
{
    let error = None::<DbError>;
    if v.read_only {
        law_read_only_store_is_never_written(math, v, call, w, error);
    }
    law_call_keeps_order(math, v, call, w, error);
    lemma_room_to_count(v);
    let c = contents(w);
    let d = contents_after(contents(v), call);
    match call {
        Call::InsertStaging { row, record } => {
            let r = choose|r: Result<VectorId, DbError>|
                #[trigger] stage_outcome(v, row, record, w, r) && error == error_of(r);
            law_stage_then_get(v, row, record, w, r);
            assert(w.staging.drop_last() =~= v.staging);
            assert(c.rows =~= d.rows);
        },
        Call::InsertPersistent { row, record } => {
            let r = choose|r: Result<VectorId, DbError>|
                #[trigger] insert_outcome(math, v, row, record, w, r) && error == error_of(r);
            law_insert_persistent_then_get(math, v, row, record, w, r);
            law_get(w, v.next_id);
            assert(c.rows =~= d.rows);
        },
        Call::ReplaceFile { path, chunks } => {
            let r = choose|r: Result<(), DbError>|
                #[trigger] replace_outcome(math, v, path, chunks, w, r) && error == error_of(r);
            lemma_replace_contents(math, v, path, chunks, w, r);
        },
        Call::ClearStaging => {
            law_clear_staging_hides_staged_rows(v);
            assert(c.rows =~= d.rows);
        },
        Call::FlushToDisk => {
            let r = choose|r: Result<(), DbError>|
                #[trigger] flush_outcome(math, v, w, r) && error == error_of(r);
            law_flush_keeps_rows(math, v, w, r);
            assert(c.rows =~= d.rows);
        },
        Call::DeleteByFilePath { path } => {
            let r = choose|r: Result<usize, DbError>|
                #[trigger] delete_outcome(math, v, path, w, r) && error == error_of(r);
            law_every_file_is_listed(v, path);
            law_delete_removes_the_file(math, v, path, w, r);
            assert forall|id: VectorId| c.rows.contains_key(id) implies c.rows[id]
                == d.rows[id] by {
                assert(staged(w.staging, id) == staged_elsewhere(v.staging, path, id));
            }
            assert(c.rows =~= d.rows);
        },
        Call::Tombstone { id } => {
            let r = choose|r: Result<bool, DbError>|
                #[trigger] tombstone_outcome(math, v, id, w, r) && error == error_of(r);
            if v.live().contains(id) {
                law_tombstone_then_get(math, v, id, w, r);
            } else {
                law_get(v, id);
            }
            assert(c.rows =~= d.rows);
        },
        Call::Compact => {
            let r = choose|r: Result<CompactionStats, DbError>|
                #[trigger] compact_outcome(math, v, w, r) && error == error_of(r);
            law_compact_keeps_rows(math, v, w, r);
            assert(c.rows =~= d.rows);
        },
        Call::MaybeCompact => {
            lemma_maybe_compacted_settles(math, v, w, error);
            assert(c.rows =~= d.rows);
        },
        Call::BuildIvfIndex { num_buckets, probe_buckets } => {
            let r = choose|r: Result<(), DbError>|
                #[trigger] rebuilt(math, v, num_buckets, probe_buckets, w, r) && error == error_of(
                    r,
                );
            law_rebuild_keeps_rows(math, v, num_buckets, probe_buckets, w, r);
            assert(c.rows =~= d.rows);
        },
        Call::Reset => {
            law_reset_is_empty(v);
            assert forall|id: VectorId| w.fetched(id) is Err by {
                assert(v.fresh().fetched(id) is Err);
                law_get(w, id);
            }
            assert(c.rows =~= d.rows);
        },
        Call::WithDim { dim } => {
            law_width_change_keeps_rows(v, dim);
            assert(c.rows =~= d.rows);
        },
        Call::WithCompactionPolicy { policy } => {
            law_recording_keeps_rows(v, w);
            assert(c.rows =~= d.rows);
        },
        Call::TakeOps => {
            law_recording_keeps_rows(v, w);
            assert(c.rows =~= d.rows);
        },
    }
}

/// An id that stands for a row was given out.
proof fn lemma_row_id(v: DbView, id: VectorId)
    requires
        v.readable(),
        v.ids_below(),
    ensures
        v.fetched(id) is Ok ==> id < v.next_id,
{
    law_get(v, id);
}

proof fn lemma_replace_contents<M: VectorMath>(
    math: M,
    v: DbView,
    path: Seq<char>,
    chunks: Seq<Chunk>,
    w: DbView,
    r: Result<(), DbError>,
)
    requires
        v.regular(),
        !v.read_only,
        replace_outcome(math, v, path, chunks, w, r),
        r is Ok,
    ensures
        contents(w) == contents_after(contents(v), Call::ReplaceFile { path, chunks }),
{
    lemma_room_to_count(v);
    law_every_file_is_listed(v, path);
    law_replace_swaps_the_file(math, v, path, chunks, w, r);
    let c = contents(w);
    let d = contents_after(contents(v), Call::ReplaceFile { path, chunks });
    assert forall|id: VectorId| c.rows.contains_key(id) <==> d.rows.contains_key(id) by {
        law_get(v, id);
        law_get(w, id);
        lemma_row_id(v, id);
        if v.next_id <= id < w.next_id {
            assert(nth_id(v, id - v.next_id) == id);
        }
    }
    assert forall|id: VectorId| c.rows.contains_key(id) implies c.rows[id] == d.rows[id] by {
        law_get(w, id);
        law_get(v, id);
        lemma_row_id(v, id);
        lemma_row_id(w, id);
        assert(staged(w.staging, id) == staged_elsewhere(v.staging, path, id));
        if v.next_id <= id {
            assert(nth_id(v, id - v.next_id) == id);
        }
    }
    assert(c.rows =~= d.rows);
}

/// A run of calls: the states between them and the error of each.
pub struct Run {
    pub calls: Seq<Call>,
    pub states: Seq<DbView>,
    pub errors: Seq<Option<DbError>>,
}

impl Run {
    /// The `i`th call leads from the state before it to the state after it.
    pub open spec fn steps<M: VectorMath>(self, math: M, i: int) -> bool {
        call_outcome(math, self.states[i], self.calls[i], self.states[i + 1], self.errors[i])
    }

    pub open spec fn valid<M: VectorMath>(self, math: M) -> bool {
        &&& self.states.len() == self.calls.len() + 1
        &&& self.errors.len() == self.calls.len()
        &&& forall|i: int| 0 <= i < self.calls.len() ==> #[trigger] self.steps(math, i)
    }

    /// No call of the run returned an error.
    pub open spec fn succeeds(self) -> bool {
        forall|i: int| 0 <= i < self.errors.len() ==> (#[trigger] self.errors[i]) is None
    }
}

/// The rows of a store stay in order through every run of calls.
pub proof fn law_run_keeps_order<M: VectorMath>(math: M, run: Run, i: int)
    requires
        run.valid(math),
        run.states[0].regular(),
        0 <= i <= run.calls.len(),
    ensures
        run.states[i].regular(),
    decreases i,
{
    if i > 0 {
        law_run_keeps_order(math, run, i - 1);
        assert(run.steps(math, i - 1));
        law_call_keeps_order(
            math,
            run.states[i - 1],
            run.calls[i - 1],
            run.states[i],
            run.errors[i - 1],
        );
    }
}

/// A store stays coherent through every run of calls, as long as no other width breaks places or
/// index.
pub proof fn law_run_keeps_coherence<M: VectorMath>(math: M, run: Run, i: int)
    requires
        run.valid(math),
        run.states[0].coherent(),
        forall|p: int|
            0 <= p < run.calls.len() ==> keeps_places(run.states[p], #[trigger] run.calls[p]),
        0 <= i <= run.calls.len(),
    ensures
        run.states[i].coherent(),
    decreases i,
{
    if i > 0 {
        law_run_keeps_coherence(math, run, i - 1);
        assert(run.steps(math, i - 1));
        assert(keeps_places(run.states[i - 1], run.calls[i - 1]));
        law_call_keeps_order(
            math,
            run.states[i - 1],
            run.calls[i - 1],
            run.states[i],
            run.errors[i - 1],
        );
    }
}

proof fn lemma_rows_appended_next_id<M: VectorMath>(
    math: M,
    v: DbView,
    rows: Seq<Staged>,
    w: DbView,
)
    requires
        rows_appended(math, v, rows, w),
    ensures
        w.next_id == v.next_id,
    decreases rows.len(),
{
    if rows.len() > 0 {
        let m = choose|m: DbView|
            rows_appended(math, v, rows.drop_last(), m) && #[trigger] appended(
                math,
                m,
                rows.last().id,
                rows.last().row,
                rows.last().record,
                w,
            );
        lemma_rows_appended_next_id(math, v, rows.drop_last(), m);
    }
}

proof fn lemma_tombstone_list_next_id(v: DbView, ids: Seq<VectorId>)
    ensures
        tombstone_list(v, ids).0.next_id == v.next_id,
    decreases ids.len(),
{
    if ids.len() > 0 {
        lemma_tombstone_list_next_id(v, ids.drop_last());
    }
}

proof fn lemma_chunks_next_id<M: VectorMath>(
    math: M,
    v: DbView,
    path: Seq<char>,
    chunks: Seq<Chunk>,
    w: DbView,
    stop: Option<DbError>,
)
    requires
        chunks_inserted(math, v, path, chunks, w, stop),
    ensures
        v.next_id <= w.next_id,
    decreases chunks.len(),
{
    if chunks.len() > 0 {
        let (m, before) = choose|m: DbView, before: Option<DbError>|
            chunks_inserted(math, v, path, chunks.drop_last(), m, before)
                && #[trigger] chunk_inserted(math, m, before, path, chunks.last(), w, stop);
        lemma_chunks_next_id(math, v, path, chunks.drop_last(), m, before);
    }
}

proof fn lemma_settled_next_id<M: VectorMath, T>(
    math: M,
    v: DbView,
    w: DbView,
    value: T,
    r: Result<T, DbError>,
)
    requires
        settled(math, v, w, value, r),
    ensures
        w.next_id == v.next_id,
{
    let done = choose|done: Result<Option<CompactionStats>, DbError>|
        #[trigger] maybe_compacted(math, v, w, done) && r == match done {
            Ok(_) => Ok(value),
            Err(e) => Err(e),
        };
    let ratio = choose|ratio: u32|
        #[trigger] is_dead_ratio(math, v.tombstones.len(), v.next_id as usize, ratio)
            && maybe_compacted_at(math, ratio, v, w, done);
    if compaction_due(ratio, v.policy, v.tombstones.len()) {
        let c = choose|c: Result<CompactionStats, DbError>|
            #[trigger] compact_outcome(math, v, w, c) && done == match c {
                Ok(stats) => Ok(Some(stats)),
                Err(e) => Err(e),
            };
        lemma_compact_next_id(math, v, w, c);
    }
}

proof fn lemma_compact_next_id<M: VectorMath>(
    math: M,
    v: DbView,
    w: DbView,
    r: Result<CompactionStats, DbError>,
)
    requires
        compact_outcome(math, v, w, r),
    ensures
        w.next_id == v.next_id,
{
}

proof fn lemma_delete_next_id<M: VectorMath>(
    math: M,
    v: DbView,
    path: Seq<char>,
    w: DbView,
    r: Result<usize, DbError>,
)
    requires
        delete_outcome(math, v, path, w, r),
    ensures
        w.next_id == v.next_id,
{
    if !v.read_only {
        let ids = list_of(v.postings.by_file, path);
        lemma_tombstone_list_next_id(v, ids);
        let (m, n, stop) = tombstone_list(v, ids);
        if stop is None {
            let d = DbView { staging: of_other_files(m.staging, path), ..m };
            let e = if n > 0 {
                d.recorded()
            } else {
                d
            };
            let removed = n + (m.staging.len() - d.staging.len());
            lemma_settled_next_id(math, e, w, removed as usize, r);
        }
    }
}

/// The ids that are given out grow, unless the store is reset.
pub proof fn law_next_id_grows<M: VectorMath>(
    math: M,
    v: DbView,
    call: Call,
    w: DbView,
    error: Option<DbError>,
)
    requires
        call_outcome(math, v, call, w, error),
    ensures
        call !is Reset ==> v.next_id <= w.next_id,
{
    match call {
        Call::ReplaceFile { path, chunks } => {
            let r = choose|r: Result<(), DbError>|
                #[trigger] replace_outcome(math, v, path, chunks, w, r) && error == error_of(r);
            let (m, removed) = choose|m: DbView, removed: Result<usize, DbError>| #[trigger]
                delete_outcome(math, v, path, m, removed) && match removed {
                    Err(e) => r == Err::<(), DbError>(e) && w == m,
                    Ok(_) => refilled(math, m, path, chunks, w, r),
                };
            lemma_delete_next_id(math, v, path, m, removed);
            if removed is Ok {
                let (x, stop) = choose|x: DbView, stop: Option<DbError>| #[trigger]
                    chunks_inserted(math, m, path, chunks, x, stop) && match stop {
                        Some(e) => r == Err::<(), DbError>(e) && w == x,
                        None => settled(math, x.recorded(), w, (), r),
                    };
                lemma_chunks_next_id(math, m, path, chunks, x, stop);
                if stop is None {
                    lemma_settled_next_id(math, x.recorded(), w, (), r);
                }
            }
        },
        Call::FlushToDisk => {
            let r = choose|r: Result<(), DbError>|
                #[trigger] flush_outcome(math, v, w, r) && error == error_of(r);
            if flush_refusal(v) is None && v.staging.len() > 0 {
                let m = choose|m: DbView| #[trigger]
                    flushed(math, v, m) && settled(math, m, w, (), r);
                let x = choose|x: DbView| #[trigger]
                    rows_appended(math, v, v.staging, x) && m.next_id == x.next_id;
                lemma_rows_appended_next_id(math, v, v.staging, x);
                lemma_settled_next_id(math, m, w, (), r);
            }
        },
        Call::DeleteByFilePath { path } => {
            let r = choose|r: Result<usize, DbError>|
                #[trigger] delete_outcome(math, v, path, w, r) && error == error_of(r);
            lemma_delete_next_id(math, v, path, w, r);
        },
        Call::Tombstone { id } => {
            let r = choose|r: Result<bool, DbError>|
                #[trigger] tombstone_outcome(math, v, id, w, r) && error == error_of(r);
            if w != v {
                lemma_settled_next_id(math, v.with_tombstone(id).recorded(), w, true, r);
            }
        },
        Call::Compact => {
            let r = choose|r: Result<CompactionStats, DbError>|
                #[trigger] compact_outcome(math, v, w, r) && error == error_of(r);
            lemma_compact_next_id(math, v, w, r);
        },
        Call::MaybeCompact => {
            let done = choose|done: Result<Option<CompactionStats>, DbError>|
                #[trigger] maybe_compacted(math, v, w, done) && error == error_of(done);
            let r: Result<(), DbError> = match done {
                Ok(_) => Ok(()),
                Err(e) => Err(e),
            };
            assert(settled(math, v, w, (), r));
            lemma_settled_next_id(math, v, w, (), r);
        },
        _ => {},
    }
}

proof fn lemma_next_id_grows<M: VectorMath>(math: M, run: Run, i: int, j: int)
    requires
        run.valid(math),
        0 <= i <= j <= run.calls.len(),
        forall|p: int| i <= p < j ==> (#[trigger] run.calls[p]) !is Reset,
    ensures
        run.states[i].next_id <= run.states[j].next_id,
    decreases j,
{
    if i < j {
        lemma_next_id_grows(math, run, i, j - 1);
        assert(run.steps(math, j - 1));
        assert(run.calls[j - 1] !is Reset);
        law_next_id_grows(
            math,
            run.states[j - 1],
            run.calls[j - 1],
            run.states[j],
            run.errors[j - 1],
        );
    }
}

/// The call gives this id to a new row.
pub open spec fn gives_id<M: VectorMath>(
    math: M,
    v: DbView,
    call: Call,
    w: DbView,
    id: VectorId,
) -> bool {
    match call {
        Call::InsertStaging { row, record } => stage_outcome(v, row, record, w, Ok(id)),
        Call::InsertPersistent { row, record } => insert_outcome(math, v, row, record, w, Ok(id)),
        Call::ReplaceFile { path, chunks } => replace_outcome(math, v, path, chunks, w, Ok(()))
            && v.next_id <= id < w.next_id,
        _ => false,
    }
}

/// An id that a call gives to a row is larger than every id that was given out before in the run,
/// unless the store was reset between.
pub proof fn law_ids_grow<M: VectorMath>(
    math: M,
    run: Run,
    i: int,
    j: int,
    earlier: VectorId,
    later: VectorId,
)
    requires
        run.valid(math),
        0 <= i < j < run.calls.len(),
        forall|p: int| i <= p < j ==> (#[trigger] run.calls[p]) !is Reset,
        gives_id(math, run.states[i], run.calls[i], run.states[i + 1], earlier),
        gives_id(math, run.states[j], run.calls[j], run.states[j + 1], later),
    ensures
        earlier < later,
{
    lemma_next_id_grows(math, run, i + 1, j);
}

/// What a store holds after calls that succeed.
pub open spec fn contents_after_all(c: Contents, calls: Seq<Call>) -> Contents
    decreases calls.len(),
{
    if calls.len() == 0 {
        c
    } else {
        contents_after(contents_after_all(c, calls.drop_last()), calls.last())
    }
}

proof fn lemma_run_contents<M: VectorMath>(math: M, run: Run, i: int)
    requires
        run.valid(math),
        run.succeeds(),
        run.states[0].regular(),
        0 <= i <= run.calls.len(),
    ensures
        contents(run.states[i]) == contents_after_all(contents(run.states[0]), run.calls.take(i)),
    decreases i,
{
    if i > 0 {
        lemma_run_contents(math, run, i - 1);
        law_run_keeps_order(math, run, i - 1);
        assert(run.steps(math, i - 1));
        assert(run.errors[i - 1] is None);
        law_call_changes_the_contents(
            math,
            run.states[i - 1],
            run.calls[i - 1],
            run.states[i],
        );
        assert(run.calls.take(i).drop_last() =~= run.calls.take(i - 1));
    }
}

/// After any run of calls that succeed the store holds what these calls put there: an id stands
/// for the row and the record that it was given with, of the width of the store, as long as no
/// later call took it away, and any other id stands for nothing.
pub proof fn law_get_after_run<M: VectorMath>(math: M, run: Run, id: VectorId)
    requires
        run.valid(math),
        run.succeeds(),
        run.states[0].regular(),
    ensures
        ({
            let v = run.states.last();
            let held = contents_after_all(contents(run.states[0]), run.calls);
            &&& contents(v) == held
            &&& v.fetched(id) == if held.rows.contains_key(id) {
                Ok((held.rows[id].row, held.rows[id].record))
            } else {
                Err(DbError::MissingMetadata { id })
            }
            &&& held.rows.contains_key(id) ==> held.rows[id].row.len() == v.dim
            &&& held.rows.contains_key(id) <==> staged(v.staging, id) is Some || v.live().contains(
                id,
            )
        }),
{
    let n = run.calls.len() as int;
    lemma_run_contents(math, run, n);
    law_run_keeps_order(math, run, n);
    assert(run.calls.take(n) =~= run.calls);
    law_get(run.states[n], id);
}

/// The files, once the changes that are still queued are made, hold the rows and the centroids
/// that the store has in memory.
pub open spec fn in_step(disk: Disk, v: DbView) -> bool {
    disk.run(v.ops).holds_files(v)
}

/// The files after a call: queued changes are made when they are taken from the queue.
pub open spec fn disk_after(disk: Disk, v: DbView, call: Call) -> Disk {
    if call is TakeOps {
        disk.run(v.ops)
    } else {
        disk
    }
}

/// A store that was just opened is in step with the files it was opened from, where it has no
/// bucketed index or a word has its least significant byte first.
pub proof fn law_opened_store_is_in_step(
    order: ByteOrder,
    manifest: Persisted,
    disk: Disk,
    read_only: bool,
)
    requires
        order is Little || manifest.ivf is None,
    ensures
        in_step(disk, opened(order, manifest, disk.vectors, disk.centroids, read_only)),
{
    let v = opened(order, manifest, disk.vectors, disk.centroids, read_only);
    assert(disk.run(v.ops) == disk);
    if let Some(index) = v.ivf {
        let n = index.num_buckets as int;
        let d = manifest.dim as int;
        assert((n * d * 4) % 4 == 0);
        law_bytes_of_words_of(v.order, disk.centroids->Some_0);
    }
}

/// Vector file and centroid file stay in step with the store through every call, refused or not.
pub proof fn law_call_keeps_files_in_step<M: VectorMath>(
    math: M,
    v: DbView,
    call: Call,
    w: DbView,
    error: Option<DbError>,
    disk: Disk,
)
    requires
        call_outcome(math, v, call, w, error),
        in_step(disk, v),
    ensures
        in_step(disk_after(disk, v, call), w),
{
    if call is TakeOps {
        assert(disk.run(v.ops).run(w.ops) == disk.run(v.ops));
    } else {
        lemma_call_files_follow(math, v, call, w, error);
        lemma_queue(disk, v, w);
    }
}

/// Queued changes are made one after the other.
proof fn lemma_queue(disk: Disk, v: DbView, w: DbView)
    requires
        v.ops.is_prefix_of(w.ops),
    ensures
        disk.run(w.ops) == disk.run(v.ops).run(new_ops(v, w)),
{
    assert(w.ops =~= v.ops + new_ops(v, w)) by {
        assert(v.ops =~= w.ops.subrange(0, v.ops.len() as int));
    }
    lemma_run_concat(disk, v.ops, new_ops(v, w));
}

proof fn lemma_call_files_follow<M: VectorMath>(
    math: M,
    v: DbView,
    call: Call,
    w: DbView,
    error: Option<DbError>,
)
    requires
        call_outcome(math, v, call, w, error),
        call !is TakeOps,
    ensures
        files_follow(v, w),
{
    if v.read_only {
        law_read_only_store_is_never_written(math, v, call, w, error);
    }
    if w == v {
        lemma_follow_same(v, w);
    } else {
        match call {
            Call::InsertPersistent { row, record } => {
                let r = choose|r: Result<VectorId, DbError>|
                    #[trigger] insert_outcome(math, v, row, record, w, r) && error == error_of(r);
                law_insert_is_saved(math, v, row, record, w, r);
            },
            Call::ReplaceFile { path, chunks } => {
                let r = choose|r: Result<(), DbError>|
                    #[trigger] replace_outcome(math, v, path, chunks, w, r) && error == error_of(r);
                law_replace_follows(math, v, path, chunks, w, r);
            },
            Call::FlushToDisk => {
                let r = choose|r: Result<(), DbError>|
                    #[trigger] flush_outcome(math, v, w, r) && error == error_of(r);
                law_flush_is_saved(math, v, w, r);
            },
            Call::DeleteByFilePath { path } => {
                let r = choose|r: Result<usize, DbError>|
                    #[trigger] delete_outcome(math, v, path, w, r) && error == error_of(r);
                law_delete_keeps_files(math, v, path, w, r);
            },
            Call::Tombstone { id } => {
                let r = choose|r: Result<bool, DbError>|
                    #[trigger] tombstone_outcome(math, v, id, w, r) && error == error_of(r);
                law_tombstone_follows(math, v, id, w, r);
            },
            Call::Compact => {
                let r = choose|r: Result<CompactionStats, DbError>|
                    #[trigger] compact_outcome(math, v, w, r) && error == error_of(r);
                law_compact_is_saved(math, v, w, r);
            },
            Call::MaybeCompact => {
                let done = choose|done: Result<Option<CompactionStats>, DbError>|
                    #[trigger] maybe_compacted(math, v, w, done) && error == error_of(done);
                let r: Result<(), DbError> = match done {
                    Ok(_) => Ok(()),
                    Err(e) => Err(e),
                };
                assert(settled(math, v, w, (), r));
                law_settling_follows(math, v, w, (), r);
            },
            Call::BuildIvfIndex { num_buckets, probe_buckets } => {
                let r = choose|r: Result<(), DbError>|
                    #[trigger] rebuilt(math, v, num_buckets, probe_buckets, w, r) && error
                        == error_of(r);
                law_rebuild_is_saved(math, v, num_buckets, probe_buckets, w, r);
            },
            Call::Reset => {
                let r = choose|r: Result<(), DbError>|
                    #[trigger] reset_outcome(v, w, r) && error == error_of(r);
                law_reset_is_saved(v, w, r);
            },
            _ => {
                lemma_follow_same(v, w);
            },
        }
    }
}

/// The call writes the manifest where it succeeds.
pub open spec fn saves(v: DbView, call: Call) -> bool {
    match call {
        Call::InsertPersistent { .. } | Call::ReplaceFile { .. } | Call::Compact
        | Call::BuildIvfIndex { .. } | Call::Reset => true,
        Call::FlushToDisk => v.staging.len() > 0,
        _ => false,
    }
}

/// After a call that saves and succeeds, in whatever run of calls, a store that is opened from its
/// files gives everything back but what was staged, as long as its rows are what opening a store
/// asks for.
pub proof fn law_saved_store_is_given_back<M: VectorMath>(
    math: M,
    v: DbView,
    call: Call,
    w: DbView,
    disk: Disk,
    read_only: bool,
)
    requires
        in_step(disk, v),
        saves(v, call),
        call_outcome(math, v, call, w, None),
        w.inv(),
        w.stored(),
        w.index_sized(),
    ensures
        reopens(disk.run(w.ops), w, read_only),
{
    let error = None::<DbError>;
    if v.read_only {
        law_read_only_store_is_never_written(math, v, call, w, error);
    }
    assert(saved(v, w)) by {
        match call {
            Call::InsertPersistent { row, record } => {
                let r = choose|r: Result<VectorId, DbError>|
                    #[trigger] insert_outcome(math, v, row, record, w, r) && error == error_of(r);
                law_insert_is_saved(math, v, row, record, w, r);
            },
            Call::ReplaceFile { path, chunks } => {
                let r = choose|r: Result<(), DbError>|
                    #[trigger] replace_outcome(math, v, path, chunks, w, r) && error == error_of(r);
                law_replace_is_saved(math, v, path, chunks, w, r);
            },
            Call::FlushToDisk => {
                let r = choose|r: Result<(), DbError>|
                    #[trigger] flush_outcome(math, v, w, r) && error == error_of(r);
                law_flush_is_saved(math, v, w, r);
            },
            Call::Compact => {
                let r = choose|r: Result<CompactionStats, DbError>|
                    #[trigger] compact_outcome(math, v, w, r) && error == error_of(r);
                law_compact_is_saved(math, v, w, r);
            },
            Call::BuildIvfIndex { num_buckets, probe_buckets } => {
                let r = choose|r: Result<(), DbError>|
                    #[trigger] rebuilt(math, v, num_buckets, probe_buckets, w, r) && error
                        == error_of(r);
                law_rebuild_is_saved(math, v, num_buckets, probe_buckets, w, r);
            },
            _ => {
                let r = choose|r: Result<(), DbError>|
                    #[trigger] reset_outcome(v, w, r) && error == error_of(r);
                law_reset_is_saved(v, w, r);
            },
        }
    }
    law_reopen_after_save(v, w, disk.run(v.ops), read_only);
    lemma_queue(disk, v, w);
}

/// The files after the first `n` calls of a run.
pub open spec fn disk_after_all(disk: Disk, run: Run, n: nat) -> Disk
    decreases n,
{
    if n == 0 {
        disk
    } else {
        disk_after(
            disk_after_all(disk, run, (n - 1) as nat),
            run.states[n - 1],
            run.calls[n - 1],
        )
    }
}

/// Vector file and centroid file stay in step with the store through every run of calls.
pub proof fn law_run_keeps_files_in_step<M: VectorMath>(math: M, run: Run, disk: Disk, n: nat)
    requires
        run.valid(math),
        in_step(disk, run.states[0]),
        n <= run.calls.len(),
    ensures
        in_step(disk_after_all(disk, run, n), run.states[n as int]),
    decreases n,
{
    if n > 0 {
        law_run_keeps_files_in_step(math, run, disk, (n - 1) as nat);
        assert(run.steps(math, n - 1));
        law_call_keeps_files_in_step(
            math,
            run.states[n - 1],
            run.calls[n - 1],
            run.states[n as int],
            run.errors[n - 1],
            disk_after_all(disk, run, (n - 1) as nat),
        );
    }
}

/// After any run of calls whose last one saves and succeeds, a store that is opened from the
/// files gives everything back but what was staged, as long as its rows are what opening a store
/// asks for.
pub proof fn law_run_is_given_back<M: VectorMath>(math: M, run: Run, disk: Disk, read_only: bool)
    requires
        run.valid(math),
        in_step(disk, run.states[0]),
        run.calls.len() > 0,
        run.errors.last() is None,
        saves(run.states[run.calls.len() - 1], run.calls.last()),
        run.states.last().inv(),
        run.states.last().stored(),
        run.states.last().index_sized(),
    ensures
        reopens(
            disk_after_all(disk, run, run.calls.len()).run(run.states.last().ops),
            run.states.last(),
            read_only,
        ),
{
    let n = (run.calls.len() - 1) as nat;
    law_run_keeps_files_in_step(math, run, disk, n);
    assert(run.steps(math, n as int));
    law_saved_store_is_given_back(
        math,
        run.states[n as int],
        run.calls[n as int],
        run.states[n as int + 1],
        disk_after_all(disk, run, n),
        read_only,
    );
}

/// A coherent store is what opening a store asks for.
pub proof fn law_coherent_store_can_be_opened(v: DbView)
    requires
        v.coherent(),
    ensures
        v.inv(),
        v.stored(),
        v.index_sized(),
{
    law_placed_rows_are_stored(v);
}

} // verus!
