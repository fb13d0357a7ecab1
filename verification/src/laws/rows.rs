//! What the operations do to the rows that a reader of the store can see.

use vstd::prelude::*;

use super::coherence::{
    kept, law_append_keeps_order, law_recording_keeps_rows, law_same_tier_keeps_order,
    law_settling_keeps_rows, law_tombstone_keeps_order, same_rows,
};
use crate::ivf::VectorMath;
use crate::manifest::row_fits;
use crate::postings::{list_of, listed};
use crate::state::{
    appended, bucket_settings, chunk_inserted, chunks_inserted, delete_outcome, flush_outcome,
    flush_refusal, flushed, insert_outcome, inserted, of_other_files, posting_key, refilled,
    replace_outcome, rows_appended, settled, stage_outcome, staged, tombstone_list,
    tombstone_outcome, Chunk, DbView, OpView, Staged,
};
use crate::storage::delete::{lemma_fewer_staged_inv, lemma_other_files};
use crate::storage::{lemma_not_staged, lemma_staged_at};
use crate::types::{ChunkRecord, DbError, VectorId, MAX_VECTORS_BYTES};
use crate::words::{bytes_of, law_append_bytes, law_words_of_bytes_of};

verus! {

/// A row at the end of the vector file can be read, and so can every row before it.
pub(crate) proof fn lemma_appended_rows<M: VectorMath>(
    math: M,
    v: DbView,
    id: VectorId,
    row: Seq<u32>,
    record: ChunkRecord,
    w: DbView,
)
    requires
        v.inv(),
        v.aligned(),
        v.bytes.len() <= u64::MAX,
        row.len() == v.dim,
        appended(math, v, id, row, record, w),
    ensures
        w.aligned(),
        w.row(id) == Some(row),
        forall|x: VectorId|
            x != id && v.live().contains(x) ==> #[trigger] w.row(x) == v.row(x) && v.row(x) is Some,
{
    law_append_bytes(v.order, v.bytes, row);
    law_words_of_bytes_of(v.order, row);
    let words = v.words();
    assert(w.words() == words + row);
    assert((words + row).subrange(words.len() as int, words.len() + v.dim) =~= row);
    assert forall|x: VectorId| x != id && v.live().contains(x) implies #[trigger] w.row(x) == v.row(
        x,
    ) && v.row(x) is Some by {
        assert(row_fits(v.dim as nat, v.offsets, v.bytes.len(), x));
        let from = v.offsets[x] as int / 4;
        assert((words + row).subrange(from, from + v.dim) =~= words.subrange(from, from + v.dim));
    }
}

/// One more record is one more live row.
proof fn lemma_live_grows(v: DbView, id: VectorId, w: DbView)
    requires
        v.records.dom().finite(),
        !v.records.contains_key(id),
        !v.tombstones.contains(id),
        w.records.dom() == v.records.dom().insert(id),
        w.tombstones == v.tombstones,
    ensures
        w.live() == v.live().insert(id),
        w.live().len() == v.live().len() + 1,
{
    vstd::set_lib::lemma_len_subset(v.live(), v.records.dom());
    assert(w.live() =~= v.live().insert(id));
}

/// What an id stands for, where every row can be read: a row of the width of the store, with its
/// record, where it is staged or a live row of the persistent tier, and it is never both; no other
/// id stands for anything.
pub proof fn law_get(v: DbView, id: VectorId)
    requires
        v.readable(),
    ensures
        v.fetched(id) is Ok <==> staged(v.staging, id) is Some || v.live().contains(id),
        staged(v.staging, id) is Some ==> !v.records.contains_key(id) && id < v.next_id,
        match v.fetched(id) {
            Ok((row, record)) => row.len() == v.dim && v.record_for(id) == Some(record),
            Err(e) => e == (DbError::MissingMetadata { id }),
        },
{
    crate::storage::compaction::lemma_live_rows(v);
    if staged(v.staging, id) is Some {
        lemma_staged_found(v.staging, id);
        let i = choose|i: int| 0 <= i < v.staging.len() && v.staging[i].id == id;
        lemma_staged_at(v.staging, id, i);
        assert(!v.records.contains_key(v.staging[i].id));
    }
}

/// A staged id was given out.
proof fn lemma_staged_id(v: DbView, id: VectorId)
    requires
        v.inv(),
        staged(v.staging, id) is Some,
    ensures
        id < v.next_id,
{
    lemma_staged_found(v.staging, id);
    let i = choose|i: int| 0 <= i < v.staging.len() && v.staging[i].id == id;
    assert(v.staging[i].id < v.next_id);
}

/// The ids that stand for a row.
pub open spec fn row_ids(v: DbView) -> Set<VectorId> {
    Set::new(|id: VectorId| v.fetched(id) is Ok)
}

/// A set of ids below `n` has at most `n` of them.
proof fn lemma_ids_below(ids: Set<VectorId>, n: nat)
    requires
        forall|id: VectorId| #[trigger] ids.contains(id) ==> id < n,
    ensures
        ids.finite(),
        ids.len() <= n,
    decreases n,
{
    if n == 0 {
        assert(ids =~= Set::<VectorId>::empty());
    } else if ids.contains((n - 1) as VectorId) {
        let last = (n - 1) as VectorId;
        lemma_ids_below(ids.remove(last), (n - 1) as nat);
        assert(ids =~= ids.remove(last).insert(last));
    } else {
        assert forall|id: VectorId| #[trigger] ids.contains(id) implies id < n - 1 by {
            if id == n - 1 {
                assert(id == (n - 1) as VectorId);
            }
        }
        lemma_ids_below(ids, (n - 1) as nat);
    }
}

/// The number of rows is the number of ids that stand for one, and there are no more of them than
/// ids were given out, as far as all of them were.
pub proof fn law_rows_are_counted(v: DbView)
    requires
        v.readable(),
    ensures
        row_ids(v).finite(),
        row_ids(v).len() == v.row_count(),
        v.ids_below() ==> v.row_count() <= v.next_id,
{
    let ids = Seq::new(v.staging.len(), |i: int| v.staging[i].id);
    assert forall|i: int, j: int| 0 <= i < ids.len() && 0 <= j < ids.len() && i != j implies ids[i]
        != ids[j] by {
        if i < j {
            assert(v.staging[i].id < v.staging[j].id);
        } else {
            assert(v.staging[j].id < v.staging[i].id);
        }
    }
    ids.unique_seq_to_set();
    assert(v.live().finite()) by {
        vstd::set_lib::lemma_len_subset(v.live(), v.records.dom());
    }
    assert(v.live().disjoint(ids.to_set())) by {
        assert forall|id: VectorId| ids.to_set().contains(id) implies !v.live().contains(id) by {
            let i = choose|i: int| 0 <= i < ids.len() && ids[i] == id;
            assert(!v.records.contains_key(v.staging[i].id));
        }
    }
    vstd::set_lib::lemma_set_disjoint_lens(v.live(), ids.to_set());
    assert(row_ids(v) =~= v.live() + ids.to_set()) by {
        assert forall|id: VectorId| row_ids(v).contains(id) <==> (v.live()
            + ids.to_set()).contains(id) by {
            law_get(v, id);
            if staged(v.staging, id) is Some {
                lemma_staged_found(v.staging, id);
                let i = choose|i: int| 0 <= i < v.staging.len() && v.staging[i].id == id;
                assert(ids[i] == id);
            }
            if ids.to_set().contains(id) {
                let i = choose|i: int| 0 <= i < ids.len() && ids[i] == id;
                lemma_staged_at(v.staging, id, i);
            }
        }
    }
    if v.ids_below() {
        assert forall|id: VectorId| #[trigger] row_ids(v).contains(id) implies id < v.next_id by {
            law_get(v, id);
        }
        lemma_ids_below(row_ids(v), v.next_id as nat);
    }
}

/// An id that nobody got yet stands for nothing.
pub proof fn law_next_id_is_unused(v: DbView)
    requires
        v.inv(),
        !v.records.contains_key(v.next_id),
    ensures
        v.fetched(v.next_id) == Err::<(Seq<u32>, ChunkRecord), DbError>(
            DbError::MissingMetadata { id: v.next_id },
        ),
{
    lemma_not_staged(v.staging, v.next_id);
}

/// A row that was staged can be fetched under its id, and every other row as before; there is one
/// staged row more, and nothing else is touched. Where ids to come are new, its id is larger than
/// every id that stands for a row.
pub proof fn law_stage_then_get(
    v: DbView,
    row: Seq<u32>,
    record: ChunkRecord,
    w: DbView,
    r: Result<VectorId, DbError>,
)
    requires
        v.inv(),
        stage_outcome(v, row, record, w, r),
        r is Ok,
    ensures
        w.inv(),
        r->Ok_0 == v.next_id,
        w.fetched(r->Ok_0) == Ok::<(Seq<u32>, ChunkRecord), DbError>((row, record)),
        forall|id: VectorId| id != r->Ok_0 ==> #[trigger] w.fetched(id) == v.fetched(id),
        v.ids_below() ==> forall|id: VectorId| #[trigger] v.fetched(id) is Ok ==> id < r->Ok_0,
        w.next_id == v.next_id + 1,
        w.staging == v.staging.push(Staged { id: r->Ok_0, row, record }),
        w == (DbView { staging: w.staging, next_id: w.next_id, ..v }),
        kept(v, w),
        v.stored() ==> w.stored(),
        v.readable() && !v.records.contains_key(v.next_id) ==> w.readable(),
{
    assert(w.staging.drop_last() =~= v.staging);
    law_same_tier_keeps_order(v, w);
    assert forall|id: VectorId| id != r->Ok_0 implies #[trigger] w.fetched(id) == v.fetched(
        id,
    ) by {
        assert(w.row(id) == v.row(id));
    }
    if v.ids_below() {
        assert forall|id: VectorId| #[trigger] v.fetched(id) is Ok implies id < r->Ok_0 by {
            if staged(v.staging, id) is Some {
                lemma_staged_id(v, id);
            }
        }
    }
}

/// A row that joins the persistent tier keeps the files of a store in order.
pub proof fn law_insert_keeps_store<M: VectorMath>(
    math: M,
    v: DbView,
    row: Seq<u32>,
    record: ChunkRecord,
    w: DbView,
)
    requires
        v.inv(),
        v.persistent_refusal(row.len(), record) is None,
        inserted(math, v, row, record, w),
    ensures
        w.inv(),
        v.stored() ==> w.stored(),
        v.index_sized() ==> w.index_sized(),
{
    let m = DbView {
        next_id: (v.next_id + 1) as VectorId,
        ops: v.ops.push(OpView::AppendVectors(bytes_of(v.order, row))),
        ..v
    };
    law_same_tier_keeps_order(v, m);
    law_append_keeps_order(math, m, v.next_id, row, record, w);
}

/// A row that joins the persistent tier under an id that is new can be fetched under its id, and
/// every other row as before.
pub proof fn law_insert_then_get<M: VectorMath>(
    math: M,
    v: DbView,
    row: Seq<u32>,
    record: ChunkRecord,
    w: DbView,
)
    requires
        v.inv(),
        v.aligned(),
        !v.records.contains_key(v.next_id),
        v.persistent_refusal(row.len(), record) is None,
        inserted(math, v, row, record, w),
    ensures
        w.inv(),
        w.aligned(),
        v.tiers_apart() ==> w.tiers_apart(),
        kept(v, w),
        v.stored() ==> w.stored(),
        w.fetched(v.next_id) == Ok::<(Seq<u32>, ChunkRecord), DbError>((row, record)),
        forall|id: VectorId| id != v.next_id ==> #[trigger] w.fetched(id) == v.fetched(id),
        w.next_id == v.next_id + 1,
        w.staging == v.staging,
        w.read_only == v.read_only,
        w.dim == v.dim,
        w.order == v.order,
        w.policy == v.policy,
        w.tombstones == v.tombstones,
        w.records.dom() == v.records.dom().insert(v.next_id),
        w.bytes == v.bytes + bytes_of(v.order, row),
        w.live() == v.live().insert(v.next_id),
        w.live().len() == v.live().len() + 1,
        bucket_settings(w) == bucket_settings(v),
{
    let id = v.next_id;
    let m = DbView {
        next_id: (v.next_id + 1) as VectorId,
        ops: v.ops.push(OpView::AppendVectors(bytes_of(v.order, row))),
        ..v
    };
    law_same_tier_keeps_order(v, m);
    law_append_keeps_order(math, m, id, row, record, w);
    lemma_appended_rows(math, m, id, row, record, w);
    lemma_not_staged(v.staging, id);
    lemma_live_grows(m, id, w);
    assert forall|x: VectorId| x != id implies #[trigger] w.fetched(x) == v.fetched(x) by {
        if v.live().contains(x) {
            assert(w.row(x) == m.row(x));
            assert(m.row(x) == v.row(x));
        }
    }
}

/// A row that was inserted under an id that is new can be fetched under its id, and every other
/// row as before; there is one live row more, the vector file ends with the bytes of the row, and
/// the staging tier is untouched. Where ids to come are new, its id is larger than every id that
/// stands for a row.
pub proof fn law_insert_persistent_then_get<M: VectorMath>(
    math: M,
    v: DbView,
    row: Seq<u32>,
    record: ChunkRecord,
    w: DbView,
    r: Result<VectorId, DbError>,
)
    requires
        v.inv(),
        v.aligned(),
        !v.records.contains_key(v.next_id),
        insert_outcome(math, v, row, record, w, r),
        r is Ok,
    ensures
        w.inv(),
        w.aligned(),
        v.tiers_apart() ==> w.tiers_apart(),
        kept(v, w),
        v.stored() ==> w.stored(),
        r->Ok_0 == v.next_id,
        w.fetched(r->Ok_0) == Ok::<(Seq<u32>, ChunkRecord), DbError>((row, record)),
        forall|id: VectorId| id != r->Ok_0 ==> #[trigger] w.fetched(id) == v.fetched(id),
        v.ids_below() ==> forall|id: VectorId| #[trigger] v.fetched(id) is Ok ==> id < r->Ok_0,
        w.next_id == v.next_id + 1,
        w.live() == v.live().insert(r->Ok_0),
        w.live().len() == v.live().len() + 1,
        w.staging == v.staging,
        w.bytes == v.bytes + bytes_of(v.order, row),
        w.dim == v.dim,
        w.policy == v.policy,
        w.tombstones == v.tombstones,
        w.read_only == v.read_only,
{
    let m = choose|m: DbView| #[trigger] inserted(math, v, row, record, m) && w == m.recorded();
    law_insert_then_get(math, v, row, record, m);
    law_recording_keeps_rows(m, w);
    if v.ids_below() {
        assert forall|id: VectorId| #[trigger] v.fetched(id) is Ok implies id < r->Ok_0 by {
            if staged(v.staging, id) is Some {
                lemma_staged_id(v, id);
            }
        }
    }
}

/// Staged rows that move to the persistent tier: what has moved can be read there.
pub(crate) proof fn lemma_rows_appended<M: VectorMath>(math: M, v: DbView, rows: Seq<Staged>, w: DbView)
    requires
        v.readable(),
        v.bytes.len() + 4 * (rows.len() * v.dim) <= MAX_VECTORS_BYTES,
        rows.len() <= v.staging.len(),
        rows == v.staging.take(rows.len() as int),
        rows_appended(math, v, rows, w),
    ensures
        w.inv(),
        w.aligned(),
        kept(v, w),
        v.stored() ==> w.stored(),
        bucket_settings(w) == bucket_settings(v),
        w.dim == v.dim,
        w.order == v.order,
        w.staging == v.staging,
        w.next_id == v.next_id,
        w.policy == v.policy,
        w.read_only == v.read_only,
        w.ops == v.ops,
        w.tombstones == v.tombstones,
        w.bytes.len() == v.bytes.len() + 4 * (rows.len() * v.dim),
        w.live().len() == v.live().len() + rows.len(),
        forall|x: VectorId| #[trigger]
            w.records.contains_key(x) <==> v.records.contains_key(x) || staged(rows, x) is Some,
        forall|x: VectorId|
            v.live().contains(x) && staged(rows, x) is None ==> #[trigger] w.row(x) == v.row(x)
                && w.records[x] == v.records[x],
        forall|x: VectorId|
            staged(rows, x) matches Some(s) ==> #[trigger] w.row(x) == Some(s.row) && w.records[x]
                == s.record,
    decreases rows.len(),
{
    let d = v.dim as int;
    let n = rows.len() as int;
    assert(n * d >= 0) by (nonlinear_arith)
        requires
            n >= 0,
            d >= 0,
    ;
    if rows.len() > 0 {
        let fewer = rows.drop_last();
        let last = rows.last();
        let m = choose|m: DbView|
            rows_appended(math, v, rows.drop_last(), m) && #[trigger] appended(
                math,
                m,
                rows.last().id,
                rows.last().row,
                rows.last().record,
                w,
            );
        assert(n * d == (n - 1) * d + d) by (nonlinear_arith);
        assert(fewer =~= v.staging.take(fewer.len() as int));
        lemma_rows_appended(math, v, fewer, m);
        assert(last == v.staging[n - 1]);
        assert forall|i: int| 0 <= i < fewer.len() implies (#[trigger] fewer[i]).id != last.id by {
            assert(v.staging[i].id < v.staging[n - 1].id);
        }
        lemma_not_staged(fewer, last.id);
        assert(!m.records.contains_key(last.id));
        law_append_keeps_order(math, m, last.id, last.row, last.record, w);
        lemma_appended_rows(math, m, last.id, last.row, last.record, w);
        law_words_of_bytes_of(v.order, last.row);
        assert(!m.tombstones.contains(last.id)) by {
            assert(!v.records.contains_key(v.staging[n - 1].id));
        }
        lemma_live_grows(m, last.id, w);
        assert forall|x: VectorId|
            v.live().contains(x) && staged(rows, x) is None implies #[trigger] w.row(x) == v.row(x)
            && w.records[x] == v.records[x] by {
            assert(m.live().contains(x));
            assert(m.row(x) == v.row(x));
        }
        assert forall|x: VectorId| staged(rows, x) is Some implies #[trigger] w.row(x) == Some(
            staged(rows, x)->Some_0.row,
        ) && w.records[x] == staged(rows, x)->Some_0.record by {
            if x != last.id {
                assert(staged(rows, x) == staged(fewer, x));
                assert(m.records.contains_key(x));
                assert(m.row(x) == Some(staged(fewer, x)->Some_0.row));
                assert(!v.tombstones.contains(x)) by {
                    lemma_staged_found(fewer, x);
                    let i = choose|i: int| 0 <= i < fewer.len() && fewer[i].id == x;
                    assert(v.staging[i].id == x);
                    assert(!v.records.contains_key(x));
                }
                assert(m.live().contains(x));
            }
        }
    } else {
        assert(n * d == 0) by (nonlinear_arith)
            requires
                n == 0,
        ;
        assert(w == v);
    }
}

/// An id that is found in the staging tier stands at some place of it.
pub(crate) proof fn lemma_staged_found(staging: Seq<Staged>, id: VectorId)
    requires
        staged(staging, id) is Some,
    ensures
        exists|i: int| 0 <= i < staging.len() && (#[trigger] staging[i]).id == id,
    decreases staging.len(),
{
    if staging.last().id == id {
        assert(staging[staging.len() - 1].id == id);
    } else {
        lemma_staged_found(staging.drop_last(), id);
        let i = choose|i: int|
            0 <= i < staging.drop_last().len() && (#[trigger] staging.drop_last()[i]).id == id;
        assert(staging[i].id == id);
    }
}

/// A flush keeps every row under its id, empties the staging tier, adds as many live rows as were
/// staged, and succeeds unless it is refused or the index has no bucket; where nothing was staged
/// it changes nothing.
pub proof fn law_flush_keeps_rows<M: VectorMath>(
    math: M,
    v: DbView,
    w: DbView,
    r: Result<(), DbError>,
)
    requires
        v.readable(),
        flush_refusal(v) is None,
        flush_outcome(math, v, w, r),
    ensures
        w.readable(),
        kept(v, w),
        v.stored() && v.has_room(0) ==> w.stored(),
        same_rows(v, w),
        w.staging.len() == 0,
        w.live().len() == v.live().len() + v.staging.len(),
        w.next_id == v.next_id,
        w.dim == v.dim,
        w.policy == v.policy,
        w.read_only == v.read_only,
        v.staging.len() == 0 ==> w == v,
        bucket_settings(v).0 > 0 ==> r is Ok,
{
    if v.staging.len() > 0 {
        let m = choose|m: DbView| #[trigger] flushed(math, v, m) && settled(math, m, w, (), r);
        law_flush_step_keeps_rows(math, v, m);
        law_settling_keeps_rows(math, m, w, (), r);
        assert(m.row_count() == v.row_count());
    }
}

/// Staged rows that have moved to the persistent tier are the same rows.
pub proof fn law_flush_step_keeps_rows<M: VectorMath>(math: M, v: DbView, w: DbView)
    requires
        v.readable(),
        v.staging.len() > 0,
        flush_refusal(v) is None,
        flushed(math, v, w),
    ensures
        w.readable(),
        kept(v, w),
        v.stored() ==> w.stored(),
        bucket_settings(w) == bucket_settings(v),
        same_rows(v, w),
        w.staging.len() == 0,
        w.live().len() == v.live().len() + v.staging.len(),
        w.read_only == v.read_only,
        w.next_id == v.next_id,
        w.dim == v.dim,
        w.policy == v.policy,
{
    let m = choose|m: DbView| #[trigger]
        rows_appended(math, v, v.staging, m) && w == (DbView {
            staging: Seq::empty(),
            ops: v.ops.push(OpView::AppendVectors(m.bytes.skip(v.bytes.len() as int))),
            ..m
        }).recorded();
    let n = v.staging.len() as int;
    let d = v.dim as int;
    assert(n * d * 4 == 4 * (n * d)) by (nonlinear_arith);
    assert(v.staging =~= v.staging.take(n));
    lemma_rows_appended(math, v, v.staging, m);
    law_same_tier_keeps_order(m, w);
    assert forall|id: VectorId| #[trigger] w.fetched(id) == v.fetched(id) by {
        assert(w.live().contains(id) <==> m.live().contains(id));
        assert(m.records.contains_key(id) <==> v.records.contains_key(id) || staged(v.staging, id)
            is Some);
        assert(w.row(id) == m.row(id));
        if let Some(s) = staged(v.staging, id) {
            law_get(v, id);
            assert(m.row(id) == Some(s.row));
        } else if v.live().contains(id) {
            assert(m.row(id) == v.row(id));
        }
    }
}

/// The id stands for a row of the file.
pub open spec fn of_file(v: DbView, path: Seq<char>, id: VectorId) -> bool {
    v.fetched(id) is Ok && v.fetched(id)->Ok_0.1.file_path@ == path
}

/// A tombstone hides its row and no other.
pub proof fn law_tombstone_hides_its_row(v: DbView, id: VectorId)
    requires
        v.readable(),
        v.live().contains(id),
    ensures
        v.with_tombstone(id).readable(),
        v.with_tombstone(id).fetched(id) == Err::<(Seq<u32>, ChunkRecord), DbError>(
            DbError::MissingMetadata { id },
        ),
        forall|x: VectorId|
            x != id ==> #[trigger] v.with_tombstone(id).fetched(x) == v.fetched(x),
{
    let w = v.with_tombstone(id);
    law_tombstone_keeps_order(v, id);
    law_get(v, id);
    assert forall|x: VectorId| x != id implies #[trigger] w.fetched(x) == v.fetched(x) by {
        assert(w.live().contains(x) <==> v.live().contains(x));
        assert(w.row(x) == v.row(x));
    }
}

/// The outcome of giving a single id its tombstone: the row is gone, every other row stays.
pub proof fn law_tombstone_then_get<M: VectorMath>(
    math: M,
    v: DbView,
    id: VectorId,
    w: DbView,
    r: Result<bool, DbError>,
)
    requires
        v.readable(),
        !v.read_only,
        v.live().contains(id),
        tombstone_outcome(math, v, id, w, r),
    ensures
        w.readable(),
        kept(v, w),
        r is Ok ==> r == Ok::<bool, DbError>(true),
        bucket_settings(v).0 > 0 ==> r is Ok,
        w.fetched(id) == Err::<(Seq<u32>, ChunkRecord), DbError>(DbError::MissingMetadata { id }),
        forall|x: VectorId| x != id ==> #[trigger] w.fetched(x) == v.fetched(x),
        w.next_id == v.next_id,
        w.dim == v.dim,
        w.policy == v.policy,
        w.staging == v.staging,
        w.read_only == v.read_only,
{
    let m = v.with_tombstone(id);
    law_tombstone_keeps_order(v, id);
    law_tombstone_hides_its_row(v, id);
    law_recording_keeps_rows(m, m.recorded());
    law_settling_keeps_rows(math, m.recorded(), w, true, r);
    assert(w.fetched(id) == m.recorded().fetched(id));
    assert(m.recorded().fetched(id) == m.fetched(id));
    assert forall|x: VectorId| x != id implies #[trigger] w.fetched(x) == v.fetched(x) by {
        assert(w.fetched(x) == m.recorded().fetched(x));
        assert(m.recorded().fetched(x) == m.fetched(x));
    }
}

/// Tombstones for live rows, one after the other.
pub(crate) proof fn lemma_tombstone_list(v: DbView, ids: Seq<VectorId>)
    requires
        v.readable(),
        forall|i: int| 0 <= i < ids.len() ==> v.live().contains(#[trigger] ids[i]),
    ensures
        ({
            let (m, n, stop) = tombstone_list(v, ids);
            &&& m.readable()
            &&& kept(v, m)
            &&& v.stored() ==> m.stored()
            &&& stop is None
            &&& n == ids.to_set().len()
            &&& m.live() == v.live().difference(ids.to_set())
            &&& m.live().len() + n == v.live().len()
            &&& m.tombstones == v.tombstones.union(ids.to_set())
            &&& m.records == v.records
            &&& m.staging == v.staging
            &&& m.next_id == v.next_id
            &&& m.dim == v.dim
            &&& m.policy == v.policy
            &&& m.read_only == v.read_only
            &&& bucket_settings(m) == bucket_settings(v)
            &&& forall|x: VectorId|
                !ids.contains(x) ==> #[trigger] m.fetched(x) == v.fetched(x)
            &&& forall|key: Seq<char>, x: VectorId|
                #![trigger listed(m.postings.by_file, key, x)]
                !ids.contains(x) ==> (listed(m.postings.by_file, key, x) <==> listed(
                    v.postings.by_file,
                    key,
                    x,
                ))
            &&& forall|x: VectorId|
                #![trigger ids.contains(x)]
                ids.contains(x) ==> !listed(m.postings.by_file, v.records[x].file_path@, x)
        }),
    decreases ids.len(),
{
    assert(v.live().finite()) by {
        vstd::set_lib::lemma_len_subset(v.live(), v.records.dom());
    }
    if ids.len() > 0 {
        let fewer = ids.drop_last();
        let last = ids.last();
        let (m, n, stop) = tombstone_list(v, fewer);
        assert forall|i: int| 0 <= i < fewer.len() implies v.live().contains(
            #[trigger] fewer[i],
        ) by {
            assert(v.live().contains(ids[i]));
        }
        lemma_tombstone_list(v, fewer);
        assert(ids =~= fewer.push(last));
        crate::ids::lemma_push_has(fewer, last);
        assert(v.live().contains(ids[ids.len() - 1]));
        assert(ids.to_set() =~= fewer.to_set().insert(last)) by {
            assert forall|x: VectorId| ids.to_set().contains(x) <==> fewer.to_set().insert(
                last,
            ).contains(x) by {
                assert(fewer.push(last).contains(x) <==> fewer.contains(x) || x == last);
            }
        }
        assert(fewer.to_set().finite()) by {
            vstd::seq_lib::seq_to_set_is_finite(fewer);
        }
        if fewer.contains(last) {
            assert(fewer.to_set().insert(last) =~= fewer.to_set());
            assert(m.tombstones.contains(last));
            assert forall|x: VectorId| ids.contains(x) <==> fewer.contains(x) by {
                assert(fewer.push(last).contains(x) <==> fewer.contains(x) || x == last);
            }
        } else {
            assert(m.live().contains(last));
            law_tombstone_hides_its_row(m, last);
            law_tombstone_keeps_order(m, last);
            let w = m.with_tombstone(last);
            assert(w.live() =~= v.live().difference(ids.to_set()));
            assert(w.tombstones =~= v.tombstones.union(ids.to_set()));
            assert(m.live().finite()) by {
                vstd::set_lib::lemma_len_subset(m.live(), v.live());
            }
            assert forall|x: VectorId| !ids.contains(x) implies #[trigger] w.fetched(x)
                == v.fetched(x) by {
                assert(fewer.push(last).contains(x) <==> fewer.contains(x) || x == last);
                assert(m.fetched(x) == v.fetched(x));
            }
            assert forall|key: Seq<char>, x: VectorId|
                #![trigger listed(w.postings.by_file, key, x)]
                !ids.contains(x) implies (listed(w.postings.by_file, key, x) <==> listed(
                v.postings.by_file,
                key,
                x,
            )) by {
                assert(fewer.push(last).contains(x) <==> fewer.contains(x) || x == last);
                assert(listed(m.postings.by_file, key, x) <==> listed(v.postings.by_file, key, x));
            }
            assert forall|x: VectorId|
                #![trigger ids.contains(x)]
                ids.contains(x) implies !listed(
                w.postings.by_file,
                v.records[x].file_path@,
                x,
            ) by {
                assert(fewer.push(last).contains(x) <==> fewer.contains(x) || x == last);
                if x != last {
                    assert(fewer.contains(x));
                    assert(!listed(m.postings.by_file, v.records[x].file_path@, x));
                }
            }
        }
    } else {
        assert(ids.to_set() =~= Set::<VectorId>::empty());
        assert(v.live().difference(ids.to_set()) =~= v.live());
        assert(v.tombstones.union(ids.to_set()) =~= v.tombstones);
    }
}

/// The staged row of an id, unless it belongs to this file.
pub open spec fn staged_elsewhere(staging: Seq<Staged>, path: Seq<char>, id: VectorId) -> Option<
    Staged,
> {
    match staged(staging, id) {
        Some(s) => if s.record.file_path@ == path {
            None
        } else {
            Some(s)
        },
        None => None,
    }
}

/// Dropping the staged rows of a file hides these and no others.
pub(crate) proof fn lemma_drop_staged(v: DbView, path: Seq<char>)
    requires
        v.readable(),
    ensures
        ({
            let w = DbView { staging: of_other_files(v.staging, path), ..v };
            &&& w.readable()
            &&& kept(v, w)
            &&& v.stored() ==> w.stored()
            &&& w.live() == v.live()
            &&& forall|id: VectorId| #[trigger]
                w.fetched(id) == match staged(v.staging, id) {
                    Some(s) => if s.record.file_path@ == path {
                        Err::<(Seq<u32>, ChunkRecord), DbError>(DbError::MissingMetadata { id })
                    } else {
                        v.fetched(id)
                    },
                    None => v.fetched(id),
                }
            &&& forall|id: VectorId| #[trigger]
                staged(w.staging, id) == staged_elsewhere(v.staging, path, id)
        }),
{
    let w = DbView { staging: of_other_files(v.staging, path), ..v };
    lemma_fewer_staged_inv(v, path);
    lemma_other_files(v.staging, path);
    law_same_tier_keeps_order(v, w);
    assert forall|i: int| 0 <= i < w.staging.len() implies !w.records.contains_key(
        (#[trigger] w.staging[i]).id,
    ) by {
        let p = choose|p: int| i <= p < v.staging.len() && v.staging[p] == w.staging[i];
        assert(!v.records.contains_key(v.staging[p].id));
    }
    assert forall|id: VectorId| #[trigger] staged(w.staging, id) == staged_elsewhere(
        v.staging,
        path,
        id,
    ) by {
        if let Some(s) = staged(v.staging, id) {
            lemma_staged_found(v.staging, id);
            let p = choose|p: int| 0 <= p < v.staging.len() && v.staging[p].id == id;
            lemma_staged_at(v.staging, id, p);
            if s.record.file_path@ == path {
                if staged(w.staging, id) is Some {
                    lemma_staged_found(w.staging, id);
                    let i = choose|i: int| 0 <= i < w.staging.len() && w.staging[i].id == id;
                    let q = choose|q: int| i <= q < v.staging.len() && v.staging[q] == w.staging[i];
                    lemma_staged_at(v.staging, id, q);
                    assert(w.staging[i].record.file_path@ != path);
                }
            } else {
                assert(w.staging.contains(v.staging[p]));
                let i = choose|i: int| 0 <= i < w.staging.len() && w.staging[i] == v.staging[p];
                lemma_staged_at(w.staging, id, i);
            }
        } else {
            if staged(w.staging, id) is Some {
                lemma_staged_found(w.staging, id);
                let i = choose|i: int| 0 <= i < w.staging.len() && w.staging[i].id == id;
                let q = choose|q: int| i <= q < v.staging.len() && v.staging[q] == w.staging[i];
                lemma_staged_at(v.staging, id, q);
            }
        }
    }
    assert forall|id: VectorId| #[trigger] w.fetched(id) == match staged(v.staging, id) {
        Some(s) => if s.record.file_path@ == path {
            Err::<(Seq<u32>, ChunkRecord), DbError>(DbError::MissingMetadata { id })
        } else {
            v.fetched(id)
        },
        None => v.fetched(id),
    } by {
        assert(w.row(id) == v.row(id));
        assert(staged(w.staging, id) == staged_elsewhere(v.staging, path, id));
        law_get(v, id);
    }
}

/// The ids that stand for a row of the file.
pub open spec fn file_ids(v: DbView, path: Seq<char>) -> Set<VectorId> {
    Set::new(|id: VectorId| of_file(v, path, id))
}

/// The posting list of the file names exactly its live rows.
pub open spec fn lists_file(v: DbView, path: Seq<char>) -> bool {
    forall|id: VectorId| #[trigger]
        listed(v.postings.by_file, path, id) <==> v.live().contains(id)
            && v.records[id].file_path@ == path
}

/// Posting lists that name exactly the live rows do so for each file.
pub proof fn law_every_file_is_listed(v: DbView, path: Seq<char>)
    requires
        v.listed(true),
    ensures
        lists_file(v, path),
{
    assert forall|id: VectorId| #[trigger]
        listed(v.postings.by_file, path, id) <==> v.live().contains(id)
            && v.records[id].file_path@ == path by {
        assert(posting_key(v.records[id], true) == v.records[id].file_path@);
    }
}

/// A deletion takes exactly the rows of its file out of both tiers: it returns their number, which
/// is what the store has fewer rows now, none of them can be fetched any more, and every other
/// row stays. It succeeds where the index has a bucket.
pub proof fn law_delete_removes_the_file<M: VectorMath>(
    math: M,
    v: DbView,
    path: Seq<char>,
    w: DbView,
    r: Result<usize, DbError>,
)
    requires
        v.readable(),
        lists_file(v, path),
        v.row_count() <= usize::MAX,
        !v.read_only,
        delete_outcome(math, v, path, w, r),
    ensures
        w.readable(),
        kept(v, w),
        v.stored() && v.has_room(0) ==> w.stored(),
        lists_file(w, path),
        tombstone_list(v, list_of(v.postings.by_file, path)).2 is None,
        bucket_settings(v).0 > 0 ==> r is Ok,
        file_ids(v, path).finite(),
        r is Ok ==> r->Ok_0 == file_ids(v, path).len(),
        file_ids(w, path) == Set::<VectorId>::empty(),
        file_ids(v, path).len() + w.row_count() == v.row_count(),
        w.records.dom().subset_of(v.records.dom()),
        w.next_id == v.next_id,
        !w.read_only,
        w.dim == v.dim,
        w.policy == v.policy,
        forall|id: VectorId| #[trigger]
            staged(w.staging, id) == staged_elsewhere(v.staging, path, id),
        forall|id: VectorId| #[trigger]
            w.fetched(id) == if of_file(v, path, id) {
                Err::<(Seq<u32>, ChunkRecord), DbError>(DbError::MissingMetadata { id })
            } else {
                v.fetched(id)
            },
{
    let ids = list_of(v.postings.by_file, path);
    assert forall|id: VectorId| #[trigger] ids.contains(id) <==> v.live().contains(id)
        && v.records[id].file_path@ == path by {
        assert(listed(v.postings.by_file, path, id) <==> v.live().contains(id)
            && v.records[id].file_path@ == path);
    }
    assert forall|i: int| 0 <= i < ids.len() implies v.live().contains(#[trigger] ids[i]) by {
        assert(ids.contains(ids[i]));
    }
    lemma_tombstone_list(v, ids);
    let (m, n, stop) = tombstone_list(v, ids);
    lemma_drop_staged(m, path);
    let d = DbView { staging: of_other_files(m.staging, path), ..m };
    let e = if n > 0 {
        d.recorded()
    } else {
        d
    };
    lemma_other_files(m.staging, path);
    law_recording_keeps_rows(d, e);
    let removed = n + (m.staging.len() - d.staging.len());
    assert(removed <= usize::MAX);
    law_settling_keeps_rows(math, e, w, removed as usize, r);
    assert(same_rows(d, w));
    assert(e.row_count() + removed == v.row_count());
    lemma_less_room(v, e);
    assert forall|id: VectorId| #[trigger] w.fetched(id) == if of_file(v, path, id) {
        Err::<(Seq<u32>, ChunkRecord), DbError>(DbError::MissingMetadata { id })
    } else {
        v.fetched(id)
    } by {
        assert(w.fetched(id) == d.fetched(id));
        law_get(v, id);
        law_get(m, id);
        if ids.contains(id) {
            assert(ids.to_set().contains(id));
            assert(!m.live().contains(id));
        } else {
            assert(m.fetched(id) == v.fetched(id));
        }
    }
    law_rows_are_counted(v);
    law_rows_are_counted(w);
    assert(row_ids(v) =~= row_ids(w) + file_ids(v, path));
    vstd::set_lib::lemma_len_subset(file_ids(v, path), row_ids(v));
    vstd::set_lib::lemma_set_disjoint_lens(row_ids(w), file_ids(v, path));
    assert(file_ids(w, path) =~= Set::<VectorId>::empty());
    assert forall|id: VectorId| #[trigger] listed(w.postings.by_file, path, id) <==> w.live().contains(
        id,
    ) && w.records[id].file_path@ == path by {
        assert(w.postings == m.postings);
        if ids.contains(id) {
            assert(v.records[id].file_path@ == path);
            assert(!listed(m.postings.by_file, path, id));
            assert(ids.to_set().contains(id));
        } else {
            assert(listed(m.postings.by_file, path, id) <==> listed(v.postings.by_file, path, id));
            assert(!ids.to_set().contains(id));
        }
    }
}

/// Fewer rows leave at least as much room.
proof fn lemma_less_room(v: DbView, w: DbView)
    requires
        w.dim == v.dim,
        w.row_count() <= v.row_count(),
    ensures
        v.has_room(0) ==> w.has_room(0),
{
    let a = w.row_count() as int;
    let b = v.row_count() as int;
    let d = v.dim as int;
    assert(a * d <= b * d) by (nonlinear_arith)
        requires
            a <= b,
            d >= 0,
    ;
}

/// A second deletion of the same file finds nothing and changes no row.
pub proof fn law_second_deletion_finds_nothing<M: VectorMath>(
    math: M,
    v: DbView,
    path: Seq<char>,
    w: DbView,
    r: Result<usize, DbError>,
    again: DbView,
    s: Result<usize, DbError>,
)
    requires
        v.readable(),
        lists_file(v, path),
        v.row_count() <= usize::MAX,
        !v.read_only,
        delete_outcome(math, v, path, w, r),
        delete_outcome(math, w, path, again, s),
    ensures
        s is Ok ==> s == Ok::<usize, DbError>(0),
        bucket_settings(w).0 > 0 ==> s is Ok,
        same_rows(w, again),
        again.row_count() == w.row_count(),
{
    law_delete_removes_the_file(math, v, path, w, r);
    law_delete_removes_the_file(math, w, path, again, s);
    assert forall|id: VectorId| #[trigger] again.fetched(id) == w.fetched(id) by {
        assert(!file_ids(w, path).contains(id));
    }
}

/// The id that the `i`th of a list of new rows gets.
pub open spec fn nth_id(v: DbView, i: int) -> VectorId {
    (v.next_id + i) as VectorId
}

/// The next `n` ids are new.
pub open spec fn ids_are_new(v: DbView, n: nat) -> bool {
    forall|id: VectorId| #[trigger]
        v.records.contains_key(id) ==> id < v.next_id || id >= v.next_id + n
}

/// New rows of a file, one after the other: each can be fetched, and every earlier row as before.
pub(crate) proof fn lemma_chunks_inserted<M: VectorMath>(
    math: M,
    v: DbView,
    path: Seq<char>,
    chunks: Seq<Chunk>,
    w: DbView,
    stop: Option<DbError>,
)
    requires
        v.readable(),
        ids_are_new(v, chunks.len()),
        chunks_inserted(math, v, path, chunks, w, stop),
    ensures
        w.readable(),
        kept(v, w),
        v.stored() ==> w.stored(),
        bucket_settings(w) == bucket_settings(v),
        w.read_only == v.read_only,
        w.staging == v.staging,
        w.dim == v.dim,
        w.policy == v.policy,
        v.next_id <= w.next_id <= v.next_id + chunks.len(),
        w.row_count() == v.row_count() + (w.next_id - v.next_id),
        forall|id: VectorId| #[trigger]
            w.records.contains_key(id) <==> v.records.contains_key(id) || v.next_id <= id
                < w.next_id,
        forall|id: VectorId|
            !(v.next_id <= id < w.next_id) ==> #[trigger] w.fetched(id) == v.fetched(id),
        forall|id: VectorId| v.next_id <= id < w.next_id ==> #[trigger] w.live().contains(id),
        stop is None ==> w.next_id == v.next_id + chunks.len(),
        stop is None ==> forall|i: int|
            0 <= i < chunks.len() ==> (#[trigger] chunks[i]).record.file_path@ == path && w.fetched(
                nth_id(v, i),
            ) == Ok::<(Seq<u32>, ChunkRecord), DbError>((chunks[i].row, chunks[i].record)),
    decreases chunks.len(),
{
    if chunks.len() > 0 {
        let fewer = chunks.drop_last();
        let last = chunks.last();
        let (m, before) = choose|m: DbView, before: Option<DbError>|
            chunks_inserted(math, v, path, chunks.drop_last(), m, before)
                && #[trigger] chunk_inserted(math, m, before, path, chunks.last(), w, stop);
        lemma_chunks_inserted(math, v, path, fewer, m, before);
        if before is None && last.record.file_path@ == path && m.persistent_refusal(
            last.row.len(),
            last.record,
        ) is None {
            assert(!m.records.contains_key(m.next_id));
            law_insert_then_get(math, m, last.row, last.record, w);
            assert forall|id: VectorId| #[trigger]
                w.records.contains_key(id) <==> v.records.contains_key(id) || v.next_id <= id
                    < w.next_id by {
                assert(w.records.dom().contains(id) <==> m.records.contains_key(id) || id
                    == m.next_id);
            }
            assert forall|i: int| 0 <= i < chunks.len() implies (
            #[trigger] chunks[i]).record.file_path@ == path && w.fetched(nth_id(v, i)) == Ok::<
                (Seq<u32>, ChunkRecord),
                DbError,
            >((chunks[i].row, chunks[i].record)) by {
                if i < fewer.len() {
                    assert(fewer[i] == chunks[i]);
                    assert(nth_id(v, i) != m.next_id);
                } else {
                    assert(nth_id(v, i) == m.next_id);
                }
            }
            assert forall|id: VectorId| v.next_id <= id
                < w.next_id implies #[trigger] w.live().contains(id) by {
                if id != m.next_id {
                    assert(m.live().contains(id));
                }
            }
            assert forall|id: VectorId|
                !(v.next_id <= id < w.next_id) implies #[trigger] w.fetched(id) == v.fetched(
                id,
            ) by {
                assert(m.fetched(id) == v.fetched(id));
            }
        }
    }
}

/// A replacement touches no row of another file. Where it succeeds, the rows of the file are
/// exactly the new ones, all of them in the persistent tier, under ids that nobody had before, in
/// their order.
pub proof fn law_replace_swaps_the_file<M: VectorMath>(
    math: M,
    v: DbView,
    path: Seq<char>,
    chunks: Seq<Chunk>,
    w: DbView,
    r: Result<(), DbError>,
)
    requires
        v.readable(),
        lists_file(v, path),
        ids_are_new(v, chunks.len()),
        v.row_count() <= usize::MAX,
        !v.read_only,
        replace_outcome(math, v, path, chunks, w, r),
    ensures
        w.readable(),
        kept(v, w),
        v.stored() && v.has_room(chunks.len()) ==> w.stored(),
        !w.read_only,
        w.dim == v.dim,
        w.policy == v.policy,
        v.next_id <= w.next_id,
        forall|id: VectorId|
            !(v.next_id <= id < w.next_id) ==> #[trigger] w.fetched(id) == if of_file(
                v,
                path,
                id,
            ) {
                Err::<(Seq<u32>, ChunkRecord), DbError>(DbError::MissingMetadata { id })
            } else {
                v.fetched(id)
            },
        forall|id: VectorId| #[trigger]
            staged(w.staging, id) == staged_elsewhere(v.staging, path, id),
        r is Ok ==> {
            &&& w.next_id == v.next_id + chunks.len()
            &&& forall|i: int|
                0 <= i < chunks.len() ==> {
                    &&& #[trigger] nth_id(v, i) == v.next_id + i
                    &&& chunks[i].record.file_path@ == path
                    &&& v.fetched(nth_id(v, i)) is Err
                    &&& w.live().contains(nth_id(v, i))
                    &&& w.fetched(nth_id(v, i)) == Ok::<(Seq<u32>, ChunkRecord), DbError>(
                        (chunks[i].row, chunks[i].record),
                    )
                }
            &&& forall|id: VectorId| #[trigger]
                of_file(w, path, id) <==> exists|i: int|
                    0 <= i < chunks.len() && id == #[trigger] nth_id(v, i)
            &&& file_ids(w, path).len() == chunks.len()
        },
{
    let (m, removed) = choose|m: DbView, removed: Result<usize, DbError>| #[trigger]
        delete_outcome(math, v, path, m, removed) && match removed {
            Err(e) => r == Err::<(), DbError>(e) && w == m,
            Ok(_) => refilled(math, m, path, chunks, w, r),
        };
    law_delete_removes_the_file(math, v, path, m, removed);
    lemma_replace_room(v, chunks.len(), m, m);
    if removed is Ok {
        let (x, stop) = choose|x: DbView, stop: Option<DbError>| #[trigger]
            chunks_inserted(math, m, path, chunks, x, stop) && match stop {
                Some(e) => r == Err::<(), DbError>(e) && w == x,
                None => settled(math, x.recorded(), w, (), r),
            };
        assert(ids_are_new(m, chunks.len())) by {
            assert forall|id: VectorId| #[trigger] m.records.contains_key(id) implies id
                < m.next_id || id >= m.next_id + chunks.len() by {
                assert(m.records.dom().contains(id));
                assert(v.records.contains_key(id));
            }
        }
        lemma_chunks_inserted(math, m, path, chunks, x, stop);
        lemma_replace_room(v, chunks.len(), m, x);
        if stop is None {
            law_recording_keeps_rows(x, x.recorded());
            law_settling_keeps_rows(math, x.recorded(), w, (), r);
            assert(x.recorded().row_count() == x.row_count());
            assert(same_rows(x, w));
        }
        assert forall|id: VectorId|
            !(v.next_id <= id < w.next_id) implies #[trigger] w.fetched(id) == if of_file(
            v,
            path,
            id,
        ) {
            Err::<(Seq<u32>, ChunkRecord), DbError>(DbError::MissingMetadata { id })
        } else {
            v.fetched(id)
        } by {
            assert(w.fetched(id) == x.fetched(id));
            assert(x.fetched(id) == m.fetched(id));
        }
        if r is Ok {
            assert forall|i: int| 0 <= i < chunks.len() implies {
                &&& #[trigger] nth_id(v, i) == v.next_id + i
                &&& chunks[i].record.file_path@ == path
                &&& v.fetched(nth_id(v, i)) is Err
                &&& w.live().contains(nth_id(v, i))
                &&& w.fetched(nth_id(v, i)) == Ok::<(Seq<u32>, ChunkRecord), DbError>(
                    (chunks[i].row, chunks[i].record),
                )
            } by {
                let id = nth_id(v, i);
                assert(chunks[i].record.file_path@ == path);
                assert(id == nth_id(m, i));
                assert(w.fetched(id) == x.fetched(id));
                assert(x.live().contains(id));
                law_get(v, id);
                assert(!v.records.contains_key(id));
            }
            assert forall|id: VectorId| #[trigger] of_file(w, path, id) <==> exists|i: int|
                0 <= i < chunks.len() && id == #[trigger] nth_id(v, i) by {
                if of_file(w, path, id) {
                    assert(v.next_id <= id < w.next_id);
                    assert(id == nth_id(v, id - v.next_id));
                }
            }
            lemma_file_ids_len(v, path, chunks.len(), w);
        }
    }
}

proof fn lemma_replace_room(v: DbView, n: nat, m: DbView, x: DbView)
    requires
        m.dim == v.dim,
        x.dim == v.dim,
        m.row_count() <= v.row_count(),
        x.row_count() <= m.row_count() + n,
    ensures
        v.has_room(n) ==> v.has_room(0) && x.has_room(0),
{
    let a = v.row_count() as int;
    let b = x.row_count() as int;
    let c = v.row_count() + n;
    let d = v.dim as int;
    assert(a * d <= c * d && b * d <= c * d) by (nonlinear_arith)
        requires
            a <= c,
            b <= c,
            d >= 0,
    ;
}

/// A file whose rows are the next `n` ids has `n` rows.
proof fn lemma_file_ids_len(v: DbView, path: Seq<char>, n: nat, w: DbView)
    requires
        forall|i: int| 0 <= i < n ==> #[trigger] nth_id(v, i) == v.next_id + i,
        forall|id: VectorId| #[trigger]
            of_file(w, path, id) <==> exists|i: int| 0 <= i < n && id == #[trigger] nth_id(v, i),
    ensures
        file_ids(w, path).len() == n,
{
    let ids = Seq::new(n, |i: int| nth_id(v, i));
    assert forall|i: int, j: int| 0 <= i < n && 0 <= j < n && i != j implies ids[i] != ids[j] by {
        assert(nth_id(v, i) == v.next_id + i);
        assert(nth_id(v, j) == v.next_id + j);
    }
    ids.unique_seq_to_set();
    assert forall|id: VectorId| file_ids(w, path).contains(id) <==> ids.to_set().contains(id) by {
        if of_file(w, path, id) {
            let i = choose|i: int| 0 <= i < n && id == #[trigger] nth_id(v, i);
            assert(ids[i] == id);
        }
        if ids.contains(id) {
            let i = choose|i: int| 0 <= i < ids.len() && ids[i] == id;
            assert(id == nth_id(v, i));
        }
    }
    assert(file_ids(w, path) =~= ids.to_set());
}

/// A cleared staging tier hides the staged rows and no others.
pub proof fn law_clear_staging_hides_staged_rows(v: DbView)
    requires
        v.readable(),
    ensures
        (DbView { staging: Seq::empty(), ..v }).readable(),
        kept(v, DbView { staging: Seq::empty(), ..v }),
        forall|id: VectorId| #[trigger]
            (DbView { staging: Seq::empty(), ..v }).fetched(id) == if staged(v.staging, id) is Some {
                Err::<(Seq<u32>, ChunkRecord), DbError>(DbError::MissingMetadata { id })
            } else {
                v.fetched(id)
            },
{
    let w = DbView { staging: Seq::empty(), ..v };
    law_same_tier_keeps_order(v, w);
    assert forall|id: VectorId| #[trigger] w.fetched(id) == if staged(v.staging, id) is Some {
        Err::<(Seq<u32>, ChunkRecord), DbError>(DbError::MissingMetadata { id })
    } else {
        v.fetched(id)
    } by {
        assert(w.row(id) == v.row(id));
        law_get(v, id);
    }
}

/// A reset store is coherent and holds nothing.
pub proof fn law_reset_is_empty(v: DbView)
    ensures
        v.fresh().coherent(),
        v.fresh().row_count() == 0,
        forall|id: VectorId| #[trigger]
            v.fresh().fetched(id) == Err::<(Seq<u32>, ChunkRecord), DbError>(
                DbError::MissingMetadata { id },
            ),
{
    let w = v.fresh();
    assert(w.live() =~= Set::<VectorId>::empty());
    assert(w.records.dom() =~= w.offsets.dom());
}

} // verus!
