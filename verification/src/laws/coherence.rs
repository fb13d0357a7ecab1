//! What every operation keeps in order.

use vstd::prelude::*;

use crate::compact::{ascending, compacted, laid_out};
use crate::ids::lists_set;
use crate::ivf::{
    bucket_scores, built, is_nearest, law_ranking_names_every_bucket, nearest_in, ranked, IvfView,
    VectorMath,
};
use crate::manifest::row_fits;
use crate::postings::{filtered, list_of, listed, with_id, without_id, Lists};
use crate::state::{
    appended, bucket_settings, compact_outcome, compaction_step, lists_live, maybe_compacted,
    maybe_compacted_at, posting_key, rebuilt, row_placed, settled, DbView, OpView,
};
use crate::storage::compaction::lemma_compaction_inv;
use crate::storage::delete::lemma_tombstone_inv;
use crate::storage::insert::lemma_appended_inv;
use crate::types::{ChunkRecord, CompactionStats, DbError, VectorId, MAX_VECTORS_BYTES};
use crate::words::{bytes_of, law_words_of_bytes_of};

verus! {

/// Listing an id under a key lists it there, and nothing else changes.
pub(crate) proof fn lemma_with_id(lists: Lists, key: Seq<char>, id: VectorId)
    ensures
        forall|k: Seq<char>, x: VectorId| #[trigger]
            listed(with_id(lists, key, id), k, x) <==> listed(lists, k, x) || (k == key && x == id),
{
    let list = list_of(lists, key);
    let more = with_id(lists, key, id);
    crate::ids::lemma_push_has(list, id);
    assert forall|k: Seq<char>, x: VectorId| #[trigger]
        listed(more, k, x) <==> listed(lists, k, x) || (k == key && x == id) by {
        if k == key {
            assert(more[key] == list.push(id));
            assert(list.push(id).contains(x) <==> list.contains(x) || x == id);
        }
    }
}

/// A list without an id.
proof fn lemma_filtered(ids: Seq<VectorId>, id: VectorId)
    ensures
        forall|x: VectorId| #[trigger]
            filtered(ids, id).contains(x) <==> ids.contains(x) && x != id,
    decreases ids.len(),
{
    reveal(Seq::filter);
    if ids.len() > 0 {
        let fewer = ids.drop_last();
        let last = ids.last();
        lemma_filtered(fewer, id);
        assert(ids =~= fewer.push(last));
        crate::ids::lemma_push_has(fewer, last);
        crate::ids::lemma_push_has(filtered(fewer, id), last);
        assert forall|x: VectorId| #[trigger]
            filtered(ids, id).contains(x) <==> ids.contains(x) && x != id by {
            assert(fewer.push(last).contains(x) <==> fewer.contains(x) || x == last);
            assert(filtered(fewer, id).push(last).contains(x) <==> filtered(fewer, id).contains(x)
                || x == last);
        }
    }
}

/// Taking an id out of the list of a key takes it out there, and nothing else changes.
pub(crate) proof fn lemma_without_id(lists: Lists, key: Seq<char>, id: VectorId)
    ensures
        forall|k: Seq<char>, x: VectorId| #[trigger]
            listed(without_id(lists, key, id), k, x) <==> listed(lists, k, x) && !(k == key && x
                == id),
{
    let fewer = without_id(lists, key, id);
    if lists.contains_key(key) {
        lemma_filtered(lists[key], id);
        let kept = filtered(lists[key], id);
        assert forall|k: Seq<char>, x: VectorId| #[trigger]
            listed(fewer, k, x) <==> listed(lists, k, x) && !(k == key && x == id) by {
            if k == key {
                assert(kept.contains(x) <==> lists[key].contains(x) && x != id);
                if kept.len() == 0 {
                    assert(!kept.contains(x));
                }
            }
        }
    }
}

proof fn lemma_lists_insert(
    lists: Lists,
    live: Set<VectorId>,
    records: Map<VectorId, ChunkRecord>,
    by_file: bool,
    id: VectorId,
    record: ChunkRecord,
)
    requires
        lists_live(lists, live, records, by_file),
        !live.contains(id),
    ensures
        lists_live(
            with_id(lists, posting_key(record, by_file), id),
            live.insert(id),
            records.insert(id, record),
            by_file,
        ),
{
    let key = posting_key(record, by_file);
    let more = with_id(lists, key, id);
    let records2 = records.insert(id, record);
    lemma_with_id(lists, key, id);
    assert forall|k: Seq<char>, x: VectorId| #[trigger]
        listed(more, k, x) <==> live.insert(id).contains(x) && posting_key(records2[x], by_file)
            == k by {
        assert(listed(lists, k, x) <==> live.contains(x) && posting_key(records[x], by_file) == k);
    }
}

proof fn lemma_lists_remove(
    lists: Lists,
    live: Set<VectorId>,
    records: Map<VectorId, ChunkRecord>,
    by_file: bool,
    id: VectorId,
)
    requires
        lists_live(lists, live, records, by_file),
    ensures
        lists_live(
            without_id(lists, posting_key(records[id], by_file), id),
            live.remove(id),
            records,
            by_file,
        ),
{
    let key = posting_key(records[id], by_file);
    lemma_without_id(lists, key, id);
    let fewer = without_id(lists, key, id);
    assert forall|k: Seq<char>, x: VectorId| #[trigger]
        listed(fewer, k, x) <==> live.remove(id).contains(x) && posting_key(records[x], by_file)
            == k by {
        assert(listed(lists, k, x) <==> live.contains(x) && posting_key(records[x], by_file) == k);
    }
}

/// Only the records of live rows count for the lists.
proof fn lemma_lists_same(
    lists: Lists,
    live: Set<VectorId>,
    records: Map<VectorId, ChunkRecord>,
    by_file: bool,
    records2: Map<VectorId, ChunkRecord>,
)
    requires
        lists_live(lists, live, records, by_file),
        forall|x: VectorId| live.contains(x) ==> #[trigger] records2[x] == records[x],
    ensures
        lists_live(lists, live, records2, by_file),
{
    assert forall|k: Seq<char>, x: VectorId| #[trigger]
        listed(lists, k, x) <==> live.contains(x) && posting_key(records2[x], by_file) == k by {
        assert(listed(lists, k, x) <==> live.contains(x) && posting_key(records[x], by_file) == k);
        if live.contains(x) {
            assert(records2[x] == records[x]);
        }
    }
}

/// What a change keeps, each part where it held before: ids to come are new, the posting lists name
/// exactly the live rows, every row has its place, and the bucketed index fits.
pub open spec fn kept(v: DbView, w: DbView) -> bool {
    &&& v.ids_below() ==> w.ids_below()
    &&& v.listed(true) ==> w.listed(true)
    &&& v.listed(false) ==> w.listed(false)
    &&& v.placed() ==> w.placed()
    &&& v.indexed() ==> w.indexed()
    &&& v.index_sized() ==> w.index_sized()
}

/// Every id stands for the same row, or for none, in both states.
pub open spec fn same_rows(v: DbView, w: DbView) -> bool {
    forall|id: VectorId| #[trigger] w.fetched(id) == v.fetched(id)
}

/// What no compaction and no new index touches.
pub open spec fn same_frame(v: DbView, w: DbView) -> bool {
    &&& w.dim == v.dim
    &&& w.order == v.order
    &&& w.next_id == v.next_id
    &&& w.live() == v.live()
    &&& w.records.dom().subset_of(v.records.dom())
    &&& forall|id: VectorId| v.live().contains(id) ==> #[trigger] w.records[id] == v.records[id]
    &&& w.postings == v.postings
    &&& w.policy == v.policy
    &&& w.staging == v.staging
    &&& w.read_only == v.read_only
}

/// Rows with their own places are what opening a store asks for.
pub proof fn law_placed_rows_are_stored(v: DbView)
    requires
        v.inv(),
        v.placed(),
    ensures
        v.stored(),
{
    assert forall|id: VectorId| v.offsets.contains_key(id) implies #[trigger] row_fits(
        v.dim as nat,
        v.offsets,
        v.bytes.len(),
        id,
    ) by {
        assert(row_placed(v.dim as nat, v.offsets, v.bytes.len(), id));
    }
}

/// Two states with the same persistent tier: it is in order in both or in none.
pub proof fn law_same_tier_keeps_order(v: DbView, w: DbView)
    requires
        v.inv(),
        w == (DbView {
            next_id: w.next_id,
            policy: w.policy,
            staging: w.staging,
            read_only: w.read_only,
            ops: w.ops,
            ..v
        }),
        v.next_id <= w.next_id,
        w.policy.valid(),
        w.staging_valid(),
    ensures
        w.inv(),
        w.live() == v.live(),
        kept(v, w),
        v.stored() ==> w.stored(),
        forall|id: VectorId| #[trigger] w.row(id) == v.row(id),
{
    assert(w.live() =~= v.live());
    assert forall|x: VectorId| w.live().contains(x) implies #[trigger] row_fits(
        w.dim as nat,
        w.offsets,
        w.bytes.len(),
        x,
    ) by {
        assert(row_fits(v.dim as nat, v.offsets, v.bytes.len(), x));
    }
    if v.placed() {
        assert forall|x: VectorId| w.offsets.contains_key(x) implies #[trigger] row_placed(
            w.dim as nat,
            w.offsets,
            w.bytes.len(),
            x,
        ) by {
            assert(row_placed(v.dim as nat, v.offsets, v.bytes.len(), x));
        }
    }
    if v.stored() {
        assert forall|x: VectorId| w.offsets.contains_key(x) implies #[trigger] row_fits(
            w.dim as nat,
            w.offsets,
            w.bytes.len(),
            x,
        ) by {
            assert(row_fits(v.dim as nat, v.offsets, v.bytes.len(), x));
        }
    }
}

/// Queued changes do not count, and neither does the compaction policy.
pub proof fn law_recording_keeps_rows(v: DbView, w: DbView)
    requires
        v.inv(),
        w == (DbView { policy: w.policy, ops: w.ops, ..v }),
        w.policy.valid(),
    ensures
        w.inv(),
        kept(v, w),
        v.stored() ==> w.stored(),
        same_rows(v, w),
        w.live() == v.live(),
        w.policy == v.policy ==> same_frame(v, w),
        v.coherent() ==> w.coherent(),
{
    law_same_tier_keeps_order(v, w);
}

/// A new row keeps the persistent tier in order, as far as its id is unused.
pub proof fn law_append_keeps_order<M: VectorMath>(
    math: M,
    v: DbView,
    id: VectorId,
    row: Seq<u32>,
    record: ChunkRecord,
    w: DbView,
)
    requires
        v.inv(),
        v.bytes.len() + 4 * row.len() <= MAX_VECTORS_BYTES,
        row.len() == v.dim,
        appended(math, v, id, row, record, w),
    ensures
        w.inv(),
        v.stored() ==> w.stored(),
        v.index_sized() ==> w.index_sized(),
        v.aligned() ==> w.aligned(),
        !v.records.contains_key(id) ==> w.live() == v.live().insert(id),
        v.aligned() && !v.records.contains_key(id) && id < v.next_id ==> kept(v, w),
{
    lemma_appended_inv(math, v, id, row, record, w);
    law_words_of_bytes_of(v.order, row);
    if v.stored() {
        assert forall|x: VectorId| w.offsets.contains_key(x) implies #[trigger] row_fits(
            w.dim as nat,
            w.offsets,
            w.bytes.len(),
            x,
        ) by {
            if x != id {
                assert(row_fits(v.dim as nat, v.offsets, v.bytes.len(), x));
            }
        }
        assert forall|a: VectorId, b: VectorId|
            w.offsets.contains_key(a) && w.offsets.contains_key(b) && a
                != b implies #[trigger] w.offsets[a] != #[trigger] w.offsets[b] by {
            if a == id {
                assert(row_fits(v.dim as nat, v.offsets, v.bytes.len(), b));
            } else if b == id {
                assert(row_fits(v.dim as nat, v.offsets, v.bytes.len(), a));
            } else {
                assert(v.offsets[a] != v.offsets[b]);
            }
        }
    }
    if !v.records.contains_key(id) {
        assert(!v.tombstones.contains(id));
        assert(w.live() =~= v.live().insert(id));
        if v.aligned() && v.placed() {
            lemma_append_keeps_places(math, v, id, row, record, w);
        }
        if v.listed(true) {
            lemma_lists_insert(v.postings.by_file, v.live(), v.records, true, id, record);
        }
        if v.listed(false) {
            lemma_lists_insert(v.postings.by_kind, v.live(), v.records, false, id, record);
        }
        if v.indexed() {
            if let Some(index) = w.ivf {
                let before = v.ivf->Some_0;
                assert(index.assignments.dom() =~= w.live());
                lemma_nearest_is_bucket(math, row, before, v.dim as nat, index.assignments[id]);
            }
        }
    }
}

/// The nearest bucket is one of the buckets.
proof fn lemma_nearest_is_bucket<M: VectorMath>(
    math: M,
    row: Seq<u32>,
    index: IvfView,
    dim: nat,
    b: usize,
)
    requires
        index.num_buckets > 0,
        nearest_in(math, row, index, dim, b),
    ensures
        b < index.num_buckets,
{
    let scores = choose|scores: Seq<u32>|
        #[trigger] bucket_scores(
            math,
            row,
            index.centroids,
            dim,
            index.num_buckets as nat,
            scores,
        ) && is_nearest(b, scores);
    law_ranking_names_every_bucket(scores, scores.len());
    assert(seq![b][0] == ranked(scores, scores.len())[0]);
}

proof fn lemma_append_keeps_places<M: VectorMath>(
    math: M,
    v: DbView,
    id: VectorId,
    row: Seq<u32>,
    record: ChunkRecord,
    w: DbView,
)
    requires
        v.inv(),
        v.aligned(),
        v.placed(),
        v.bytes.len() + 4 * row.len() <= MAX_VECTORS_BYTES,
        row.len() == v.dim,
        appended(math, v, id, row, record, w),
    ensures
        w.placed(),
{
    law_words_of_bytes_of(v.order, row);
    assert forall|x: VectorId| w.offsets.contains_key(x) implies #[trigger] row_placed(
        w.dim as nat,
        w.offsets,
        w.bytes.len(),
        x,
    ) by {
        if x != id {
            assert(row_placed(v.dim as nat, v.offsets, v.bytes.len(), x));
        }
    }
    assert forall|a: VectorId, b: VectorId|
        w.offsets.contains_key(a) && w.offsets.contains_key(b) && a
            != b implies #[trigger] w.offsets[a] + 4 * w.dim <= #[trigger] w.offsets[b]
        || w.offsets[b] + 4 * w.dim <= w.offsets[a] by {
        if a == id {
            assert(row_placed(v.dim as nat, v.offsets, v.bytes.len(), b));
        } else if b == id {
            assert(row_placed(v.dim as nat, v.offsets, v.bytes.len(), a));
        } else {
            assert(v.offsets[a] + 4 * v.dim <= v.offsets[b] || v.offsets[b] + 4 * v.dim
                <= v.offsets[a]);
        }
    }
}

/// A tombstone for a live row keeps a store in order.
pub proof fn law_tombstone_keeps_order(v: DbView, id: VectorId)
    requires
        v.inv(),
        v.live().contains(id),
    ensures
        v.with_tombstone(id).inv(),
        v.with_tombstone(id).live() == v.live().remove(id),
        kept(v, v.with_tombstone(id)),
        v.stored() ==> v.with_tombstone(id).stored(),
        forall|key: Seq<char>, x: VectorId|
            #![trigger listed(v.with_tombstone(id).postings.by_file, key, x)]
            x != id ==> (listed(v.with_tombstone(id).postings.by_file, key, x) <==> listed(
                v.postings.by_file,
                key,
                x,
            )),
        !listed(v.with_tombstone(id).postings.by_file, v.records[id].file_path@, id),
{
    let w = v.with_tombstone(id);
    lemma_tombstone_inv(v, id);
    assert(w.live() =~= v.live().remove(id));
    if v.placed() {
        assert forall|x: VectorId| w.offsets.contains_key(x) implies #[trigger] row_placed(
            w.dim as nat,
            w.offsets,
            w.bytes.len(),
            x,
        ) by {
            assert(row_placed(v.dim as nat, v.offsets, v.bytes.len(), x));
        }
    }
    if v.stored() {
        assert forall|x: VectorId| w.offsets.contains_key(x) implies #[trigger] row_fits(
            w.dim as nat,
            w.offsets,
            w.bytes.len(),
            x,
        ) by {
            assert(row_fits(v.dim as nat, v.offsets, v.bytes.len(), x));
        }
    }
    if v.listed(true) {
        lemma_lists_remove(v.postings.by_file, v.live(), v.records, true, id);
    }
    if v.listed(false) {
        lemma_lists_remove(v.postings.by_kind, v.live(), v.records, false, id);
    }
    lemma_without_id(v.postings.by_file, v.records[id].file_path@, id);
    if v.indexed() {
        if let Some(index) = w.ivf {
            assert(index.assignments.dom() =~= w.live());
        }
    }
}

/// Rows that do not overlap take no more room than there is.
proof fn lemma_rows_fill_the_file(v: DbView, ids: Seq<VectorId>)
    requires
        v.inv(),
        v.placed(),
        ids.no_duplicates(),
        forall|id: VectorId| #[trigger] ids.contains(id) ==> v.live().contains(id),
    ensures
        4 * (ids.len() * v.dim) <= v.bytes.len(),
{
    let size = 4 * v.dim as int;
    let len = v.bytes.len() as int;
    let room = len / size;
    let slots = Seq::new(ids.len(), |i: int| v.offsets[ids[i]] as int / size);
    assert forall|i: int| 0 <= i < slots.len() implies 0 <= #[trigger] slots[i] < room by {
        assert(ids.contains(ids[i]));
        assert(v.offsets.dom().contains(ids[i]));
        assert(row_placed(v.dim as nat, v.offsets, v.bytes.len(), ids[i]));
        let at = v.offsets[ids[i]] as int;
        assert(0 <= at / size && at / size + 1 <= len / size) by (nonlinear_arith)
            requires
                0 <= at,
                size > 0,
                at + size <= len,
        ;
    }
    assert forall|i: int, j: int| 0 <= i < slots.len() && 0 <= j < slots.len() && i
        != j implies slots[i] != slots[j] by {
        assert(ids[i] != ids[j]);
        assert(ids.contains(ids[i]) && ids.contains(ids[j]));
        assert(v.offsets.dom().contains(ids[i]) && v.offsets.dom().contains(ids[j]));
        let a = v.offsets[ids[i]] as int;
        let b = v.offsets[ids[j]] as int;
        assert(a / size != b / size) by (nonlinear_arith)
            requires
                0 <= a,
                0 <= b,
                size > 0,
                a + size <= b || b + size <= a,
        ;
    }
    slots.unique_seq_to_set();
    vstd::set_lib::lemma_int_range(0, room);
    assert(slots.to_set().subset_of(vstd::set_lib::set_int_range(0, room)));
    vstd::set_lib::lemma_len_subset(slots.to_set(), vstd::set_lib::set_int_range(0, room));
    let n = ids.len() as int;
    let d = v.dim as int;
    assert(4 * (n * d) <= len) by (nonlinear_arith)
        requires
            0 <= n <= room,
            room == len / size,
            size == 4 * d,
            d > 0,
            len >= 0,
    ;
}

/// A compaction keeps a store in order, keeps every row, and leaves no tombstone; where every row
/// had its own place, the vector file does not grow.
pub proof fn law_compaction_step_keeps_rows(v: DbView, w: DbView, stats: CompactionStats)
    requires
        v.inv(),
        v.aligned(),
        compaction_step(v, w, stats),
    ensures
        w.inv(),
        w.aligned(),
        kept(v, w),
        v.has_room(0) ==> w.stored(),
        v.placed() ==> w.bytes.len() <= v.bytes.len(),
        same_rows(v, w),
        same_frame(v, w),
        w.tombstones == Set::<VectorId>::empty(),
        w.records.dom() == v.live(),
{
    lemma_compaction_inv(v, w, stats);
    let words = choose|words: Seq<u32>|
        {
            &&& #[trigger] compacted(
                v.dim as nat,
                v.live(),
                v.offsets,
                v.words(),
                w.offsets,
                words,
            )
            &&& w == (DbView {
                bytes: bytes_of(v.order, words),
                offsets: w.offsets,
                records: v.records.remove_keys(v.tombstones),
                tombstones: Set::empty(),
                ..v
            }).with_op(OpView::ReplaceVectors(bytes_of(v.order, words))).recorded()
        };
    let ids = choose|ids: Seq<VectorId>|
        #[trigger] ascending(ids, v.live()) && laid_out(
            v.dim as nat,
            ids,
            v.offsets,
            v.words(),
            w.offsets,
            words,
        );
    law_words_of_bytes_of(v.order, words);
    assert(w.records.dom() =~= v.live());
    assert forall|x: VectorId| w.offsets.contains_key(x) implies #[trigger] row_placed(
        w.dim as nat,
        w.offsets,
        w.bytes.len(),
        x,
    ) by {
        assert(w.live().contains(x));
        assert(row_fits(w.dim as nat, w.offsets, w.bytes.len(), x));
        assert(ids.contains(x));
        let i = choose|i: int| 0 <= i < ids.len() && ids[i] == x;
        assert(w.offsets[ids[i]] == 4 * (i * v.dim));
    }
    assert forall|a: VectorId, b: VectorId|
        w.offsets.contains_key(a) && w.offsets.contains_key(b) && a
            != b implies #[trigger] w.offsets[a] + 4 * w.dim <= #[trigger] w.offsets[b]
        || w.offsets[b] + 4 * w.dim <= w.offsets[a] by {
        assert(w.live().contains(a) && w.live().contains(b));
        assert(ids.contains(a) && ids.contains(b));
        let i = choose|i: int| 0 <= i < ids.len() && ids[i] == a;
        let j = choose|j: int| 0 <= j < ids.len() && ids[j] == b;
        assert(w.offsets[ids[i]] == 4 * (i * v.dim));
        assert(w.offsets[ids[j]] == 4 * (j * v.dim));
        let d = v.dim as int;
        assert(i < j ==> i * d + d <= j * d) by (nonlinear_arith)
            requires
                d > 0,
        ;
        assert(j < i ==> j * d + d <= i * d) by (nonlinear_arith)
            requires
                d > 0,
        ;
    }
    if v.placed() {
        lemma_rows_fill_the_file(v, ids);
    }
    if v.has_room(0) {
        assert(ids.len() == v.live().len()) by {
            ids.unique_seq_to_set();
            assert(ids.to_set() =~= v.live()) by {
                assert forall|x: VectorId| ids.to_set().contains(x) <==> v.live().contains(x) by {
                    assert(ids.to_set().contains(x) <==> ids.contains(x));
                }
            }
        }
        let n = ids.len() as int;
        let m = v.row_count() as int;
        let d = v.dim as int;
        assert(n * d <= m * d) by (nonlinear_arith)
            requires
                n <= m,
                d > 0,
        ;
        assert((v.row_count() + 0) * v.dim == m * d);
        assert(w.placed());
        law_placed_rows_are_stored(w);
    }
    if v.listed(true) {
        lemma_lists_same(v.postings.by_file, v.live(), v.records, true, w.records);
    }
    if v.listed(false) {
        lemma_lists_same(v.postings.by_kind, v.live(), v.records, false, w.records);
    }
    assert forall|id: VectorId| #[trigger] w.fetched(id) == v.fetched(id) by {
        if v.live().contains(id) {
            assert(ids.contains(id));
            let i = choose|i: int| 0 <= i < ids.len() && ids[i] == id;
            assert(ids[i] == id);
        }
    }
}

/// A new bucketed index, or giving one up, keeps a store in order and keeps every row.
pub proof fn law_rebuild_keeps_rows<M: VectorMath>(
    math: M,
    v: DbView,
    num_buckets: usize,
    probe_buckets: usize,
    w: DbView,
    r: Result<(), DbError>,
)
    requires
        v.inv(),
        rebuilt(math, v, num_buckets, probe_buckets, w, r),
    ensures
        w.inv(),
        kept(v, w),
        v.stored() ==> w.stored(),
        same_rows(v, w),
        same_frame(v, w),
        w.bytes == v.bytes,
        w.offsets == v.offsets,
        w.tombstones == v.tombstones,
        w.records == v.records,
        !v.read_only && v.aligned() && num_buckets > 0 ==> r is Ok,
        r is Ok ==> w.indexed() && w.index_sized(),
{
    if r is Ok {
        assert(w.live() =~= v.live());
        if v.live().len() >= num_buckets {
            let (ids, index) = choose|ids: Seq<VectorId>, index: IvfView|
                #![trigger lists_set(ids, v.live()), built(math, num_buckets, probe_buckets, v.dim as nat, v.words(), v.offsets, ids, index)]
                {
                    &&& lists_set(ids, v.live())
                    &&& built(
                        math,
                        num_buckets,
                        probe_buckets,
                        v.dim as nat,
                        v.words(),
                        v.offsets,
                        ids,
                        index,
                    )
                    &&& w == (DbView { ivf: Some(index), ..v }).with_op(
                        OpView::WriteCentroids(bytes_of(v.order, index.centroids)),
                    ).recorded()
                };
            assert(index.assignments.dom() =~= v.live()) by {
                assert forall|id: VectorId| index.assignments.dom().contains(id)
                    <==> v.live().contains(id) by {
                    assert(index.assignments.contains_key(id) <==> ids.contains(id));
                }
            }
            assert forall|id: VectorId| #[trigger]
                index.assignments.contains_key(id) implies index.assignments[id]
                < index.num_buckets by {
                assert(ids.contains(id));
            }
        }
        let m = DbView { ivf: v.ivf, ops: v.ops, ..w };
        assert(m == v);
        assert forall|x: VectorId| w.live().contains(x) implies #[trigger] row_fits(
            w.dim as nat,
            w.offsets,
            w.bytes.len(),
            x,
        ) by {
            assert(row_fits(v.dim as nat, v.offsets, v.bytes.len(), x));
        }
        if v.placed() {
            assert forall|x: VectorId| w.offsets.contains_key(x) implies #[trigger] row_placed(
                w.dim as nat,
                w.offsets,
                w.bytes.len(),
                x,
            ) by {
                assert(row_placed(v.dim as nat, v.offsets, v.bytes.len(), x));
            }
        }
        if v.stored() {
            assert forall|x: VectorId| w.offsets.contains_key(x) implies #[trigger] row_fits(
                w.dim as nat,
                w.offsets,
                w.bytes.len(),
                x,
            ) by {
                assert(row_fits(v.dim as nat, v.offsets, v.bytes.len(), x));
            }
        }
        assert forall|id: VectorId| #[trigger] w.fetched(id) == v.fetched(id) by {
            assert(w.row(id) == v.row(id));
        }
    }
}

/// A compaction keeps a store in order and keeps every row. It succeeds where the store may be
/// changed, its vector file holds whole words and its index has a bucket, and then leaves no
/// tombstone and an index over all rows.
pub proof fn law_compact_keeps_rows<M: VectorMath>(
    math: M,
    v: DbView,
    w: DbView,
    r: Result<CompactionStats, DbError>,
)
    requires
        v.inv(),
        compact_outcome(math, v, w, r),
    ensures
        w.inv(),
        v.aligned() ==> w.aligned(),
        kept(v, w),
        v.stored() && v.has_room(0) ==> w.stored(),
        same_rows(v, w),
        same_frame(v, w),
        !v.read_only && v.aligned() && bucket_settings(v).0 > 0 ==> r is Ok,
        r is Ok ==> !v.read_only && w.tombstones == Set::<VectorId>::empty() && w.indexed(),
{
    if !v.read_only && v.aligned() {
        let (m, stats, done) = choose|m: DbView, stats: CompactionStats, done: Result<(), DbError>|
            #![trigger compaction_step(v, m, stats), rebuilt(math, m, bucket_settings(v).0, bucket_settings(v).1, w, done)]
            {
                &&& compaction_step(v, m, stats)
                &&& rebuilt(math, m, bucket_settings(v).0, bucket_settings(v).1, w, done)
                &&& r == match done {
                    Ok(()) => Ok(stats),
                    Err(e) => Err(e),
                }
            };
        law_compaction_step_keeps_rows(v, m, stats);
        law_rebuild_keeps_rows(math, m, bucket_settings(v).0, bucket_settings(v).1, w, done);
    }
}

/// The last step of a change keeps a store in order and keeps every row; it does not fail where
/// the vector file holds whole words and the index has a bucket.
pub proof fn law_settling_keeps_rows<M: VectorMath, T>(
    math: M,
    v: DbView,
    w: DbView,
    value: T,
    r: Result<T, DbError>,
)
    requires
        v.inv(),
        settled(math, v, w, value, r),
    ensures
        w.inv(),
        v.aligned() ==> w.aligned(),
        v.tiers_apart() ==> w.tiers_apart(),
        kept(v, w),
        v.stored() && v.has_room(0) ==> w.stored(),
        same_rows(v, w),
        same_frame(v, w),
        r is Ok ==> r == Ok::<T, DbError>(value),
        !v.read_only && v.aligned() && bucket_settings(v).0 > 0 ==> r is Ok,
{
    let done = choose|done: Result<Option<CompactionStats>, DbError>|
        #[trigger] maybe_compacted(math, v, w, done) && r == match done {
            Ok(_) => Ok(value),
            Err(e) => Err(e),
        };
    let ratio = choose|ratio: u32|
        #[trigger] crate::compact::is_dead_ratio(
            math,
            v.tombstones.len(),
            v.next_id as usize,
            ratio,
        ) && maybe_compacted_at(math, ratio, v, w, done);
    if crate::state::compaction_due(ratio, v.policy, v.tombstones.len()) {
        let compacted_to = choose|c: Result<CompactionStats, DbError>|
            #[trigger] compact_outcome(math, v, w, c) && done == match c {
                Ok(stats) => Ok(Some(stats)),
                Err(e) => Err(e),
            };
        law_compact_keeps_rows(math, v, w, compacted_to);
        if v.tiers_apart() {
            lemma_compact_keeps_tiers(math, v, w, compacted_to);
        }
    }
}

/// A compaction leaves no id in both tiers that was in one only.
pub(crate) proof fn lemma_compact_keeps_tiers<M: VectorMath>(
    math: M,
    v: DbView,
    w: DbView,
    r: Result<CompactionStats, DbError>,
)
    requires
        v.inv(),
        v.tiers_apart(),
        compact_outcome(math, v, w, r),
    ensures
        w.tiers_apart(),
{
    if !v.read_only && v.aligned() {
        let (m, stats, done) = choose|m: DbView, stats: CompactionStats, done: Result<(), DbError>|
            #![trigger compaction_step(v, m, stats), rebuilt(math, m, bucket_settings(v).0, bucket_settings(v).1, w, done)]
            {
                &&& compaction_step(v, m, stats)
                &&& rebuilt(math, m, bucket_settings(v).0, bucket_settings(v).1, w, done)
            };
        law_compaction_step_keeps_rows(v, m, stats);
        law_rebuild_keeps_rows(math, m, bucket_settings(v).0, bucket_settings(v).1, w, done);
        assert forall|i: int| 0 <= i < w.staging.len() implies !w.records.contains_key(
            (#[trigger] w.staging[i]).id,
        ) by {
            assert(!v.records.contains_key(v.staging[i].id));
            assert(!v.live().contains(v.staging[i].id));
        }
    }
}

/// Another width keeps the rows of a store in order, since only an empty store can take it: there
/// is no row before or after, ids to come are still new, and nothing is listed.
pub proof fn law_width_change_keeps_rows(v: DbView, dim: usize)
    requires
        v.inv(),
        dim > 0,
        dim == v.dim || v.row_count() == 0,
    ensures
        (DbView { dim, ..v }).inv(),
        same_rows(v, DbView { dim, ..v }),
        (DbView { dim, ..v }).live() == v.live(),
        v.readable() ==> (DbView { dim, ..v }).readable(),
        v.regular() ==> (DbView { dim, ..v }).regular(),
        v.listed(false) ==> (DbView { dim, ..v }).listed(false),
{
    let w = DbView { dim, ..v };
    assert(w.live() =~= v.live());
    if dim != v.dim {
        vstd::set_lib::lemma_len_subset(v.live(), v.records.dom());
        assert(v.live() =~= Set::<VectorId>::empty());
    }
    assert forall|x: VectorId| w.live().contains(x) implies #[trigger] row_fits(
        w.dim as nat,
        w.offsets,
        w.bytes.len(),
        x,
    ) by {
        assert(row_fits(v.dim as nat, v.offsets, v.bytes.len(), x));
    }
    assert forall|id: VectorId| #[trigger] w.fetched(id) == v.fetched(id) by {
        if dim != v.dim {
            assert(!v.live().contains(id));
        }
    }
}

/// Another width keeps an empty store coherent, unless a stored row that carries a tombstone
/// would no longer fit or a bucketed index would no longer match.
pub proof fn law_width_change_keeps_coherence(v: DbView, dim: usize)
    requires
        v.coherent(),
        dim > 0,
        dim == v.dim || v.row_count() == 0,
        v.ivf is None || dim == v.dim,
        dim <= v.dim || v.records.dom() == Set::<VectorId>::empty(),
    ensures
        (DbView { dim, ..v }).coherent(),
{
    let w = DbView { dim, ..v };
    law_width_change_keeps_rows(v, dim);
    assert forall|x: VectorId| w.offsets.contains_key(x) implies #[trigger] row_placed(
        w.dim as nat,
        w.offsets,
        w.bytes.len(),
        x,
    ) by {
        assert(w.records.dom().contains(x));
        assert(row_placed(v.dim as nat, v.offsets, v.bytes.len(), x));
    }
}

} // verus!
