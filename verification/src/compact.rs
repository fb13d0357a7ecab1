//! Rewriting the vector file without the rows that carry a tombstone.

use std::collections::{HashMap, HashSet};

use vstd::prelude::*;

use crate::bits::ZERO;
use crate::ids::{lists_set, map_ids};
use crate::ivf::{ratio_is, read_vector, row_of, VectorMath};
use crate::types::{ChunkRecord, CompactionStats, DbError, VectorId};
use crate::words::byte_len;

verus! {

broadcast use vstd::std_specs::hash::group_hash_axioms;

/// The new words, the new offsets and the statistics of a compaction.
pub type CompactResult = (Vec<u32>, HashMap<VectorId, u64>, CompactionStats);

/// `ids` names every element of `set` once, in ascending order.
pub open spec fn ascending(ids: Seq<VectorId>, set: Set<VectorId>) -> bool {
    &&& lists_set(ids, set)
    &&& forall|i: int, j: int| 0 <= i < j < ids.len() ==> #[trigger] ids[i] < #[trigger] ids[j]
}

/// No id stands before a smaller one.
pub open spec fn in_order(ids: Seq<VectorId>) -> bool {
    forall|i: int, j: int| 0 <= i < j < ids.len() ==> #[trigger] ids[i] <= #[trigger] ids[j]
}

/// Sorts ids in ascending order.
///
/// Calls `<[u32]>::sort_unstable` of std, which sorts a slice: claimed are that no id is lost,
/// gained or changed, and that none stands before a smaller one.
#[verifier::external_body]
fn sort_ids(ids: &mut Vec<VectorId>)
    ensures
        final(ids)@.to_multiset() == old(ids)@.to_multiset(),
        in_order(final(ids)@),
{
    ids.sort_unstable();
}

/// The ids of a map that carry no tombstone, in no particular order.
pub(crate) fn live_ids<V>(
    records: &HashMap<VectorId, V>,
    tombstones: &HashSet<VectorId>,
) -> (r: Vec<VectorId>)
    ensures
        lists_set(r@, records@.dom().difference(tombstones@)),
{
    let keys = map_ids(records);
    let mut live: Vec<VectorId> = Vec::new();
    let mut i: usize = 0;
    while i < keys.len()
        invariant
            i <= keys@.len(),
            keys@.no_duplicates(),
            live@.no_duplicates(),
            forall|id: VectorId|
                #![trigger live@.contains(id)]
                live@.contains(id) <==> keys@.take(i as int).contains(id) && !tombstones@.contains(
                    id,
                ),
        decreases keys@.len() - i,
    {
        let id: VectorId = keys[i];
        let ghost before = live@;
        proof {
            assert(keys@.take(i + 1) =~= keys@.take(i as int).push(id));
            assert(!keys@.take(i as int).contains(id));
            crate::ids::lemma_push_has(keys@.take(i as int), id);
            crate::ids::lemma_push_has(before, id);
            assert(forall|p: int| 0 <= p < before.len() ==> before.contains(#[trigger] before[p]));
        }
        if !tombstones.contains(&id) {
            live.push(id);
        }
        i = i + 1;
    }
    assert(keys@.take(keys@.len() as int) =~= keys@);
    live
}

/// What a compaction leaves: the live rows one behind the other in ascending order of their ids,
/// and an offset for each of them.
pub open spec fn compacted(
    dim: nat,
    live: Set<VectorId>,
    old_offsets: Map<VectorId, u64>,
    old_words: Seq<u32>,
    offsets: Map<VectorId, u64>,
    words: Seq<u32>,
) -> bool {
    exists|ids: Seq<VectorId>|
        #[trigger] ascending(ids, live) && laid_out(
            dim,
            ids,
            old_offsets,
            old_words,
            offsets,
            words,
        )
}

/// The rows of `ids`, one behind the other.
pub open spec fn laid_out(
    dim: nat,
    ids: Seq<VectorId>,
    old_offsets: Map<VectorId, u64>,
    old_words: Seq<u32>,
    offsets: Map<VectorId, u64>,
    words: Seq<u32>,
) -> bool {
    &&& words.len() == ids.len() * dim
    &&& offsets.dom() == ids.to_set()
    &&& forall|i: int|
        #![trigger ids[i]]
        0 <= i < ids.len() ==> offsets[ids[i]] == 4 * (i * dim) && row_of(
            words,
            dim,
            offsets,
            ids[i],
        ) is Some && row_of(words, dim, offsets, ids[i]) == row_of(
            old_words,
            dim,
            old_offsets,
            ids[i],
        )
}

/// One more row at the end of what is laid out.
proof fn lemma_lay_out(
    dim: nat,
    ids: Seq<VectorId>,
    id: VectorId,
    old_offsets: Map<VectorId, u64>,
    old_words: Seq<u32>,
    offsets: Map<VectorId, u64>,
    words: Seq<u32>,
    at: u64,
    row: Seq<u32>,
)
    requires
        laid_out(dim, ids, old_offsets, old_words, offsets, words),
        !ids.contains(id),
        at == 4 * words.len(),
        row_of(old_words, dim, old_offsets, id) == Some(row),
    ensures
        laid_out(
            dim,
            ids.push(id),
            old_offsets,
            old_words,
            offsets.insert(id, at),
            words + row,
        ),
{
    let n = ids.len() as int;
    let more = ids.push(id);
    let offsets2 = offsets.insert(id, at);
    let words2 = words + row;
    assert((n + 1) * dim == n * dim + dim) by (nonlinear_arith);
    assert(offsets2.dom() =~= more.to_set()) by {
        assert forall|x: VectorId| offsets2.dom().contains(x) <==> more.to_set().contains(x) by {
            crate::ids::lemma_push_has(ids, id);
            assert(ids.to_set().contains(x) <==> ids.contains(x));
            assert(more.contains(x) <==> ids.contains(x) || x == id);
        }
    }
    assert forall|i: int| #![trigger more[i]] 0 <= i < more.len() implies offsets2[more[i]] == 4 * (
    i * dim) && row_of(words2, dim, offsets2, more[i]) is Some && row_of(
        words2,
        dim,
        offsets2,
        more[i],
    ) == row_of(old_words, dim, old_offsets, more[i]) by {
        if i < n {
            let x = ids[i];
            assert(more[i] == x);
            assert(ids.contains(x));
            assert(x != id);
            let from = offsets[x] as int / 4;
            assert(words2.subrange(from, from + dim) =~= words.subrange(from, from + dim));
        } else {
            assert(words2.subrange(n * dim, n * dim + dim) =~= row);
        }
    }
}

/// Rewrites the words of the vector file, dropping the rows that carry a tombstone.
pub fn compact_vectors(
    dim: usize,
    records: &HashMap<VectorId, ChunkRecord>,
    id_offsets: &HashMap<VectorId, u64>,
    tombstones: &HashSet<VectorId>,
    old_vectors: &[u32],
) -> (r: Result<CompactResult, DbError>)
    ensures
        match r {
            Ok((words, offsets, stats)) => {
                let live = records@.dom().difference(tombstones@);
                &&& compacted(
                    dim as nat,
                    live,
                    id_offsets@,
                    old_vectors@,
                    offsets@,
                    words@,
                )
                &&& offsets@.dom() == live
                &&& stats.vectors_before == records@.len()
                &&& stats.vectors_after == live.len()
                &&& stats.bytes_reclaimed == if words@.len() <= old_vectors@.len() {
                    4 * (old_vectors@.len() - words@.len())
                } else {
                    0
                }
            },
            Err(e) => row_lost(
                records@.dom().difference(tombstones@),
                dim as nat,
                id_offsets@,
                old_vectors@,
                e,
            ),
        },
{
    let vectors_before: usize = records.len();
    let bytes_before: usize = byte_len(old_vectors);
    let ghost live = records@.dom().difference(tombstones@);
    let mut ids = live_ids(records, tombstones);
    let ghost unsorted = ids@;
    sort_ids(&mut ids);
    proof {
        lemma_sorted(unsorted, ids@, live);
    }
    let mut words: Vec<u32> = Vec::new();
    let mut offsets: HashMap<VectorId, u64> = HashMap::new();
    let mut i: usize = 0;
    proof {
        assert(ids@.take(0).to_set() =~= Set::empty()) by {
            assert(forall|x: VectorId| !ids@.take(0).contains(x));
        }
        assert(offsets@.dom() =~= ids@.take(0).to_set());
        let none = ids@.take(0).len();
        assert(none * (dim as nat) == 0) by (nonlinear_arith)
            requires
                none == 0,
        ;
        assert(laid_out(
            dim as nat,
            ids@.take(0),
            id_offsets@,
            old_vectors@,
            offsets@,
            words@,
        ));
    }
    while i < ids.len()
        invariant
            i <= ids@.len(),
            ascending(ids@, live),
            live == records@.dom().difference(tombstones@),
            laid_out(
                dim as nat,
                ids@.take(i as int),
                id_offsets@,
                old_vectors@,
                offsets@,
                words@,
            ),
            forall|j: int|
                0 <= j < i ==> row_of(
                    old_vectors@,
                    dim as nat,
                    id_offsets@,
                    #[trigger] ids@[j],
                ) is Some,
        decreases ids@.len() - i,
    {
        let id: VectorId = ids[i];
        match read_vector(old_vectors, dim, id_offsets, id) {
            Err(e) => {
                assert(ids@.contains(id));
                assert(live.contains(id));
                assert forall|x: VectorId| live.contains(x) && x < id implies #[trigger] row_of(
                    old_vectors@,
                    dim as nat,
                    id_offsets@,
                    x,
                ) is Some by {
                    assert(ids@.contains(x));
                    let j = choose|j: int| 0 <= j < ids@.len() && ids@[j] == x;
                    if j > i {
                        assert(ids@[i as int] < ids@[j]);
                    }
                }
                return Err(e);
            },
            Ok(row) => {
                let at: u64 = byte_len(words.as_slice()) as u64;
                let ghost words_before = words@;
                let ghost offsets_before = offsets@;
                offsets.insert(id, at);
                words.extend_from_slice(row);
                proof {
                    assert(words@ =~= words_before + row@);
                    assert(!ids@.take(i as int).contains(id));
                    lemma_lay_out(
                        dim as nat,
                        ids@.take(i as int),
                        id,
                        id_offsets@,
                        old_vectors@,
                        offsets_before,
                        words_before,
                        at,
                        row@,
                    );
                    assert(ids@.take(i + 1) =~= ids@.take(i as int).push(id));
                }
            },
        }
        i = i + 1;
    }
    let bytes_after: usize = byte_len(words.as_slice());
    proof {
        assert(ids@.take(ids@.len() as int) =~= ids@);
        ids@.unique_seq_to_set();
        assert(ids@.to_set() =~= live) by {
            assert forall|x: VectorId| ids@.to_set().contains(x) <==> live.contains(x) by {
                assert(ids@.to_set().contains(x) <==> ids@.contains(x));
            }
        }
    }
    let stats = CompactionStats {
        vectors_before,
        vectors_after: ids.len(),
        bytes_reclaimed: (bytes_before as u64).saturating_sub(bytes_after as u64),
    };
    Ok((words, offsets, stats))
}

/// The error of a live row that is not in the vector file: it names the first such row.
pub open spec fn row_lost(
    live: Set<VectorId>,
    dim: nat,
    offsets: Map<VectorId, u64>,
    words: Seq<u32>,
    e: DbError,
) -> bool {
    exists|id: VectorId|
        {
            &&& #[trigger] live.contains(id)
            &&& row_of(words, dim, offsets, id) is None
            &&& forall|x: VectorId|
                live.contains(x) && x < id ==> #[trigger] row_of(words, dim, offsets, x) is Some
            &&& e == (DbError::MissingOffset { id })
        }
}

proof fn lemma_sorted(unsorted: Seq<VectorId>, sorted: Seq<VectorId>, set: Set<VectorId>)
    requires
        lists_set(unsorted, set),
        sorted.to_multiset() == unsorted.to_multiset(),
        in_order(sorted),
    ensures
        ascending(sorted, set),
{
    broadcast use vstd::seq_lib::group_to_multiset_ensures;

    unsorted.lemma_multiset_has_no_duplicates();
    sorted.lemma_multiset_has_no_duplicates_conv();
    assert forall|id: VectorId| #[trigger] sorted.contains(id) <==> set.contains(id) by {
        assert(sorted.to_multiset().count(id) == unsorted.to_multiset().count(id));
        assert(unsorted.contains(id) <==> unsorted.to_multiset().count(id) > 0);
        assert(sorted.contains(id) <==> sorted.to_multiset().count(id) > 0);
    }
    assert forall|i: int, j: int| 0 <= i < j < sorted.len() implies #[trigger] sorted[i]
        < #[trigger] sorted[j] by {
        assert(sorted[i] != sorted[j]);
    }
}

/// The share of allocated ids that carry a tombstone; zero while none was allocated.
pub fn dead_ratio<M: VectorMath>(
    math: &M,
    tombstones: &HashSet<VectorId>,
    allocated_ids: usize,
) -> (r: u32)
    ensures
        is_dead_ratio(*math, tombstones@.len(), allocated_ids, r),
{
    if allocated_ids == 0 {
        ZERO
    } else {
        math.ratio(tombstones.len(), allocated_ids)
    }
}

/// `ratio` is the share of `allocated` ids that `dead` ids make up.
pub open spec fn is_dead_ratio<M: VectorMath>(
    math: M,
    dead: nat,
    allocated: usize,
    ratio: u32,
) -> bool {
    if allocated == 0 {
        ratio == ZERO
    } else {
        ratio_is(math, dead as usize, allocated, ratio)
    }
}

/// The share of dead ids is zero while no id was given out, and otherwise what the arithmetic
/// answers to the number of dead ids and the number of all ids.
pub proof fn law_dead_ratio<M: VectorMath>(math: M, dead: nat, allocated: usize, ratio: u32)
    ensures
        is_dead_ratio(math, dead, allocated, ratio) <==> if allocated == 0 {
            ratio == 0
        } else {
            call_ensures(M::ratio, (&math, dead as usize, allocated), ratio)
        },
{
}

} // verus!
