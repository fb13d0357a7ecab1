//! What the parts of the store answer, call by call.

use std::collections::{HashMap, HashSet};

use vstd::prelude::*;

use super::upkeep::reaches;
use crate::bits::{
    bits_ge, bits_gt, is_nan, law_order_of_numbers, law_what_is_not_a_number, spec_gt, spec_is_nan,
};
use crate::compact::{compact_vectors, dead_ratio, CompactResult};
use crate::ids::lists_set;
use crate::ivf::{
    bucket_scores, build_ivf_index, choose_bucket, default_ivf_buckets, default_ivf_probe,
    law_best_buckets_are_nearest, law_built_index, law_choice_scores_best,
    law_nearest_in_scores_best, law_probe_takes_the_nearest, nearer, probes, rank_buckets,
    read_centroids, row_of, scores_best, write_centroids, IvfIndex, VectorMath,
};
use crate::lock::{
    acquire_lock_step, decide_lock_step, is_lock_contended, law_nobody_gives_up_early,
    matches_contention, DbLockOptions, LockReply, LockStep, Nanos, LOCK_POLL_INTERVAL,
};
use crate::manifest::{
    check_manifest_len, decode_offset_map, decode_record_map, encode_offset_map, encode_record_map,
    law_last_entry_counts, law_loaded_index, load_ivf, row_fits, validate_open_state, Entry,
    IvfManifest, Manifest,
};
use crate::postings::{
    law_every_filter_narrows, law_last_list_counts, list_of, Posting, PostingIndex, PostingMap,
};
use crate::ranking::{law_best_few, top_candidates, Scored};
use crate::storage::compaction::is_compaction_due;
use crate::testing::{chunk_record, chunk_record_with_kind, unit_vector};
use crate::text::{decimal, parse_decimal, parsed, push_decimal, to_decimal};
use crate::types::{
    law_metadata_key_layout, law_valid_thresholds, record_from_metadata_id, AnnStrategy, ChunkRecord,
    CompactionPolicy, DbError, SearchScope, VectorId, MAX_MANIFEST_BYTES,
};
use crate::words::{
    byte_len, bytes_from_words, law_place_values, law_value_of_bytes, law_words_in_place,
    read_words, word_count, ByteOrder,
};

verus! {

/// Comparing two patterns tells which number is greater: the greater pattern of two without a sign,
/// the smaller one of two with a sign, and the one without a sign of two that differ in it, unless
/// both are zero. With what is not a number every comparison fails.
pub proof fn law_comparing(a: u32, b: u32, r: bool)
    ensures
        call_ensures(is_nan, (a,), r) ==> r == (0x7f80_0000 < a < 0x8000_0000 || a > 0xff80_0000),
        call_ensures(bits_gt, (a, b), r) ==> r == (if a <= 0x7f80_0000 && b <= 0x7f80_0000 {
            a > b
        } else if 0x8000_0000 <= a <= 0xff80_0000 && 0x8000_0000 <= b <= 0xff80_0000 {
            a < b
        } else if a <= 0x7f80_0000 && 0x8000_0000 <= b <= 0xff80_0000 {
            a > 0 || b > 0x8000_0000
        } else {
            false
        }),
        call_ensures(bits_ge, (a, b), r) ==> r == (if a <= 0x7f80_0000 && b <= 0x7f80_0000 {
            a >= b
        } else if 0x8000_0000 <= a <= 0xff80_0000 && 0x8000_0000 <= b <= 0xff80_0000 {
            a <= b
        } else if a <= 0x7f80_0000 && 0x8000_0000 <= b <= 0xff80_0000 {
            true
        } else {
            a == 0x8000_0000 && b == 0
        }),
{
    law_what_is_not_a_number(a, b);
    law_what_is_not_a_number(b, a);
    if !spec_is_nan(a) && !spec_is_nan(b) {
        law_order_of_numbers(a, b);
    }
}

/// What follows an attempt at the lock: it is held where it was granted; a lock that somebody else
/// holds is waited for while there is time, and given up when the time is over, by readers and
/// writers alike; and any other refusal is a failure.
pub proof fn law_attempting_the_lock(
    options: DbLockOptions,
    would_block: bool,
    raw_os_error: Option<i32>,
    code: Option<i32>,
    elapsed: Nanos,
    step: LockStep,
    taken: bool,
)
    ensures
        call_ensures(decide_lock_step, (options, LockReply::Granted, code, elapsed), step)
            ==> step is Acquired,
        call_ensures(acquire_lock_step, (options, LockReply::Granted, elapsed), step)
            ==> step is Acquired,
        call_ensures(
            decide_lock_step,
            (options, LockReply::Refused { would_block, raw_os_error }, code, elapsed),
            step,
        ) ==> step == (if !would_block && raw_os_error != code {
            LockStep::Failed
        } else if options.spec_timeout() is Some && elapsed >= options.spec_timeout()->Some_0 {
            LockStep::TimedOut
        } else {
            LockStep::Wait
        }),
        call_ensures(
            acquire_lock_step,
            (options, LockReply::Refused { would_block, raw_os_error }, elapsed),
            step,
        ) ==> {
            &&& step is Wait ==> options.spec_timeout() is None || elapsed
                < options.spec_timeout()->Some_0
            &&& step is TimedOut ==> options.spec_timeout() is Some && elapsed
                >= options.spec_timeout()->Some_0
            &&& would_block ==> step is Wait || step is TimedOut
            &&& !would_block && raw_os_error is None ==> step is Failed
            &&& !(step is Acquired)
        },
        call_ensures(matches_contention, (would_block, raw_os_error, code), taken) ==> taken == (
        would_block || raw_os_error == code),
        call_ensures(is_lock_contended, (would_block, raw_os_error), taken) ==> (would_block
            ==> taken) && (!would_block && raw_os_error is None ==> !taken),
{
    law_nobody_gives_up_early(options, would_block, raw_os_error, code, elapsed);
    if call_ensures(
        acquire_lock_step,
        (options, LockReply::Refused { would_block, raw_os_error }, elapsed),
        step,
    ) {
        let known = choose|known: i32|
            step == #[trigger] crate::lock::step_after(
                options,
                LockReply::Refused { would_block, raw_os_error },
                Some(known),
                elapsed,
            );
        law_nobody_gives_up_early(options, would_block, raw_os_error, Some(known), elapsed);
    }
}

/// What lock options ask for: the wait they were made with, none at all for a single attempt, and a
/// lock that is shared where it is for reading, which makes the store refuse changes.
pub proof fn law_lock_options(timeout: Nanos, options: DbLockOptions, r: bool)
    ensures
        call_ensures(DbLockOptions::exclusive, (timeout,), options) ==> options.spec_timeout()
            == Some(timeout) && !options.spec_shared(),
        call_ensures(DbLockOptions::shared, (timeout,), options) ==> options.spec_timeout() == Some(
            timeout,
        ) && options.spec_shared(),
        call_ensures(DbLockOptions::try_exclusive_once, (), options) ==> options.spec_timeout()
            == Some(0u128) && !options.spec_shared(),
        call_ensures(DbLockOptions::read_only, (options,), r) ==> r == options.spec_shared(),
{
}

/// The best few of a list: as many as asked for, or all, from the greatest score to the smallest,
/// equal ones by their ids, and none left out that is better, where the scores are numbers.
pub proof fn law_ranking(
    all: Vec<Scored>,
    k: usize,
    best: Vec<Scored>,
    i: int,
    j: int,
    x: Scored,
)
    requires
        call_ensures(top_candidates, (&all, k), best),
        forall|p: int| 0 <= p < all@.len() ==> !spec_is_nan((#[trigger] all@[p]).score),
    ensures
        best@.len() == if all@.len() <= k {
            all@.len()
        } else {
            k as nat
        },
        0 <= i < best@.len() ==> all@.contains(best@[i]),
        0 <= i < j < best@.len() ==> !spec_gt(best@[j].score, best@[i].score) && (spec_gt(
            best@[i].score,
            best@[j].score,
        ) || best@[i].id <= best@[j].id),
        all@.contains(x) && !best@.contains(x) && 0 <= i < best@.len() ==> !spec_gt(
            x.score,
            best@[i].score,
        ) && (spec_gt(best@[i].score, x.score) || best@[i].id <= x.id),
        best@.to_multiset().count(x) <= all@.to_multiset().count(x),
{
    law_best_few(best@, all@, k as nat);
}

/// Ranking buckets takes as many as asked for, none twice, and with scores that are numbers exactly
/// those before which fewer others come.
pub proof fn law_ranking_buckets(scores: Vec<u32>, n: usize, buckets: Vec<usize>, b: usize)
    requires
        call_ensures(rank_buckets, (&scores, n), buckets),
        scores@.len() <= usize::MAX,
    ensures
        buckets@.len() == if n <= scores@.len() {
            n as nat
        } else {
            scores@.len()
        },
        buckets@.no_duplicates(),
        (forall|c: int| 0 <= c < scores@.len() ==> !spec_is_nan(#[trigger] scores@[c])) && b
            < scores@.len() ==> (buckets@.contains(b) <==> Set::new(
            |c: int|
                0 <= c < scores@.len() && (spec_gt(scores@[c], scores@[b as int]) || (!spec_gt(
                    scores@[b as int],
                    scores@[c],
                ) && c < b)),
        ).len() < n),
{
    law_best_buckets_are_nearest(scores@, n as nat, buckets@);
    assert(nearer(scores@, b as int) =~= Set::new(
        |c: int|
            0 <= c < scores@.len() && (spec_gt(scores@[c], scores@[b as int]) || (!spec_gt(
                scores@[b as int],
                scores@[c],
            ) && c < b)),
    ));
}

/// Choosing a bucket takes the first one with the best score.
pub proof fn law_choosing_a_bucket(scores: Vec<u32>, b: usize, i: int)
    requires
        call_ensures(choose_bucket, (&scores,), b),
        scores@.len() > 0,
        forall|c: int| 0 <= c < scores@.len() ==> !spec_is_nan(#[trigger] scores@[c]),
    ensures
        b < scores@.len(),
        0 <= i < scores@.len() ==> !spec_gt(scores@[i], scores@[b as int]),
        0 <= i < b ==> spec_gt(scores@[b as int], scores@[i]),
{
    law_choice_scores_best(b, scores@);
    if 0 <= i < scores@.len() {
        assert(!spec_gt(scores@[i], scores@[b as int]));
    }
    if 0 <= i < b {
        assert(spec_gt(scores@[b as int], scores@[i]));
    }
}

/// Probing an index takes the asked number of buckets, or all, and the candidates of a query are
/// the rows without a tombstone in the buckets that a probe takes. The nearest bucket is the one
/// that scores best.
pub proof fn law_probing<M: VectorMath>(
    index: IvfIndex,
    math: M,
    query: &[u32],
    dim: usize,
    n: usize,
    tombstones: HashSet<VectorId>,
    buckets: Vec<usize>,
    ids: Vec<VectorId>,
    b: usize,
    id: VectorId,
)
    ensures
        call_ensures(IvfIndex::probe::<M>, (&index, &math, query, dim, n), buckets) ==> {
            &&& buckets@.len() == if n <= index.num_buckets {
                n as nat
            } else {
                index.num_buckets as nat
            }
            &&& buckets@.no_duplicates()
            &&& exists|scores: Seq<u32>|
                {
                    &&& #[trigger] bucket_scores(
                        math,
                        query@,
                        index.centroids@,
                        dim as nat,
                        index.num_buckets as nat,
                        scores,
                    )
                    &&& (forall|c: int|
                        0 <= c < scores.len() ==> !spec_is_nan(#[trigger] scores[c])) ==> (b
                        < index.num_buckets ==> (buckets@.contains(b) <==> nearer(
                        scores,
                        b as int,
                    ).len() < n))
                }
        },
        call_ensures(IvfIndex::candidates::<M>, (&index, &math, query, dim, n, &tombstones), ids)
            ==> exists|taken: Seq<usize>|
            {
                &&& #[trigger] probes(math, query@, index@, dim as nat, n as nat, taken)
                &&& taken.len() == if n <= index.num_buckets {
                    n as nat
                } else {
                    index.num_buckets as nat
                }
                &&& ids@.contains(id) <==> index.assignments@.contains_key(id) && taken.contains(
                    index.assignments@[id],
                ) && !tombstones@.contains(id)
            },
        call_ensures(IvfIndex::nearest_bucket::<M>, (&index, &math, query, dim), b)
            && index.num_buckets > 0 ==> scores_best(
            math,
            query@,
            index.centroids@,
            dim as nat,
            index.num_buckets as nat,
            b,
        ),
        call_ensures(IvfIndex::bucket_ids, (&index, b), ids) ==> (ids@.contains(id)
            <==> index.assignments@.contains_key(id) && index.assignments@[id] == b),
        call_ensures(IvfIndex::live_ids_in, (&index, &buckets, &tombstones), ids) ==> (ids@.contains(
            id,
        ) <==> index.assignments@.contains_key(id) && buckets@.contains(index.assignments@[id])
            && !tombstones@.contains(id)),
{
    if call_ensures(IvfIndex::probe::<M>, (&index, &math, query, dim, n), buckets) {
        law_probe_takes_the_nearest(math, query@, index@, dim as nat, n as nat, buckets@);
    }
    if call_ensures(IvfIndex::candidates::<M>, (&index, &math, query, dim, n, &tombstones), ids) {
        let taken = choose|taken: Seq<usize>| #[trigger]
            probes(math, query@, index@, dim as nat, n as nat, taken)
                && crate::ivf::lists_probed(index.assignments@, taken, tombstones@, ids@);
        law_probe_takes_the_nearest(math, query@, index@, dim as nat, n as nat, taken);
        assert(ids@.contains(id) <==> index.assignments@.contains_key(id) && taken.contains(
            index.assignments@[id],
        ) && !tombstones@.contains(id));
    }
    if call_ensures(IvfIndex::nearest_bucket::<M>, (&index, &math, query, dim), b)
        && index.num_buckets > 0 {
        law_nearest_in_scores_best(math, query@, index@, dim as nat, b);
    }
}

/// An index is built over a list of rows exactly where there is a bucket, there are no fewer rows
/// than buckets, and each of them is in the vector file; each row then has the bucket that scores
/// best for it.
pub proof fn law_building<M: VectorMath>(
    math: M,
    num_buckets: usize,
    probe_buckets: usize,
    dim: usize,
    ids: Vec<VectorId>,
    words: &[u32],
    offsets: HashMap<VectorId, u64>,
    r: Result<IvfIndex, DbError>,
    id: VectorId,
)
    requires
        call_ensures(
            build_ivf_index::<M>,
            (&math, num_buckets, probe_buckets, dim, &ids, words, &offsets),
            r,
        ),
    ensures
        num_buckets == 0 ==> r == Err::<IvfIndex, DbError>(DbError::InvalidIvfBucketCount),
        num_buckets > ids@.len() ==> r == Err::<IvfIndex, DbError>(
            DbError::InsufficientVectorsForIvf {
                live: ids@.len() as usize,
                buckets: num_buckets,
            },
        ),
        0 < num_buckets <= ids@.len() ==> (r is Ok <==> forall|i: int|
            0 <= i < ids@.len() ==> row_of(words@, dim as nat, offsets@, #[trigger] ids@[i])
                is Some),
        0 < num_buckets <= ids@.len() && r is Err ==> (r matches Err(
            DbError::MissingOffset { id: lost },
        ) && ids@.contains(lost) && row_of(words@, dim as nat, offsets@, lost) is None),
        r matches Ok(index) ==> {
            &&& index.num_buckets == num_buckets
            &&& index.probe_buckets == probe_buckets
            &&& index.centroids@.len() == num_buckets * dim
            &&& index.assignments@.contains_key(id) <==> ids@.contains(id)
            &&& ids@.contains(id) ==> scores_best(
                math,
                row_of(words@, dim as nat, offsets@, id)->Some_0,
                index.centroids@,
                dim as nat,
                num_buckets as nat,
                index.assignments@[id],
            )
        },
{
    if 0 < num_buckets <= ids@.len() {
        match r {
            Ok(index) => {
                law_built_index(
                    math,
                    num_buckets,
                    probe_buckets,
                    dim as nat,
                    words@,
                    offsets@,
                    ids@,
                    index@,
                );
                assert(index@.assignments.contains_key(id) <==> ids@.contains(id));
                if ids@.contains(id) {
                    assert(index@.assignments[id] < num_buckets);
                }
            },
            Err(e) => {
                crate::ivf::lemma_lacks_row(
                    words@,
                    dim as nat,
                    offsets@,
                    ids@,
                    num_buckets as nat,
                    e,
                );
                lemma_lost_is_listed(words@, dim as nat, offsets@, ids@, num_buckets as nat, e);
            },
        }
    }
}

proof fn lemma_lost_is_listed(
    words: Seq<u32>,
    dim: nat,
    offsets: Map<VectorId, u64>,
    ids: Seq<VectorId>,
    num_buckets: nat,
    e: DbError,
)
    requires
        0 < num_buckets <= ids.len(),
        crate::ivf::lacks_row(words, dim, offsets, ids, num_buckets, e),
    ensures
        e matches DbError::MissingOffset { id } && ids.contains(id) && row_of(
            words,
            dim,
            offsets,
            id,
        ) is None,
{
    let seeds = crate::ivf::seed_ids(ids, num_buckets);
    let list = if crate::ivf::all_rows(words, dim, offsets, seeds) {
        ids
    } else {
        seeds
    };
    let i = choose|i: int|
        {
            &&& 0 <= i < list.len()
            &&& row_of(words, dim, offsets, #[trigger] list[i]) is None
            &&& crate::ivf::all_rows(words, dim, offsets, list.take(i))
            &&& e == (DbError::MissingOffset { id: list[i] })
        };
    if !crate::ivf::all_rows(words, dim, offsets, seeds) {
        crate::ivf::law_seeds_are_evenly_spaced(i, ids.len() as int, num_buckets as int);
        let at = crate::ivf::seed_index(i, ids.len() as int, num_buckets as int);
        assert(ids[at] == seeds[i]);
    }
}

/// The default settings of an index, and how a centroid table is stored: four bytes for each
/// component in the order of the host, of which a table of the right length is read with the least
/// significant byte first.
pub proof fn law_centroid_table(
    order: ByteOrder,
    table: &[u32],
    bytes: &[u8],
    num_buckets: usize,
    dim: usize,
    n: usize,
    out: Vec<u8>,
    r: Result<Vec<u32>, DbError>,
    i: int,
)
    ensures
        call_ensures(default_ivf_buckets, (), n) ==> n == 256,
        call_ensures(default_ivf_probe, (), n) ==> n == 3,
        call_ensures(write_centroids, (order, table), out) ==> {
            &&& out@.len() == 4 * table@.len()
            &&& 0 <= i < table@.len() && order is Little ==> table@[i] == out@[4 * i] + 256
                * out@[4 * i + 1] + 65_536 * out@[4 * i + 2] + 16_777_216 * out@[4 * i + 3]
            &&& 0 <= i < table@.len() && order is Big ==> table@[i] == out@[4 * i + 3] + 256
                * out@[4 * i + 2] + 65_536 * out@[4 * i + 1] + 16_777_216 * out@[4 * i]
        },
        call_ensures(read_centroids, (bytes, num_buckets, dim), r) ==> {
            &&& r is Ok <==> bytes@.len() == num_buckets * dim * 4
            &&& r is Err ==> r == Err::<Vec<u32>, DbError>(
                DbError::InvalidVectorBytes { len: bytes@.len() as usize },
            )
            &&& r matches Ok(words) ==> (0 <= i < words@.len() ==> words@[i] == bytes@[4 * i] + 256
                * bytes@[4 * i + 1] + 65_536 * bytes@[4 * i + 2] + 16_777_216 * bytes@[4 * i + 3])
        },
{
    if call_ensures(write_centroids, (order, table), out) {
        lemma_stored_word(order, table@, i);
    }
    if 0 <= i && 4 * i + 4 <= bytes@.len() {
        law_words_in_place(ByteOrder::Little, Seq::empty(), bytes@, i, 0);
        law_value_of_bytes(
            seq![bytes@[4 * i], bytes@[4 * i + 1], bytes@[4 * i + 2], bytes@[4 * i + 3]],
        );
    }
}

proof fn lemma_stored_word(order: ByteOrder, words: Seq<u32>, i: int)
    ensures
        ({
            let out = crate::words::bytes_of(order, words);
            &&& out.len() == 4 * words.len()
            &&& 0 <= i < words.len() && order is Little ==> words[i] == out[4 * i] + 256 * out[4 * i
                + 1] + 65_536 * out[4 * i + 2] + 16_777_216 * out[4 * i + 3]
            &&& 0 <= i < words.len() && order is Big ==> words[i] == out[4 * i + 3] + 256 * out[4
                * i + 2] + 65_536 * out[4 * i + 1] + 16_777_216 * out[4 * i]
        }),
{
    law_words_in_place(order, words, Seq::empty(), i, 0);
    law_words_in_place(order, words, Seq::empty(), i, 1);
    law_words_in_place(order, words, Seq::empty(), i, 2);
    law_words_in_place(order, words, Seq::empty(), i, 3);
    if 0 <= i < words.len() {
        law_place_values(words[i]);
    }
}

/// A row is stored as four bytes for each word in the order of the host, and words are read from
/// the place asked for.
pub proof fn law_storing_words(
    order: ByteOrder,
    row: &[u32],
    bytes: &[u8],
    start: usize,
    count: usize,
    out: Vec<u8>,
    words: Vec<u32>,
    i: int,
)
    ensures
        call_ensures(bytes_from_words, (order, row), out) ==> {
            &&& out@.len() == 4 * row@.len()
            &&& 0 <= i < row@.len() && order is Little ==> row@[i] == out@[4 * i] + 256 * out@[4 * i
                + 1] + 65_536 * out@[4 * i + 2] + 16_777_216 * out@[4 * i + 3]
            &&& 0 <= i < row@.len() && order is Big ==> row@[i] == out@[4 * i + 3] + 256 * out@[4
                * i + 2] + 65_536 * out@[4 * i + 1] + 16_777_216 * out@[4 * i]
        },
        call_ensures(read_words, (order, bytes, start, count), words) && start + count
            <= bytes@.len() / 4 ==> {
            &&& words@.len() == count
            &&& 0 <= i < count ==> words@[i] == crate::words::words_of(order, bytes@)[start + i]
        },
{
    if call_ensures(bytes_from_words, (order, row), out) {
        lemma_stored_word(order, row@, i);
    }
}

/// What rewriting a vector file gives: the live rows in ascending order of their ids, one behind the
/// other, each with the words it had, and the statistics; or the smallest live id without a row.
pub proof fn law_rewriting(
    dim: usize,
    records: HashMap<VectorId, ChunkRecord>,
    offsets: HashMap<VectorId, u64>,
    tombstones: HashSet<VectorId>,
    words: &[u32],
    r: Result<CompactResult, DbError>,
    a: VectorId,
    b: VectorId,
)
    requires
        call_ensures(compact_vectors, (dim, &records, &offsets, &tombstones, words), r),
    ensures
        ({
            let live = records@.dom().difference(tombstones@);
            &&& r matches Ok((kept, places, stats)) ==> {
                &&& places@.contains_key(a) <==> records@.contains_key(a) && !tombstones@.contains(
                    a,
                )
                &&& live.contains(a) ==> row_of(kept@, dim as nat, places@, a) is Some && row_of(
                    kept@,
                    dim as nat,
                    places@,
                    a,
                ) == row_of(words@, dim as nat, offsets@, a)
                &&& live.contains(a) && live.contains(b) && a < b ==> places@[a] + 4 * dim
                    <= places@[b]
                &&& kept@.len() == live.len() * dim
                &&& stats.vectors_before == records@.len()
                &&& stats.vectors_after == live.len()
                &&& stats.bytes_reclaimed == if kept@.len() <= words@.len() {
                    4 * (words@.len() - kept@.len())
                } else {
                    0
                }
            }
            &&& r matches Err(e) ==> (e matches DbError::MissingOffset { id } && live.contains(id)
                && row_of(words@, dim as nat, offsets@, id) is None && (live.contains(a) && a < id
                ==> row_of(words@, dim as nat, offsets@, a) is Some))
        }),
{
    let live = records@.dom().difference(tombstones@);
    match r {
        Ok((kept, places, stats)) => {
            let ids = choose|ids: Seq<VectorId>|
                #[trigger] crate::compact::ascending(ids, live) && crate::compact::laid_out(
                    dim as nat,
                    ids,
                    offsets@,
                    words@,
                    places@,
                    kept@,
                );
            crate::storage::lemma_listed_len(ids, live);
            assert(places@.dom().contains(a) <==> live.contains(a));
            if live.contains(a) {
                assert(ids.contains(a));
                let i = choose|i: int| 0 <= i < ids.len() && ids[i] == a;
                assert(ids[i] == a);
                if live.contains(b) && a < b {
                    assert(ids.contains(b));
                    let j = choose|j: int| 0 <= j < ids.len() && ids[j] == b;
                    if j < i {
                        assert(ids[j] < ids[i]);
                    }
                    assert(places@[ids[i]] == 4 * (i * dim));
                    assert(places@[ids[j]] == 4 * (j * dim));
                    let d = dim as int;
                    assert(i * d + d <= j * d) by (nonlinear_arith)
                        requires
                            d >= 0,
                            i < j,
                    ;
                }
            }
        },
        Err(e) => {},
    }
}

/// The share of dead ids is what the arithmetic answers to their number and that of all ids, and
/// zero while there are none; a compaction is due where there is a dead id and the share has reached
/// the threshold.
pub proof fn law_when_compaction_is_due<M: VectorMath>(
    math: M,
    tombstones: HashSet<VectorId>,
    allocated: usize,
    ratio: u32,
    policy: CompactionPolicy,
    dead: usize,
    due: bool,
    r: Result<CompactionPolicy, DbError>,
)
    ensures
        call_ensures(dead_ratio::<M>, (&math, &tombstones, allocated), ratio) ==> if allocated
            == 0 {
            ratio == 0
        } else {
            call_ensures(M::ratio, (&math, tombstones@.len() as usize, allocated), ratio)
        },
        call_ensures(is_compaction_due, (ratio, policy, dead), due) && policy.valid() && ratio
            < 0x8000_0000 ==> due == (dead > 0 && reaches(ratio, policy.dead_ratio_threshold)),
        call_ensures(CompactionPolicy::validate, (policy,), r) ==> {
            &&& r is Ok <==> policy.dead_ratio_threshold <= 0x3f80_0000
                || policy.dead_ratio_threshold == 0x8000_0000
            &&& r is Ok ==> r == Ok::<CompactionPolicy, DbError>(policy)
            &&& r is Err ==> r == Err::<CompactionPolicy, DbError>(
                DbError::InvalidCompactionPolicy { threshold: policy.dead_ratio_threshold },
            )
        },
{
    law_valid_thresholds(policy);
    if policy.valid() && ratio < 0x8000_0000 {
        law_what_is_not_a_number(ratio, policy.dead_ratio_threshold);
        if ratio <= 0x7f80_0000 {
            law_order_of_numbers(ratio, policy.dead_ratio_threshold);
        }
    }
}

/// Filtering ids gives exactly those without a tombstone that pass each given filter, and nothing
/// at all where none is given.
pub proof fn law_filtering(
    index: PostingIndex,
    file_paths: Option<&[String]>,
    file_path_prefix: Option<&str>,
    kinds: Option<&[String]>,
    candidate_ids: Option<&[VectorId]>,
    tombstones: HashSet<VectorId>,
    r: Option<Vec<VectorId>>,
    id: VectorId,
)
    requires
        call_ensures(
            PostingIndex::resolve,
            (&index, file_paths, file_path_prefix, kinds, candidate_ids, &tombstones),
            r,
        ),
    ensures
        r is None <==> file_paths is None && file_path_prefix is None && kinds is None
            && candidate_ids is None,
        r matches Some(ids) ==> ids@.no_duplicates() && (ids@.contains(id) <==> {
            &&& !tombstones@.contains(id)
            &&& file_paths matches Some(paths) ==> exists|i: int|
                0 <= i < paths@.len() && index@.by_file.contains_key((#[trigger] paths@[i])@)
                    && index@.by_file[paths@[i]@].contains(id)
            &&& file_path_prefix matches Some(prefix) ==> exists|path: Seq<char>|
                #![trigger index@.by_file[path]]
                index@.by_file.contains_key(path) && index@.by_file[path].contains(id)
                    && prefix@.len() <= path.len() && path.take(prefix@.len() as int) == prefix@
            &&& kinds matches Some(kinds) ==> exists|i: int|
                0 <= i < kinds@.len() && index@.by_kind.contains_key((#[trigger] kinds@[i])@)
                    && index@.by_kind[kinds@[i]@].contains(id)
            &&& candidate_ids matches Some(given) ==> given@.contains(id)
        }),
{
    law_every_filter_narrows(
        index@,
        file_paths,
        file_path_prefix,
        kinds,
        candidate_ids,
        id,
    );
}

/// Listing a row puts its id behind the others of its path and of its kind; taking it out takes it
/// from both lists; no other list changes either way.
pub proof fn law_listing(
    index: &mut PostingIndex,
    id: VectorId,
    record: &ChunkRecord,
    key: Seq<char>,
)
    ensures
        call_ensures(PostingIndex::insert, (index, id, record), ()) ==> {
            &&& list_of(final(index)@.by_file, key) == if key == record.file_path@ {
                list_of(old(index)@.by_file, key).push(id)
            } else {
                list_of(old(index)@.by_file, key)
            }
            &&& list_of(final(index)@.by_kind, key) == if key == record.kind@ {
                list_of(old(index)@.by_kind, key).push(id)
            } else {
                list_of(old(index)@.by_kind, key)
            }
        },
        call_ensures(PostingIndex::remove, (index, id, record), ()) ==> {
            &&& list_of(final(index)@.by_file, key) == if key == record.file_path@ {
                list_of(old(index)@.by_file, key).filter(|x: VectorId| x != id)
            } else {
                list_of(old(index)@.by_file, key)
            }
            &&& list_of(final(index)@.by_kind, key) == if key == record.kind@ {
                list_of(old(index)@.by_kind, key).filter(|x: VectorId| x != id)
            } else {
                list_of(old(index)@.by_kind, key)
            }
        },
{
    crate::postings::law_listing_a_row(old(index)@, id, *record, key);
    crate::postings::law_taking_a_row_out(old(index)@, id, *record, key);
}

/// What a map from keys to lists says after a call: a list that is set replaces the one of its key,
/// an id that is appended comes last, an id that is removed is nowhere in the list, a list that
/// becomes empty has no key any more, and no other key is touched.
pub proof fn law_posting_maps(
    map: &mut PostingMap,
    key: String,
    ids: Vec<VectorId>,
    id: VectorId,
    other: Seq<char>,
)
    ensures
        call_ensures(PostingMap::set, (map, key, ids), ()) ==> {
            &&& final(map)@.contains_key(key@) && final(map)@[key@] == ids@
            &&& other != key@ ==> (final(map)@.contains_key(other) <==> old(map)@.contains_key(
                other,
            )) && list_of(final(map)@, other) == list_of(old(map)@, other)
        },
        call_ensures(PostingMap::append, (map, &key, id), ()) ==> {
            &&& final(map)@.contains_key(key@)
            &&& final(map)@[key@] == list_of(old(map)@, key@).push(id)
            &&& other != key@ ==> (final(map)@.contains_key(other) <==> old(map)@.contains_key(
                other,
            )) && list_of(final(map)@, other) == list_of(old(map)@, other)
        },
        call_ensures(PostingMap::remove_id, (map, &key, id), ()) ==> {
            &&& old(map)@.contains_key(key@) ==> list_of(final(map)@, key@) == old(
                map,
            )@[key@].filter(|x: VectorId| x != id)
            &&& final(map)@.contains_key(key@) ==> old(map)@.contains_key(key@)
            &&& old(map)@.contains_key(key@) ==> (final(map)@.contains_key(key@) <==> old(
                map,
            )@[key@].filter(|x: VectorId| x != id).len() > 0)
            &&& other != key@ ==> (final(map)@.contains_key(other) <==> old(map)@.contains_key(
                other,
            )) && list_of(final(map)@, other) == list_of(old(map)@, other)
        },
{
    if old(map)@.contains_key(key@) {
        crate::postings::lemma_filtered_keeps_others(old(map)@[key@], id);
        if old(map)@[key@].filter(|x: VectorId| x != id).len() == 0 {
            assert(old(map)@[key@].filter(|x: VectorId| x != id) =~= Seq::<VectorId>::empty());
        }
    }
}

/// A map made from entries has a list exactly for the keys of the entries, that of the last entry of
/// each; and the entries of a map are its keys, each once, with their lists.
pub proof fn law_posting_entries(
    entries: Vec<Posting>,
    made: PostingMap,
    map: PostingMap,
    r: &Vec<Posting>,
    key: Seq<char>,
    i: int,
)
    ensures
        call_ensures(PostingMap::from_entries, (entries,), made) ==> {
            &&& made@.contains_key(key) <==> exists|j: int|
                0 <= j < entries@.len() && (#[trigger] entries@[j]).key@ == key
            &&& 0 <= i < entries@.len() && entries@[i].key@ == key && (forall|j: int|
                i < j < entries@.len() ==> (#[trigger] entries@[j]).key@ != key) ==> made@[key]
                == entries@[i].ids@
        },
        call_ensures(PostingMap::entries, (&map,), r) ==> {
            &&& map@.contains_key(key) <==> exists|j: int|
                0 <= j < r@.len() && (#[trigger] r@[j]).key@ == key
            &&& forall|j: int, k: int|
                0 <= j < k < r@.len() ==> (#[trigger] r@[j]).key@ != (#[trigger] r@[k]).key@
            &&& 0 <= i < r@.len() && r@[i].key@ == key ==> map@[key] == r@[i].ids@
        },
{
    law_last_list_counts(entries@, key, i);
    law_last_list_counts(r@, key, i);
}

/// A row of words takes four bytes for each, and is as long as it is; a numeral is appended to what
/// the text held.
pub proof fn law_counting_words(
    words: &[u32],
    bytes: usize,
    count: usize,
    out: &mut String,
    n: u64,
)
    ensures
        call_ensures(byte_len, (words,), bytes) ==> bytes == words@.len() * 4,
        call_ensures(word_count, (words,), count) ==> count == words@.len(),
        call_ensures(push_decimal, (out, n), ()) ==> {
            &&& final(out)@.len() > old(out)@.len()
            &&& final(out)@.take(old(out)@.len() as int) == old(out)@
            &&& parsed(final(out)@.skip(old(out)@.len() as int), u64::MAX as nat) == Some(n as nat)
        },
{
    crate::text::law_parse_decimal(n as nat, u64::MAX as nat);
    if call_ensures(push_decimal, (out, n), ()) {
        assert(final(out)@.take(old(out)@.len() as int) =~= old(out)@);
        assert(final(out)@.skip(old(out)@.len() as int) =~= decimal(n as nat));
    }
}

/// Numbers are written as their numerals and read from them; a text that is no numeral, or one of a
/// number above the limit, is not read.
pub proof fn law_numerals(n: u64, text: String, s: &str, max: u64, r: Option<u64>)
    ensures
        call_ensures(to_decimal, (n,), text) ==> text@ == decimal(n as nat) && parsed(
            text@,
            u64::MAX as nat,
        ) == Some(n as nat),
        call_ensures(parse_decimal, (s, max), r) ==> (r is Some <==> parsed(s@, max as nat) is Some),
        call_ensures(parse_decimal, (s, max), r) && s@ == decimal(n as nat) ==> r == (if n <= max {
            Some(n)
        } else {
            None
        }),
{
    crate::text::law_parse_decimal(n as nat, u64::MAX as nat);
    if n <= max {
        crate::text::law_parse_decimal(n as nat, max as nat);
    }
}

/// A record has a metadata key made of its path and its two lines, and a record made from such a key
/// has these again, an unknown kind, no name and no text.
pub proof fn law_metadata_keys(
    record: ChunkRecord,
    key: String,
    text: &str,
    made: ChunkRecord,
)
    requires
        call_ensures(ChunkRecord::metadata_id, (&record,), key),
        call_ensures(record_from_metadata_id, (text,), made),
    ensures
        key@ == record.file_path@ + seq![':'] + decimal(record.start_line as nat) + seq![':']
            + decimal(record.end_line as nat),
        text@ == key@ ==> made.file_path@ == record.file_path@ && made.start_line
            == record.start_line && made.end_line == record.end_line,
        made.text@.len() == 0,
        made.kind@ == "Unknown"@,
        made.name is None,
{
    law_metadata_key_layout(
        record.file_path@,
        record.start_line as nat,
        record.end_line as nat,
    );
    crate::types::law_metadata_key_round_trip(
        record.file_path@,
        record.start_line,
        record.end_line,
    );
}

/// The scope of everything has no filter and both tiers, and a scope is told to be unrestricted
/// exactly where it has no filter.
pub proof fn law_scopes(scope: SearchScope<'_>, r: bool)
    ensures
        call_ensures(SearchScope::all, (), scope) ==> scope.file_paths is None
            && scope.file_path_prefix is None && scope.kinds is None && scope.candidate_ids is None
            && scope.include_staging,
        call_ensures(SearchScope::is_unrestricted, (&scope,), r) ==> r == (scope.file_paths is None
            && scope.file_path_prefix is None && scope.kinds is None && scope.candidate_ids
            is None),
{
}

/// A manifest is refused by its length alone where it is above the limit. The records and the
/// offsets of a store are written as entries that say exactly what the store knows, and a list of
/// entries is read into what it says of each id.
pub proof fn law_manifest_entries(
    len: usize,
    checked: Result<(), DbError>,
    records: HashMap<VectorId, ChunkRecord>,
    record_entries: Vec<Entry<ChunkRecord>>,
    read_records: Result<HashMap<VectorId, ChunkRecord>, DbError>,
    offsets: HashMap<VectorId, u64>,
    offset_entries: Vec<Entry<u64>>,
    read_offsets: Result<HashMap<VectorId, u64>, DbError>,
    id: VectorId,
)
    ensures
        call_ensures(check_manifest_len, (len,), checked) ==> (checked is Ok <==> len
            <= MAX_MANIFEST_BYTES) && (checked is Err ==> checked == Err::<(), DbError>(
            DbError::ManifestTooLarge { len, max: MAX_MANIFEST_BYTES },
        )),
        call_ensures(encode_record_map, (&records,), record_entries) && call_ensures(
            decode_record_map,
            (&record_entries,),
            read_records,
        ) ==> read_records is Ok && read_records->Ok_0@ == records@,
        call_ensures(encode_offset_map, (&offsets,), offset_entries) && call_ensures(
            decode_offset_map,
            (&offset_entries,),
            read_offsets,
        ) ==> read_offsets is Ok && read_offsets->Ok_0@ == offsets@,
        call_ensures(encode_record_map, (&records,), record_entries) && records@.contains_key(id)
            ==> exists|j: int|
            0 <= j < record_entries@.len() && (#[trigger] record_entries@[j]).key@ == decimal(
                id as nat,
            ) && record_entries@[j].value == records@[id],
        call_ensures(encode_offset_map, (&offsets,), offset_entries) && offsets@.contains_key(id)
            ==> exists|j: int|
            0 <= j < offset_entries@.len() && (#[trigger] offset_entries@[j]).key@ == decimal(
                id as nat,
            ) && offset_entries@[j].value == offsets@[id],
        call_ensures(encode_record_map, (&records,), record_entries) ==> record_entries@.len()
            == records@.len(),
        call_ensures(encode_offset_map, (&offsets,), offset_entries) ==> offset_entries@.len()
            == offsets@.len(),
        call_ensures(decode_record_map, (&record_entries,), read_records) && read_records is Ok ==> (
        read_records->Ok_0@.contains_key(id) <==> exists|j: int|
            0 <= j < record_entries@.len() && parsed(
                (#[trigger] record_entries@[j]).key@,
                0xffff_ffff,
            ) == Some(id as nat)),
        call_ensures(decode_offset_map, (&offset_entries,), read_offsets) && read_offsets is Ok ==> (
        read_offsets->Ok_0@.contains_key(id) <==> exists|j: int|
            0 <= j < offset_entries@.len() && parsed(
                (#[trigger] offset_entries@[j]).key@,
                0xffff_ffff,
            ) == Some(id as nat)),
{
    if call_ensures(encode_record_map, (&records,), record_entries) {
        crate::manifest::law_decode_encoded(record_entries@, records@);
        lemma_sound_keys(record_entries@);
        lemma_entry_for_each(record_entries@, records@, id);
    }
    if call_ensures(encode_offset_map, (&offsets,), offset_entries) {
        crate::manifest::law_decode_encoded(offset_entries@, offsets@);
        lemma_sound_keys(offset_entries@);
        lemma_entry_for_each(offset_entries@, offsets@, id);
    }
    law_last_entry_counts(record_entries@, id, 0);
    law_last_entry_counts(offset_entries@, id, 0);
}

proof fn lemma_entry_for_each<V>(entries: Seq<Entry<V>>, map: Map<VectorId, V>, id: VectorId)
    requires
        crate::manifest::encodes(entries, map),
    ensures
        entries.len() == map.len(),
        map.contains_key(id) ==> exists|j: int|
            0 <= j < entries.len() && (#[trigger] entries[j]).key@ == decimal(id as nat)
                && entries[j].value == map[id],
{
    let ids = choose|ids: Seq<VectorId>|
        #[trigger] lists_set(ids, map.dom()) && crate::manifest::entries_for(entries, ids, map);
    crate::storage::lemma_listed_len(ids, map.dom());
    if map.contains_key(id) {
        assert(ids.contains(id));
        let j = choose|j: int| 0 <= j < ids.len() && ids[j] == id;
        assert(entries[j].key@ == decimal(ids[j] as nat));
    }
}

/// A store can be opened exactly where its width is not zero, the same ids have a record and an
/// offset, only such ids carry a tombstone, no two rows begin at the same place, and every row ends
/// within the vector file. An index is loaded where the manifest has one and the centroid file has
/// the right length.
pub proof fn law_checking_a_store(
    dim: usize,
    records: HashMap<VectorId, ChunkRecord>,
    offsets: HashMap<VectorId, u64>,
    tombstones: HashSet<VectorId>,
    len: usize,
    r: Result<(), DbError>,
    said: Option<IvfManifest>,
    centroids: Option<Vec<u8>>,
    index: Option<IvfIndex>,
)
    ensures
        call_ensures(validate_open_state, (dim, &records, &offsets, &tombstones, len), r) ==> (r
            is Ok <==> {
            &&& dim > 0
            &&& forall|id: VectorId| #[trigger]
                records@.contains_key(id) <==> offsets@.contains_key(id)
            &&& forall|id: VectorId| #[trigger]
                tombstones@.contains(id) ==> records@.contains_key(id)
            &&& forall|a: VectorId, b: VectorId|
                offsets@.contains_key(a) && offsets@.contains_key(b) && a != b
                    ==> #[trigger] offsets@[a] != #[trigger] offsets@[b]
            &&& forall|id: VectorId|
                offsets@.contains_key(id) ==> #[trigger] offsets@[id] + 4 * dim <= len
        }),
        call_ensures(load_ivf, (dim, &said, &centroids), index) ==> {
            &&& index is Some <==> said is Some && centroids is Some && centroids->Some_0@.len()
                == 4 * (said->Some_0.num_buckets * dim)
            &&& index is Some ==> index->Some_0.num_buckets == said->Some_0.num_buckets
                && index->Some_0.probe_buckets == said->Some_0.probe_buckets
        },
{
    if call_ensures(validate_open_state, (dim, &records, &offsets, &tombstones, len), r) {
        let good = {
            &&& dim > 0
            &&& forall|id: VectorId| #[trigger]
                records@.contains_key(id) <==> offsets@.contains_key(id)
            &&& forall|id: VectorId| #[trigger]
                tombstones@.contains(id) ==> records@.contains_key(id)
            &&& forall|a: VectorId, b: VectorId|
                offsets@.contains_key(a) && offsets@.contains_key(b) && a != b
                    ==> #[trigger] offsets@[a] != #[trigger] offsets@[b]
            &&& forall|id: VectorId|
                offsets@.contains_key(id) ==> #[trigger] offsets@[id] + 4 * dim <= len
        };
        if r is Ok {
            assert forall|id: VectorId| #[trigger] records@.contains_key(id)
                <==> offsets@.contains_key(id) by {
                assert(records@.dom().contains(id) <==> offsets@.dom().contains(id));
            }
            assert forall|id: VectorId| #[trigger] tombstones@.contains(
                id,
            ) implies records@.contains_key(id) by {
                assert(records@.dom().contains(id));
            }
            assert forall|id: VectorId| offsets@.contains_key(id) implies #[trigger] offsets@[id] + 4
                * dim <= len by {
                assert(row_fits(dim as nat, offsets@, len as nat, id));
            }
        }
        if good {
            assert(records@.dom() =~= offsets@.dom());
            assert(tombstones@.subset_of(records@.dom()));
            if let Err(e) = r {
                match e {
                    DbError::CorruptVectorOffset { id } => {
                        assert(offsets@[id] + 4 * dim <= len);
                    },
                    _ => {},
                }
            }
        }
    }
    if call_ensures(load_ivf, (dim, &said, &centroids), index) {
        law_loaded_index(
            dim as nat,
            match said {
                Some(ivf) => Some(ivf@),
                None => None,
            },
            match centroids {
                Some(bytes) => Some(bytes@),
                None => None,
            },
            0,
        );
    }
}

/// What is taken where nothing else is said: a lock for one writer and half a minute to wait for it,
/// with twenty attempts a second, a threshold of a quarter, a scope of everything, an exact search,
/// and a manifest of the default width that names no row.
pub proof fn law_defaults(
    options: DbLockOptions,
    policy: CompactionPolicy,
    scope: SearchScope<'_>,
    strategy: AnnStrategy,
    manifest: Manifest,
    index: PostingIndex,
)
    ensures
        LOCK_POLL_INTERVAL == 50_000_000,
        call_ensures(<DbLockOptions as Default>::default, (), options) ==> options.spec_timeout()
            == Some(30_000_000_000u128) && !options.spec_shared(),
        call_ensures(<CompactionPolicy as Default>::default, (), policy)
            ==> policy.dead_ratio_threshold == 0x3e80_0000,
        call_ensures(<SearchScope<'_> as Default>::default, (), scope) ==> scope.file_paths is None
            && scope.file_path_prefix is None && scope.kinds is None && scope.candidate_ids is None
            && scope.include_staging,
        call_ensures(<AnnStrategy as Default>::default, (), strategy) ==> strategy is Exact,
        call_ensures(<Manifest as Default>::default, (), manifest) ==> {
            &&& manifest.version == 1
            &&& manifest@.dim == 384
            &&& manifest@.next_id == 0
            &&& manifest@.records == Map::<VectorId, ChunkRecord>::empty()
            &&& manifest@.offsets == Map::<VectorId, u64>::empty()
            &&& manifest@.tombstones == Set::<VectorId>::empty()
            &&& manifest@.policy.dead_ratio_threshold == 0x3e80_0000
            &&& manifest@.ivf is None
        },
        call_ensures(<PostingIndex as Default>::default, (), index) ==> index@.by_file == Map::<
            Seq<char>,
            Seq<VectorId>,
        >::empty() && index@.by_kind == Map::<Seq<char>, Seq<VectorId>>::empty(),
{
}

proof fn lemma_sound_keys<V>(entries: Seq<Entry<V>>)
    requires
        crate::manifest::keys_sound(entries),
    ensures
        forall|e: DbError| !(#[trigger] crate::manifest::bad_key(entries, e)),
{
}

/// The unit vector of an axis is one there and zero everywhere else, and the records for examples
/// have the path, the line and the kind that they are made for.
pub proof fn law_samples(
    axis: usize,
    vector: Vec<u32>,
    path: &str,
    kind: &str,
    line: u64,
    record: ChunkRecord,
    i: int,
)
    ensures
        call_ensures(unit_vector, (axis,), vector) ==> vector@.len() == 384 && (0 <= i < 384
            ==> vector@[i] == if i == axis % 384 {
            0x3f80_0000u32
        } else {
            0u32
        }),
        call_ensures(chunk_record, (path, line), record) ==> record.file_path@ == path@
            && record.start_line == line && record.end_line == line && record.kind@ == "Function"@
            && record.text@ == "chunk at "@ + decimal(line as nat),
        call_ensures(chunk_record_with_kind, (path, kind, line), record) ==> record.file_path@
            == path@ && record.start_line == line && record.end_line == line && record.kind@
            == kind@ && record.name is None && record.text@ == "chunk at "@ + decimal(
            line as nat,
        ),
{
}

} // verus!
