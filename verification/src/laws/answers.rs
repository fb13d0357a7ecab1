//! What a search answers, in terms of the query, the filters and the rows alone.

use vstd::prelude::*;

use super::rows::law_get;
use super::search::{
    comparable, filters_known, law_hits_are_rows, law_scope_admits_rows, lemma_entry_is_row,
    lemma_hit_entry, lemma_left_out, lemma_one_more_row, lemma_one_tier, lemma_orderly,
};
use crate::bits::{law_order_of_numbers, law_what_is_not_a_number, spec_gt, spec_is_nan};
use crate::ivf::{
    best_buckets, bucket_scores, dot_is, law_best_buckets_are_nearest,
    law_more_buckets_lose_nothing, lists_probed, nearer, probes, single_valued, IvfView, VectorMath,
};
use crate::ranking::{before, Scored};
use crate::state::{staged, DbView};
use crate::storage::search::{
    best_hits, found, hit_scores, in_pool, is_pool, is_probe, meets, scorable, scored_entries,
    search_outcome, SearchHit,
};
use crate::types::{AnnStrategy, ChunkRecord, DbError, SearchScope, VectorId};

verus! {

/// A row with this id and this record is asked for: its path is one of the paths, begins with the
/// prefix, its kind is one of the kinds, and its id is one of the ids, each as far as it is given.
pub open spec fn asked_for(scope: SearchScope<'_>, id: VectorId, record: ChunkRecord) -> bool {
    &&& scope.file_paths matches Some(paths) ==> exists|i: int|
        0 <= i < paths@.len() && (#[trigger] paths@[i])@ == record.file_path@
    &&& scope.file_path_prefix matches Some(prefix) ==> prefix@.is_prefix_of(record.file_path@)
    &&& scope.kinds matches Some(kinds) ==> exists|i: int|
        0 <= i < kinds@.len() && (#[trigger] kinds@[i])@ == record.kind@
    &&& scope.candidate_ids matches Some(ids) ==> exists|i: int|
        0 <= i < ids@.len() && #[trigger] ids@[i] == id
}

proof fn lemma_asked_for(scope: SearchScope<'_>, id: VectorId, record: ChunkRecord)
    ensures
        asked_for(scope, id, record) <==> meets(scope, id, record),
{
    if let Some(ids) = scope.candidate_ids {
        if exists|i: int| 0 <= i < ids@.len() && #[trigger] ids@[i] == id {
            let i = choose|i: int| 0 <= i < ids@.len() && #[trigger] ids@[i] == id;
            assert(ids@.contains(ids@[i]));
        }
    }
}

/// Every filter counts, whichever others are given. The record of each hit belongs to one of the
/// given paths; its path begins, character by character, with the given prefix; its kind is one of
/// the given kinds; and the id is one of the given ids.
pub proof fn law_every_filter_counts<M: VectorMath>(
    math: M,
    v: DbView,
    query: Seq<u32>,
    k: nat,
    scope: SearchScope<'_>,
    strategy: AnnStrategy,
    hits: Seq<SearchHit>,
    i: int,
)
    requires
        v.readable(),
        filters_known(v, scope),
        found(math, v, query, k, scope, strategy, hits),
        0 <= i < hits.len(),
    ensures
        scope.file_paths matches Some(paths) ==> exists|p: int|
            0 <= p < paths@.len() && (#[trigger] paths@[p])@ == hits[i].record.file_path@,
        scope.file_path_prefix matches Some(prefix) ==> {
            &&& prefix@.len() <= hits[i].record.file_path@.len()
            &&& forall|p: int|
                0 <= p < prefix@.len() ==> #[trigger] prefix@[p] == hits[i].record.file_path@[p]
        },
        scope.kinds matches Some(kinds) ==> exists|p: int|
            0 <= p < kinds@.len() && (#[trigger] kinds@[p])@ == hits[i].record.kind@,
        scope.candidate_ids matches Some(ids) ==> exists|p: int|
            0 <= p < ids@.len() && #[trigger] ids@[p] == hits[i].id,
        asked_for(scope, hits[i].id, hits[i].record),
{
    law_hits_are_rows(math, v, query, k, scope, strategy, hits);
    lemma_asked_for(scope, hits[i].id, hits[i].record);
    if let Some(prefix) = scope.file_path_prefix {
        let path = hits[i].record.file_path@;
        assert forall|p: int| 0 <= p < prefix@.len() implies #[trigger] prefix@[p] == path[p] by {
            assert(path.subrange(0, prefix@.len() as int)[p] == path[p]);
        }
    }
}

/// Every hit stands for a row that can be read: one of the staging tier, where the scope has that
/// tier, or one with a record and without a tombstone. It comes with the record of that row, and
/// its score is what the arithmetic answers to the query and that row. No row is a hit twice, and
/// there are at most `k` hits.
pub proof fn law_hits_are_live_rows<M: VectorMath>(
    math: M,
    v: DbView,
    query: Seq<u32>,
    k: nat,
    scope: SearchScope<'_>,
    strategy: AnnStrategy,
    hits: Seq<SearchHit>,
    i: int,
)
    requires
        v.readable(),
        filters_known(v, scope),
        found(math, v, query, k, scope, strategy, hits),
        0 <= i < hits.len(),
    ensures
        hits.len() <= k,
        match staged(v.staging, hits[i].id) {
            Some(s) => {
                &&& scope.include_staging
                &&& s.id == hits[i].id
                &&& v.staging.contains(s)
                &&& hits[i].record == s.record
                &&& dot_is(math, query, s.row, hits[i].score)
            },
            None => {
                &&& v.records.contains_key(hits[i].id)
                &&& !v.tombstones.contains(hits[i].id)
                &&& hits[i].record == v.records[hits[i].id]
                &&& v.row(hits[i].id) matches Some(row) && dot_is(math, query, row, hits[i].score)
            },
        },
        forall|j: int| 0 <= j < hits.len() && j != i ==> (#[trigger] hits[j]).id != hits[i].id,
{
    law_hits_are_rows(math, v, query, k, scope, strategy, hits);
    law_get(v, hits[i].id);
    if let Some(s) = staged(v.staging, hits[i].id) {
        super::rows::lemma_staged_found(v.staging, hits[i].id);
        let p = choose|p: int| 0 <= p < v.staging.len() && v.staging[p].id == hits[i].id;
        crate::storage::lemma_staged_at(v.staging, hits[i].id, p);
    }
    assert forall|j: int| 0 <= j < hits.len() && j != i implies (#[trigger] hits[j]).id
        != hits[i].id by {
        if j < i {
            assert(hits[j].id != hits[i].id);
        } else {
            assert(hits[i].id != hits[j].id);
        }
    }
}

/// Hits stand best first. Where the scores are numbers, no hit stands behind one with a smaller
/// score, and of two with equal scores the one with the smaller id stands first. Of scores that are
/// not negative the patterns themselves descend, and of negative ones they ascend, all of these
/// behind the others.
pub proof fn law_hits_descend<M: VectorMath>(
    math: M,
    v: DbView,
    query: Seq<u32>,
    k: nat,
    scope: SearchScope<'_>,
    strategy: AnnStrategy,
    hits: Seq<SearchHit>,
    i: int,
    j: int,
)
    requires
        v.readable(),
        filters_known(v, scope),
        found(math, v, query, k, scope, strategy, hits),
        comparable(math, v, query),
        0 <= i < j < hits.len(),
    ensures
        !spec_gt(hits[j].score, hits[i].score),
        spec_gt(hits[i].score, hits[j].score) || hits[i].id < hits[j].id,
        hits[i].score < 0x8000_0000 && hits[j].score < 0x8000_0000 ==> hits[i].score
            >= hits[j].score,
        hits[i].score >= 0x8000_0000 && hits[j].score >= 0x8000_0000 ==> hits[i].score
            <= hits[j].score,
        hits[i].score >= 0x8000_0000 && hits[j].score < 0x8000_0000 ==> hits[i].score
            == 0x8000_0000 && hits[j].score == 0,
        hits[i].score == hits[j].score ==> hits[i].id < hits[j].id,
{
    law_hits_are_rows(math, v, query, k, scope, strategy, hits);
    let scores = hit_scores(hits);
    assert(!before(scores[j], scores[i]));
    assert(hits[i].id != hits[j].id);
    let a = hits[i].score;
    let b = hits[j].score;
    assert(dot_is(math, query, v.fetched(hits[i].id)->Ok_0.0, a));
    assert(dot_is(math, query, v.fetched(hits[j].id)->Ok_0.0, b));
    law_what_is_not_a_number(a, b);
    law_what_is_not_a_number(b, a);
    law_order_of_numbers(a, b);
    law_order_of_numbers(b, a);
}

/// The row of `id` was left out for better ones: there are `k` hits and, the scores being numbers,
/// it has a score that is smaller than that of each hit, or equal to it with a greater id.
pub open spec fn outdone<M: VectorMath>(
    math: M,
    v: DbView,
    query: Seq<u32>,
    k: nat,
    hits: Seq<SearchHit>,
    id: VectorId,
) -> bool {
    &&& hits.len() == k
    &&& comparable(math, v, query) ==> exists|score: u32| #[trigger]
        dot_is(math, query, v.fetched(id)->Ok_0.0, score) && forall|i: int|
            0 <= i < hits.len() ==> !spec_gt(score, (#[trigger] hits[i]).score) && (spec_gt(
                hits[i].score,
                score,
            ) || hits[i].id < id)
}

/// The id is that of a hit.
pub open spec fn is_hit(hits: Seq<SearchHit>, id: VectorId) -> bool {
    exists|i: int| 0 <= i < hits.len() && (#[trigger] hits[i]).id == id
}

/// A candidate that is no hit was outdone.
proof fn lemma_outdone<M: VectorMath>(
    math: M,
    v: DbView,
    query: Seq<u32>,
    scope: SearchScope<'_>,
    near: Option<Seq<VectorId>>,
    entries: Seq<(VectorId, bool)>,
    all: Seq<Scored>,
    k: nat,
    hits: Seq<SearchHit>,
    id: VectorId,
)
    requires
        v.readable(),
        is_pool(v, scope, near, entries),
        scored_entries(math, v, query, entries, all),
        best_hits(v, all, k, hits),
        v.fetched(id) is Ok,
        in_pool(v, scope, near, id, staged(v.staging, id) is Some),
        !is_hit(hits, id),
    ensures
        outdone(math, v, query, k, hits, id),
{
    let e = (id, staged(v.staging, id) is Some);
    law_get(v, id);
    assert(scorable(v, e.0, e.1));
    assert(entries.contains(e));
    let p = choose|p: int| 0 <= p < entries.len() && entries[p] == e;
    lemma_one_tier(v, scope, near, e.0, e.1, e.1);
    lemma_entry_is_row(v, e.0, e.1);
    assert(all[p].id == id);
    assert forall|i: int| 0 <= i < hits.len() implies hits[i].id != all[p].id by {
        assert(!(hits[i].id == id));
    }
    lemma_left_out(all, k, hits, p);
    if comparable(math, v, query) {
        lemma_orderly(math, v, query, scope, near, entries, all);
        let score = all[p].score;
        assert(dot_is(math, query, v.fetched(id)->Ok_0.0, score));
        assert forall|i: int| 0 <= i < hits.len() implies !spec_gt(
            score,
            (#[trigger] hits[i]).score,
        ) && (spec_gt(hits[i].score, score) || hits[i].id < id) by {
            assert(!before(all[p], hit_scores(hits)[i]));
            assert(hits[i].id != id);
        }
    }
}

/// An exact search misses nothing: every row that is asked for, in a tier that the scope has, is a
/// hit, or there are `k` hits that are all better.
pub proof fn law_exact_search_misses_nothing<M: VectorMath>(
    math: M,
    v: DbView,
    query: Seq<u32>,
    k: nat,
    scope: SearchScope<'_>,
    hits: Seq<SearchHit>,
    id: VectorId,
)
    requires
        v.readable(),
        filters_known(v, scope),
        found(math, v, query, k, scope, AnnStrategy::Exact, hits),
        v.fetched(id) is Ok,
        asked_for(scope, id, v.fetched(id)->Ok_0.1),
        staged(v.staging, id) is Some ==> scope.include_staging,
    ensures
        is_hit(hits, id) || outdone(math, v, query, k, hits, id),
{
    let (near, entries, all) = choose|
        near: Option<Seq<VectorId>>,
        entries: Seq<(VectorId, bool)>,
        all: Seq<Scored>,
    |
        #![trigger is_pool(v, scope, near, entries), scored_entries(math, v, query, entries, all)]
        {
            &&& is_probe(math, v, query, AnnStrategy::Exact, near)
            &&& is_pool(v, scope, near, entries)
            &&& scored_entries(math, v, query, entries, all)
            &&& best_hits(v, all, k, hits)
        };
    if !is_hit(hits, id) {
        lemma_asked_for(scope, id, v.fetched(id)->Ok_0.1);
        law_scope_admits_rows(v, scope, id);
        law_get(v, id);
        lemma_outdone(math, v, query, scope, near, entries, all, k, hits, id);
    }
}

/// The number of buckets that a search probes which asks for `n`: it asks for one at least.
pub open spec fn at_least_one(n: usize) -> nat {
    if n == 0 {
        1
    } else {
        n as nat
    }
}

/// A bucketed search looks at exactly the buckets that it is asked for. There are scores of the
/// query with the centroids such that, these being numbers, every hit that is not staged lies in a
/// bucket before which fewer than `n` others come, and every row that is asked for and lies in such
/// a bucket is a hit, or there are `k` hits that are all better. Staged rows are in no bucket: each
/// one that is asked for is a hit or outdone.
pub proof fn law_bucketed_search_probes_the_nearest<M: VectorMath>(
    math: M,
    v: DbView,
    query: Seq<u32>,
    k: nat,
    scope: SearchScope<'_>,
    probe_buckets: usize,
    hits: Seq<SearchHit>,
    index: IvfView,
)
    requires
        v.readable(),
        v.ivf == Some(index),
        filters_known(v, scope),
        found(math, v, query, k, scope, AnnStrategy::Ivf { probe_buckets }, hits),
    ensures
        forall|id: VectorId|
            #![trigger v.fetched(id)]
            staged(v.staging, id) is Some && v.fetched(id) is Ok && asked_for(
                scope,
                id,
                v.fetched(id)->Ok_0.1,
            ) && scope.include_staging ==> is_hit(hits, id) || outdone(
                math,
                v,
                query,
                k,
                hits,
                id,
            ),
        exists|scores: Seq<u32>|
            {
                &&& #[trigger] bucket_scores(
                    math,
                    query,
                    index.centroids,
                    v.dim as nat,
                    index.num_buckets as nat,
                    scores,
                )
                &&& (forall|b: int| 0 <= b < scores.len() ==> !spec_is_nan(#[trigger] scores[b]))
                    ==> {
                    &&& forall|i: int|
                        #![trigger hits[i]]
                        0 <= i < hits.len() && staged(v.staging, hits[i].id) is None ==> {
                            &&& index.assignments.contains_key(hits[i].id)
                            &&& index.assignments[hits[i].id] < index.num_buckets
                            &&& nearer(scores, index.assignments[hits[i].id] as int).len()
                                < at_least_one(probe_buckets)
                        }
                    &&& forall|id: VectorId|
                        #![trigger v.fetched(id)]
                        {
                            &&& staged(v.staging, id) is None
                            &&& v.fetched(id) is Ok
                            &&& asked_for(scope, id, v.fetched(id)->Ok_0.1)
                            &&& index.assignments.contains_key(id)
                            &&& index.assignments[id] < index.num_buckets
                            &&& nearer(scores, index.assignments[id] as int).len() < at_least_one(
                                probe_buckets,
                            )
                        } ==> is_hit(hits, id) || outdone(math, v, query, k, hits, id)
                }
            },
{
    let strategy = AnnStrategy::Ivf { probe_buckets };
    let (near, entries, all) = choose|
        near: Option<Seq<VectorId>>,
        entries: Seq<(VectorId, bool)>,
        all: Seq<Scored>,
    |
        #![trigger is_pool(v, scope, near, entries), scored_entries(math, v, query, entries, all)]
        {
            &&& is_probe(math, v, query, strategy, near)
            &&& is_pool(v, scope, near, entries)
            &&& scored_entries(math, v, query, entries, all)
            &&& best_hits(v, all, k, hits)
        };
    let n = at_least_one(probe_buckets);
    let rows = near->Some_0;
    let buckets = choose|buckets: Seq<usize>| #[trigger]
        probes(math, query, index, v.dim as nat, n, buckets) && lists_probed(
            index.assignments,
            buckets,
            v.tombstones,
            rows,
        );
    let scores = choose|scores: Seq<u32>|
        #[trigger] bucket_scores(
            math,
            query,
            index.centroids,
            v.dim as nat,
            index.num_buckets as nat,
            scores,
        ) && best_buckets(buckets, scores, n);
    law_best_buckets_are_nearest(scores, n, buckets);
    assert forall|id: VectorId|
        #![trigger v.fetched(id)]
        staged(v.staging, id) is Some && v.fetched(id) is Ok && asked_for(
            scope,
            id,
            v.fetched(id)->Ok_0.1,
        ) && scope.include_staging implies is_hit(hits, id) || outdone(
        math,
        v,
        query,
        k,
        hits,
        id,
    ) by {
        if !is_hit(hits, id) {
            lemma_asked_for(scope, id, v.fetched(id)->Ok_0.1);
            law_scope_admits_rows(v, scope, id);
            lemma_outdone(math, v, query, scope, near, entries, all, k, hits, id);
        }
    }
    if forall|b: int| 0 <= b < scores.len() ==> !spec_is_nan(#[trigger] scores[b]) {
        assert forall|i: int|
            #![trigger hits[i]]
            0 <= i < hits.len() && staged(v.staging, hits[i].id) is None implies {
            &&& index.assignments.contains_key(hits[i].id)
            &&& index.assignments[hits[i].id] < index.num_buckets
            &&& nearer(scores, index.assignments[hits[i].id] as int).len() < n
        } by {
            let p = lemma_hit_entry(math, v, query, scope, near, entries, all, k, hits, i);
            assert(rows.contains(hits[i].id));
            let b = index.assignments[hits[i].id];
            assert(buckets.contains(b));
            let q = choose|q: int| 0 <= q < buckets.len() && buckets[q] == b;
            assert(buckets[q] < scores.len());
        }
        assert forall|id: VectorId|
            #![trigger v.fetched(id)]
            {
                &&& staged(v.staging, id) is None
                &&& v.fetched(id) is Ok
                &&& asked_for(scope, id, v.fetched(id)->Ok_0.1)
                &&& index.assignments.contains_key(id)
                &&& index.assignments[id] < index.num_buckets
                &&& nearer(scores, index.assignments[id] as int).len() < n
            } implies is_hit(hits, id) || outdone(math, v, query, k, hits, id) by {
            if !is_hit(hits, id) {
                law_get(v, id);
                lemma_asked_for(scope, id, v.fetched(id)->Ok_0.1);
                law_scope_admits_rows(v, scope, id);
                assert(buckets.contains(index.assignments[id]));
                assert(rows.contains(id));
                lemma_outdone(math, v, query, scope, near, entries, all, k, hits, id);
            }
        }
    }
    assert(bucket_scores(
        math,
        query,
        index.centroids,
        v.dim as nat,
        index.num_buckets as nat,
        scores,
    ));
}

/// Probing more buckets never loses a row: with room for all of them, and with arithmetic that
/// answers alike each time, every hit of a search with fewer buckets is a hit of one with more.
pub proof fn law_more_buckets_find_more<M: VectorMath>(
    math: M,
    v: DbView,
    query: Seq<u32>,
    k: nat,
    scope: SearchScope<'_>,
    fewer: usize,
    more: usize,
    left: Seq<SearchHit>,
    right: Seq<SearchHit>,
    i: int,
)
    requires
        v.readable(),
        filters_known(v, scope),
        single_valued(math),
        k >= v.row_count(),
        fewer <= more,
        found(math, v, query, k, scope, AnnStrategy::Ivf { probe_buckets: fewer }, left),
        found(math, v, query, k, scope, AnnStrategy::Ivf { probe_buckets: more }, right),
        0 <= i < left.len(),
    ensures
        is_hit(right, left[i].id),
{
    let id = left[i].id;
    let a = AnnStrategy::Ivf { probe_buckets: fewer };
    let b = AnnStrategy::Ivf { probe_buckets: more };
    law_hits_are_rows(math, v, query, k, scope, a, left);
    law_hits_are_rows(math, v, query, k, scope, b, right);
    law_get(v, id);
    let (near1, entries1, all1) = choose|
        near: Option<Seq<VectorId>>,
        entries: Seq<(VectorId, bool)>,
        all: Seq<Scored>,
    |
        #![trigger is_pool(v, scope, near, entries), scored_entries(math, v, query, entries, all)]
        {
            &&& is_probe(math, v, query, a, near)
            &&& is_pool(v, scope, near, entries)
            &&& scored_entries(math, v, query, entries, all)
            &&& best_hits(v, all, k, left)
        };
    let (near2, entries2, all2) = choose|
        near: Option<Seq<VectorId>>,
        entries: Seq<(VectorId, bool)>,
        all: Seq<Scored>,
    |
        #![trigger is_pool(v, scope, near, entries), scored_entries(math, v, query, entries, all)]
        {
            &&& is_probe(math, v, query, b, near)
            &&& is_pool(v, scope, near, entries)
            &&& scored_entries(math, v, query, entries, all)
            &&& best_hits(v, all, k, right)
        };
    let index = v.ivf->Some_0;
    let dim = v.dim as nat;
    let p = lemma_hit_entry(math, v, query, scope, near1, entries1, all1, k, left, i);
    if !is_hit(right, id) {
        law_scope_admits_rows(v, scope, id);
        if staged(v.staging, id) is None {
            let rows1 = near1->Some_0;
            let rows2 = near2->Some_0;
            let buckets1 = choose|buckets: Seq<usize>| #[trigger]
                probes(math, query, index, dim, at_least_one(fewer), buckets) && lists_probed(
                    index.assignments,
                    buckets,
                    v.tombstones,
                    rows1,
                );
            let buckets2 = choose|buckets: Seq<usize>| #[trigger]
                probes(math, query, index, dim, at_least_one(more), buckets) && lists_probed(
                    index.assignments,
                    buckets,
                    v.tombstones,
                    rows2,
                );
            law_more_buckets_lose_nothing(
                math,
                query,
                index,
                dim,
                at_least_one(fewer),
                at_least_one(more),
                buckets1,
                buckets2,
            );
            assert(rows1.contains(id));
            let q = choose|q: int| 0 <= q < buckets1.len() && buckets1[q] == index.assignments[id];
            assert(buckets2[q] == index.assignments[id]);
            assert(rows2.contains(id));
        }
        lemma_outdone(math, v, query, scope, near2, entries2, all2, k, right, id);
        assert forall|j: int| 0 <= j < right.len() implies (#[trigger] right[j]).id != id by {
            assert(!(right[j].id == id));
        }
        lemma_one_more_row(v, right, id);
    }
}

/// A further filter only ever takes hits away: with room for every row, each hit of an exact search
/// is a hit of an exact search that differs in lacking some of the filters.
pub proof fn law_filters_narrow<M: VectorMath>(
    math: M,
    v: DbView,
    query: Seq<u32>,
    k: nat,
    narrow: SearchScope<'_>,
    wide: SearchScope<'_>,
    narrow_hits: Seq<SearchHit>,
    wide_hits: Seq<SearchHit>,
    i: int,
)
    requires
        v.readable(),
        v.listed(true),
        v.listed(false),
        k >= v.row_count(),
        wide.file_paths is None || wide.file_paths == narrow.file_paths,
        wide.file_path_prefix is None || wide.file_path_prefix == narrow.file_path_prefix,
        wide.kinds is None || wide.kinds == narrow.kinds,
        wide.candidate_ids is None || wide.candidate_ids == narrow.candidate_ids,
        narrow.include_staging ==> wide.include_staging,
        found(math, v, query, k, narrow, AnnStrategy::Exact, narrow_hits),
        found(math, v, query, k, wide, AnnStrategy::Exact, wide_hits),
        0 <= i < narrow_hits.len(),
    ensures
        is_hit(wide_hits, narrow_hits[i].id),
{
    let id = narrow_hits[i].id;
    law_every_filter_counts(math, v, query, k, narrow, AnnStrategy::Exact, narrow_hits, i);
    law_hits_are_rows(math, v, query, k, narrow, AnnStrategy::Exact, narrow_hits);
    law_hits_are_rows(math, v, query, k, wide, AnnStrategy::Exact, wide_hits);
    law_exact_search_misses_nothing(math, v, query, k, wide, wide_hits, id);
    if !is_hit(wide_hits, id) {
        assert forall|j: int| 0 <= j < wide_hits.len() implies (#[trigger] wide_hits[j]).id
            != id by {
            assert(!(wide_hits[j].id == id));
        }
        lemma_one_more_row(v, wide_hits, id);
    }
}

/// Asking for more hits changes none of those there were: with the same query and scope, arithmetic
/// that answers alike each time and scores that are numbers, the hits of an exact search are the
/// first hits of one that asks for more.
pub proof fn law_more_hits_follow<M: VectorMath>(
    math: M,
    v: DbView,
    query: Seq<u32>,
    scope: SearchScope<'_>,
    fewer: nat,
    more: nat,
    left: Seq<SearchHit>,
    right: Seq<SearchHit>,
    i: int,
)
    requires
        v.readable(),
        filters_known(v, scope),
        comparable(math, v, query),
        single_valued(math),
        fewer <= more,
        found(math, v, query, fewer, scope, AnnStrategy::Exact, left),
        found(math, v, query, more, scope, AnnStrategy::Exact, right),
        0 <= i < left.len(),
    ensures
        is_hit(right, left[i].id),
{
    let id = left[i].id;
    law_every_filter_counts(math, v, query, fewer, scope, AnnStrategy::Exact, left, i);
    law_hits_are_rows(math, v, query, fewer, scope, AnnStrategy::Exact, left);
    law_hits_are_rows(math, v, query, more, scope, AnnStrategy::Exact, right);
    law_exact_search_misses_nothing(math, v, query, more, scope, right, id);
    if !is_hit(right, id) {
        let row = v.fetched(id)->Ok_0.0;
        let score = choose|score: u32| #[trigger]
            dot_is(math, query, row, score) && forall|j: int|
                0 <= j < right.len() ==> !spec_gt(score, (#[trigger] right[j]).score) && (spec_gt(
                    right[j].score,
                    score,
                ) || right[j].id < id);
        assert(dot_is(math, query, row, left[i].score));
        assert(score == left[i].score);
        // Each of the more hits is better, so each is among the fewer ones, where `id` is, too.
        assert forall|j: int| 0 <= j < right.len() implies is_hit(
            left,
            (#[trigger] right[j]).id,
        ) by {
            let other = right[j].id;
            law_every_filter_counts(math, v, query, more, scope, AnnStrategy::Exact, right, j);
            law_exact_search_misses_nothing(math, v, query, fewer, scope, left, other);
            if !is_hit(left, other) {
                let s = choose|s: u32| #[trigger]
                    dot_is(math, query, v.fetched(other)->Ok_0.0, s) && forall|p: int|
                        0 <= p < left.len() ==> !spec_gt(s, (#[trigger] left[p]).score) && (
                        spec_gt(left[p].score, s) || left[p].id < other);
                assert(dot_is(math, query, v.fetched(other)->Ok_0.0, right[j].score));
                assert(s == right[j].score);
                assert(!spec_gt(s, left[i].score));
                assert(false);
            }
        }
        lemma_no_more_distinct(left, right, id);
    }
}

/// Distinct hits that all are among others, one of which they lack, are fewer than these.
proof fn lemma_no_more_distinct(left: Seq<SearchHit>, right: Seq<SearchHit>, id: VectorId)
    requires
        is_hit(left, id),
        !is_hit(right, id),
        forall|i: int, j: int|
            0 <= i < j < right.len() ==> (#[trigger] right[i]).id != (#[trigger] right[j]).id,
        forall|j: int| 0 <= j < right.len() ==> is_hit(left, (#[trigger] right[j]).id),
    ensures
        right.len() < left.len(),
{
    let a = Seq::new(left.len(), |i: int| left[i].id);
    let b = Seq::new(right.len(), |i: int| right[i].id);
    assert forall|i: int, j: int| 0 <= i < b.len() && 0 <= j < b.len() && i != j implies b[i]
        != b[j] by {
        if i < j {
            assert(right[i].id != right[j].id);
        } else {
            assert(right[j].id != right[i].id);
        }
    }
    b.unique_seq_to_set();
    vstd::seq_lib::seq_to_set_is_finite(a);
    a.lemma_cardinality_of_set();
    let i = choose|i: int| 0 <= i < left.len() && (#[trigger] left[i]).id == id;
    assert(a[i] == id);
    let rest = a.to_set().remove(id);
    assert forall|x: VectorId| b.to_set().contains(x) implies rest.contains(x) by {
        let j = choose|j: int| 0 <= j < b.len() && b[j] == x;
        assert(is_hit(left, right[j].id));
        let p = choose|p: int| 0 <= p < left.len() && (#[trigger] left[p]).id == x;
        assert(a[p] == x);
        if x == id {
            assert(right[j].id == id);
        }
    }
    vstd::set_lib::lemma_len_subset(b.to_set(), rest);
}

/// When a search is refused, and with which error: a query of another width first, then a limit of
/// zero, then a vector file that holds no whole number of words, then a bucketed search without an
/// index, and every graph search. Any other search succeeds.
pub proof fn law_search_refusals<M: VectorMath>(
    math: M,
    v: DbView,
    query: Seq<u32>,
    k: usize,
    scope: SearchScope<'_>,
    strategy: AnnStrategy,
    r: Result<Vec<SearchHit>, DbError>,
)
    requires
        search_outcome(math, v, query, k, scope, strategy, r),
    ensures
        query.len() != v.dim ==> r == Err::<Vec<SearchHit>, DbError>(
            DbError::InvalidQuery { expected: v.dim, got: query.len() as usize },
        ),
        query.len() == v.dim && k == 0 ==> r == Err::<Vec<SearchHit>, DbError>(
            DbError::InvalidSearchLimit,
        ),
        query.len() == v.dim && k > 0 && v.bytes.len() % 4 != 0 ==> r == Err::<
            Vec<SearchHit>,
            DbError,
        >(DbError::InvalidVectorBytes { len: v.bytes.len() as usize }),
        query.len() == v.dim && k > 0 && v.bytes.len() % 4 == 0 ==> match strategy {
            AnnStrategy::Exact => r is Ok,
            AnnStrategy::Ivf { .. } => if v.ivf is Some {
                r is Ok
            } else {
                r == Err::<Vec<SearchHit>, DbError>(DbError::IvfNotBuilt)
            },
            AnnStrategy::Hnsw { .. } => r == Err::<Vec<SearchHit>, DbError>(
                DbError::HnswNotBuilt,
            ),
        },
        r is Ok ==> found(math, v, query, k as nat, scope, strategy, r->Ok_0@),
{
}

} // verus!
