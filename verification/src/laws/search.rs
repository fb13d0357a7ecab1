//! What a search finds.

use vstd::prelude::*;

use super::rows::{law_get, law_rows_are_counted, row_ids};
use crate::bits::spec_is_nan;
use crate::ivf::{dot_is, law_full_probe_finds_all, single_valued, VectorMath};
use crate::postings::{listed, listed_under_any, listed_under_prefix};
use crate::ranking::{
    before, best_first, distinct_ids, is_top, law_numbers_are_orderly, law_top_is_unique,
    lemma_hit_is_candidate, lemma_top_of_few, orderly, passed_over, Scored,
};
use crate::state::{posting_key, staged, DbView};
use crate::storage::search::{
    best_hits, entry_row, found, hit_scores, in_pool, in_scope, is_pool, is_probe, meets, names,
    scorable, scored_entries, SearchHit,
};
use crate::types::{AnnStrategy, ChunkRecord, DbError, SearchScope, VectorId};

verus! {

/// An entry that a search scores is the row that its id stands for.
pub(crate) proof fn lemma_entry_is_row(v: DbView, id: VectorId, staging: bool)
    requires
        v.readable(),
        scorable(v, id, staging),
        !staging ==> staged(v.staging, id) is None || v.records.contains_key(id),
    ensures
        v.fetched(id) == Ok::<(Seq<u32>, ChunkRecord), DbError>(
            (entry_row(v, id, staging)->Some_0, v.record_for(id)->Some_0),
        ),
        staging <==> staged(v.staging, id) is Some,
        !staging ==> v.live().contains(id),
{
    law_get(v, id);
    if !staging {
        assert(v.offsets.dom().contains(id));
    }
}

/// The scored entry behind a hit.
pub(crate) proof fn lemma_hit_entry<M: VectorMath>(
    math: M,
    v: DbView,
    query: Seq<u32>,
    scope: SearchScope<'_>,
    near: Option<Seq<VectorId>>,
    entries: Seq<(VectorId, bool)>,
    all: Seq<Scored>,
    k: nat,
    hits: Seq<SearchHit>,
    i: int,
) -> (p: int)
    requires
        v.readable(),
        is_pool(v, scope, near, entries),
        scored_entries(math, v, query, entries, all),
        best_hits(v, all, k, hits),
        0 <= i < hits.len(),
    ensures
        0 <= p < entries.len(),
        entries[p].0 == hits[i].id,
        all[p] == hit_scores(hits)[i],
        in_pool(v, scope, near, entries[p].0, entries[p].1),
        scorable(v, entries[p].0, entries[p].1),
        dot_is(
            math,
            query,
            entry_row(v, entries[p].0, entries[p].1)->Some_0,
            hits[i].score,
        ),
{
    lemma_hit_is_candidate(hit_scores(hits), all, k, i);
    let p = choose|p: int| 0 <= p < all.len() && all[p] == hit_scores(hits)[i];
    assert(entries.contains(entries[p]));
    p
}

/// Entries of one tier, or of both, with the same id are the same entry.
pub(crate) proof fn lemma_one_tier(
    v: DbView,
    scope: SearchScope<'_>,
    near: Option<Seq<VectorId>>,
    id: VectorId,
    a: bool,
    b: bool,
)
    requires
        v.readable(),
        in_pool(v, scope, near, id, a),
        in_pool(v, scope, near, id, b),
    ensures
        a == b,
        !a ==> staged(v.staging, id) is None || v.records.contains_key(id),
{
    law_get(v, id);
}

/// Posting lists count for a search with filters only.
pub open spec fn filters_known(v: DbView, scope: SearchScope<'_>) -> bool {
    scope.unrestricted() || (v.listed(true) && v.listed(false))
}

/// Every score of the query with a row is a number.
pub open spec fn comparable<M: VectorMath>(math: M, v: DbView, query: Seq<u32>) -> bool {
    forall|id: VectorId, score: u32|
        v.fetched(id) is Ok && #[trigger] dot_is(math, query, v.fetched(id)->Ok_0.0, score)
            ==> !spec_is_nan(score)
}

/// Every hit of a search is a row of the store that the scope admits, with its record and its
/// score: nothing that carries a tombstone, and nothing staged where the scope leaves that tier
/// out. There are at most `k` hits, no row twice, and best first where the scores are numbers.
pub proof fn law_hits_are_rows<M: VectorMath>(
    math: M,
    v: DbView,
    query: Seq<u32>,
    k: nat,
    scope: SearchScope<'_>,
    strategy: AnnStrategy,
    hits: Seq<SearchHit>,
)
    requires
        v.readable(),
        filters_known(v, scope),
        found(math, v, query, k, scope, strategy, hits),
    ensures
        hits.len() <= k,
        comparable(math, v, query) ==> best_first(hit_scores(hits)),
        forall|i: int, j: int|
            0 <= i < j < hits.len() ==> (#[trigger] hits[i]).id != (#[trigger] hits[j]).id,
        forall|i: int|
            #![trigger hits[i]]
            0 <= i < hits.len() ==> {
                &&& v.fetched(hits[i].id) is Ok
                &&& v.fetched(hits[i].id)->Ok_0.1 == hits[i].record
                &&& dot_is(math, query, v.fetched(hits[i].id)->Ok_0.0, hits[i].score)
                &&& meets(scope, hits[i].id, hits[i].record)
                &&& staged(v.staging, hits[i].id) is Some ==> scope.include_staging
            },
{
    let (near, entries, all) = choose|
        near: Option<Seq<VectorId>>,
        entries: Seq<(VectorId, bool)>,
        all: Seq<Scored>,
    |
        #![trigger is_pool(v, scope, near, entries), scored_entries(math, v, query, entries, all)]
        {
            &&& is_probe(math, v, query, strategy, near)
            &&& is_pool(v, scope, near, entries)
            &&& scored_entries(math, v, query, entries, all)
            &&& best_hits(v, all, k, hits)
        };
    assert forall|i: int| #![trigger hits[i]] 0 <= i < hits.len() implies {
        &&& v.fetched(hits[i].id) is Ok
        &&& v.fetched(hits[i].id)->Ok_0.1 == hits[i].record
        &&& dot_is(math, query, v.fetched(hits[i].id)->Ok_0.0, hits[i].score)
        &&& meets(scope, hits[i].id, hits[i].record)
        &&& staged(v.staging, hits[i].id) is Some ==> scope.include_staging
    } by {
        let p = lemma_hit_entry(math, v, query, scope, near, entries, all, k, hits, i);
        lemma_one_tier(v, scope, near, entries[p].0, entries[p].1, entries[p].1);
        lemma_entry_is_row(v, entries[p].0, entries[p].1);
        law_scope_filters_rows(v, scope, hits[i].id);
        assert(v.record_for(hits[i].id) == Some(hits[i].record));
    }
    lemma_entries_distinct(math, v, query, scope, near, entries, all);
    lemma_hits_distinct(all, k, hits);
    if comparable(math, v, query) {
        lemma_orderly(math, v, query, scope, near, entries, all);
    }
}

/// Entries whose scores are numbers rank in an order.
pub(crate) proof fn lemma_orderly<M: VectorMath>(
    math: M,
    v: DbView,
    query: Seq<u32>,
    scope: SearchScope<'_>,
    near: Option<Seq<VectorId>>,
    entries: Seq<(VectorId, bool)>,
    all: Seq<Scored>,
)
    requires
        v.readable(),
        comparable(math, v, query),
        is_pool(v, scope, near, entries),
        scored_entries(math, v, query, entries, all),
    ensures
        orderly(all),
{
    assert forall|i: int| 0 <= i < all.len() implies !spec_is_nan((#[trigger] all[i]).score) by {
        let e = entries[i];
        assert(entries.contains(e));
        lemma_one_tier(v, scope, near, e.0, e.1, e.1);
        lemma_entry_is_row(v, e.0, e.1);
        assert(dot_is(math, query, v.fetched(e.0)->Ok_0.0, all[i].score));
    }
    law_numbers_are_orderly(all);
}

proof fn lemma_entries_distinct<M: VectorMath>(
    math: M,
    v: DbView,
    query: Seq<u32>,
    scope: SearchScope<'_>,
    near: Option<Seq<VectorId>>,
    entries: Seq<(VectorId, bool)>,
    all: Seq<Scored>,
)
    requires
        v.readable(),
        is_pool(v, scope, near, entries),
        scored_entries(math, v, query, entries, all),
    ensures
        distinct_ids(all),
{
    assert forall|i: int, j: int| 0 <= i < j < all.len() implies (#[trigger] all[i]).id != (
    #[trigger] all[j]).id by {
        assert(entries.contains(entries[i]) && entries.contains(entries[j]));
        if entries[i].0 == entries[j].0 {
            lemma_one_tier(v, scope, near, entries[i].0, entries[i].1, entries[j].1);
            assert(entries[i] == entries[j]);
        }
    }
}

/// Hits among candidates with distinct ids have distinct ids.
proof fn lemma_hits_distinct(all: Seq<Scored>, k: nat, hits: Seq<SearchHit>)
    requires
        distinct_ids(all),
        is_top(hit_scores(hits), all, k),
    ensures
        forall|i: int, j: int|
            0 <= i < j < hits.len() ==> (#[trigger] hits[i]).id != (#[trigger] hits[j]).id,
{
    broadcast use vstd::seq_lib::group_to_multiset_ensures;

    let scores = hit_scores(hits);
    assert forall|i: int, j: int| 0 <= i < all.len() && 0 <= j < all.len() && i != j implies all[i]
        != all[j] by {
        if i < j {
            assert(all[i].id != all[j].id);
        } else {
            assert(all[j].id != all[i].id);
        }
    }
    all.lemma_multiset_has_no_duplicates();
    assert forall|x: Scored| scores.to_multiset().contains(x) implies scores.to_multiset().count(x)
        == 1 by {
        assert(scores.to_multiset().count(x) <= all.to_multiset().count(x));
        assert(all.to_multiset().contains(x));
    }
    scores.lemma_multiset_has_no_duplicates_conv();
    assert forall|i: int, j: int| 0 <= i < j < hits.len() implies (#[trigger] hits[i]).id != (
    #[trigger] hits[j]).id by {
        lemma_hit_is_candidate(scores, all, k, i);
        lemma_hit_is_candidate(scores, all, k, j);
        let p = choose|p: int| 0 <= p < all.len() && all[p] == scores[i];
        let q = choose|q: int| 0 <= q < all.len() && all[q] == scores[j];
        assert(scores[i] != scores[j]);
        if p < q {
            assert(all[p].id != all[q].id);
        } else if q < p {
            assert(all[q].id != all[p].id);
        }
    }
}

/// An exact search misses nothing: every row of either tier that meets the filters of the scope,
/// staged ones as far as the scope has them, is a hit or, the scores being numbers, has a score
/// that ranks before no hit, and there are fewer than `k` hits only where there are fewer such
/// rows.
pub proof fn law_exact_search_finds_the_best<M: VectorMath>(
    math: M,
    v: DbView,
    query: Seq<u32>,
    k: nat,
    scope: SearchScope<'_>,
    hits: Seq<SearchHit>,
)
    requires
        v.readable(),
        filters_known(v, scope),
        found(math, v, query, k, scope, AnnStrategy::Exact, hits),
    ensures
        forall|id: VectorId| #[trigger]
            wanted(v, scope, id) && (forall|i: int| 0 <= i < hits.len() ==> hits[i].id != id)
                ==> hits.len() == k && (comparable(math, v, query) ==> passed_by(
                math,
                v,
                query,
                hits,
                id,
            )),
{
    let (near, entries, all) = choose|
        near: Option<Seq<VectorId>>,
        entries: Seq<(VectorId, bool)>,
        all: Seq<Scored>,
    |
        #![trigger is_pool(v, scope, near, entries), scored_entries(math, v, query, entries, all)]
        {
            &&& is_probe(math, v, query, AnnStrategy::Exact, near)
            &&& is_pool(v, scope, near, entries)
            &&& scored_entries(math, v, query, entries, all)
            &&& best_hits(v, all, k, hits)
        };
    assert forall|id: VectorId| #[trigger]
        wanted(v, scope, id) && (forall|i: int| 0 <= i < hits.len() ==> hits[i].id
            != id) implies hits.len() == k && (comparable(math, v, query) ==> passed_by(
        math,
        v,
        query,
        hits,
        id,
    )) by {
        let e = (id, staged(v.staging, id) is Some);
        law_scope_admits_rows(v, scope, id);
        assert(in_pool(v, scope, near, e.0, e.1));
        assert(scorable(v, e.0, e.1));
        assert(entries.contains(e));
        let p = choose|p: int| 0 <= p < entries.len() && entries[p] == e;
        lemma_one_tier(v, scope, near, e.0, e.1, e.1);
        lemma_entry_is_row(v, e.0, e.1);
        lemma_left_out(all, k, hits, p);
        if comparable(math, v, query) {
            lemma_orderly(math, v, query, scope, near, entries, all);
        }
        assert(all[p].id == id);
        assert(dot_is(math, query, v.fetched(id)->Ok_0.0, all[p].score));
    }
}

/// The id stands for a row that meets the filters of the scope, in a tier that the scope has.
pub open spec fn wanted(v: DbView, scope: SearchScope<'_>, id: VectorId) -> bool {
    &&& v.fetched(id) is Ok
    &&& meets(scope, id, v.fetched(id)->Ok_0.1)
    &&& staged(v.staging, id) is Some ==> scope.include_staging
}

/// The row of `id` has a score that ranks before no hit.
pub open spec fn passed_by<M: VectorMath>(
    math: M,
    v: DbView,
    query: Seq<u32>,
    hits: Seq<SearchHit>,
    id: VectorId,
) -> bool {
    exists|score: u32| #[trigger]
        dot_is(math, query, v.fetched(id)->Ok_0.0, score) && forall|i: int|
            0 <= i < hits.len() ==> !before(
                Scored { id: id as u64, score },
                #[trigger] hit_scores(hits)[i],
            )
}

/// A candidate whose id is the id of no hit.
pub(crate) proof fn lemma_left_out(all: Seq<Scored>, k: nat, hits: Seq<SearchHit>, p: int)
    requires
        is_top(hit_scores(hits), all, k),
        0 <= p < all.len(),
        forall|i: int| 0 <= i < hits.len() ==> hits[i].id != all[p].id,
    ensures
        hits.len() == k,
        orderly(all) ==> forall|i: int|
            0 <= i < hits.len() ==> !before(all[p], #[trigger] hit_scores(hits)[i]),
{
    broadcast use vstd::seq_lib::group_to_multiset_ensures;

    let scores = hit_scores(hits);
    assert(all.contains(all[p]));
    assert(!scores.contains(all[p])) by {
        if scores.contains(all[p]) {
            let i = choose|i: int| 0 <= i < scores.len() && scores[i] == all[p];
            assert(hits[i].id != all[p].id);
        }
    }
    assert(scores.to_multiset().count(all[p]) == 0);
    assert(all.to_multiset().count(all[p]) > 0);
    assert(passed_over(scores, all, all[p]));
    if all.len() <= k {
        lemma_top_of_few(scores, all, k);
    }
}

/// What a scope means: a row of either tier that it admits belongs to one of the given files, has
/// the given prefix, is of one of the given kinds and is one of the given ids, as far as these are
/// given.
pub proof fn law_scope_filters_rows(v: DbView, scope: SearchScope<'_>, id: VectorId)
    requires
        v.readable(),
        filters_known(v, scope),
        in_scope(v, scope, id),
        v.fetched(id) is Ok,
    ensures
        meets(scope, id, v.fetched(id)->Ok_0.1),
{
    law_get(v, id);
    if !scope.unrestricted() && staged(v.staging, id) is None {
        let record = v.records[id];
        if let Some(paths) = scope.file_paths {
            assert(listed_under_any(v.postings.by_file, paths@, id));
            let i = choose|i: int|
                0 <= i < paths@.len() && listed(v.postings.by_file, (#[trigger] paths@[i])@, id);
            assert(posting_key(record, true) == paths@[i]@);
            assert(names(paths@, record.file_path@));
        }
        if let Some(prefix) = scope.file_path_prefix {
            assert(listed_under_prefix(v.postings.by_file, prefix@, id));
            let key = choose|key: Seq<char>|
                prefix@.is_prefix_of(key) && #[trigger] listed(v.postings.by_file, key, id);
            assert(posting_key(record, true) == key);
        }
        if let Some(kinds) = scope.kinds {
            assert(listed_under_any(v.postings.by_kind, kinds@, id));
            let i = choose|i: int|
                0 <= i < kinds@.len() && listed(v.postings.by_kind, (#[trigger] kinds@[i])@, id);
            assert(posting_key(record, false) == kinds@[i]@);
            assert(names(kinds@, record.kind@));
        }
    }
}

/// A row of either tier that meets every given filter is in the scope.
pub proof fn law_scope_admits_rows(v: DbView, scope: SearchScope<'_>, id: VectorId)
    requires
        v.readable(),
        filters_known(v, scope),
        v.fetched(id) is Ok,
        meets(scope, id, v.fetched(id)->Ok_0.1),
    ensures
        in_scope(v, scope, id),
{
    law_get(v, id);
    if !scope.unrestricted() && staged(v.staging, id) is None {
        let record = v.records[id];
        assert(posting_key(record, true) == record.file_path@);
        assert(posting_key(record, false) == record.kind@);
        assert(listed(v.postings.by_file, record.file_path@, id));
        assert(listed(v.postings.by_kind, record.kind@, id));
        if let Some(paths) = scope.file_paths {
            let i = choose|i: int|
                0 <= i < paths@.len() && (#[trigger] paths@[i])@ == record.file_path@;
            assert(listed(v.postings.by_file, paths@[i]@, id));
            assert(listed_under_any(v.postings.by_file, paths@, id));
        }
        if let Some(prefix) = scope.file_path_prefix {
            assert(listed_under_prefix(v.postings.by_file, prefix@, id));
        }
        if let Some(kinds) = scope.kinds {
            let i = choose|i: int| 0 <= i < kinds@.len() && (#[trigger] kinds@[i])@ == record.kind@;
            assert(listed(v.postings.by_kind, kinds@[i]@, id));
            assert(listed_under_any(v.postings.by_kind, kinds@, id));
        }
    }
}

/// A bucketed search that probes every bucket finds what an exact search finds, where every live
/// row has a bucket.
pub proof fn law_full_probe_is_exact<M: VectorMath>(
    math: M,
    v: DbView,
    query: Seq<u32>,
    k: nat,
    scope: SearchScope<'_>,
    probe_buckets: usize,
    hits: Seq<SearchHit>,
)
    requires
        v.readable(),
        v.index_total(),
        v.ivf matches Some(index) && probe_buckets >= index.num_buckets,
        found(math, v, query, k, scope, AnnStrategy::Ivf { probe_buckets }, hits),
    ensures
        found(math, v, query, k, scope, AnnStrategy::Exact, hits),
{
    let strategy = AnnStrategy::Ivf { probe_buckets };
    let (near, entries, all) = choose|
        near: Option<Seq<VectorId>>,
        entries: Seq<(VectorId, bool)>,
        all: Seq<Scored>,
    |
        #![trigger is_pool(v, scope, near, entries), scored_entries(math, v, query, entries, all)]
        {
            &&& is_probe(math, v, query, strategy, near)
            &&& is_pool(v, scope, near, entries)
            &&& scored_entries(math, v, query, entries, all)
            &&& best_hits(v, all, k, hits)
        };
    let index = v.ivf->Some_0;
    law_full_probe_finds_all(
        math,
        query,
        index,
        v.dim as nat,
        if probe_buckets == 0 {
            1
        } else {
            probe_buckets as nat
        },
        v.tombstones,
        near->Some_0,
    );
    assert forall|e: (VectorId, bool)| #[trigger]
        entries.contains(e) <==> in_pool(v, scope, None, e.0, e.1) && scorable(v, e.0, e.1) by {
        let id = e.0;
        law_get(v, id);
        if v.live().contains(id) {
            assert(near->Some_0.contains(id));
        }
        if scorable(v, e.0, e.1) && !e.1 && staged(v.staging, id) is None {
            assert(v.records.contains_key(id));
            assert(v.live().contains(id));
        }
    }
    assert(is_pool(v, scope, None, entries));
    assert(is_probe(math, v, query, AnnStrategy::Exact, None));
}

/// An exact search has one result: with the same arithmetic, the same query and the same store
/// the hits are the same, in the same order, however the store walks its rows, as long as the
/// scores are numbers.
pub proof fn law_exact_search_is_deterministic<M: VectorMath>(
    math: M,
    v: DbView,
    query: Seq<u32>,
    k: nat,
    scope: SearchScope<'_>,
    left: Seq<SearchHit>,
    right: Seq<SearchHit>,
)
    requires
        v.readable(),
        single_valued(math),
        comparable(math, v, query),
        found(math, v, query, k, scope, AnnStrategy::Exact, left),
        found(math, v, query, k, scope, AnnStrategy::Exact, right),
    ensures
        left =~= right,
{
    let (near1, entries1, all1) = choose|
        near: Option<Seq<VectorId>>,
        entries: Seq<(VectorId, bool)>,
        all: Seq<Scored>,
    |
        #![trigger is_pool(v, scope, near, entries), scored_entries(math, v, query, entries, all)]
        {
            &&& is_probe(math, v, query, AnnStrategy::Exact, near)
            &&& is_pool(v, scope, near, entries)
            &&& scored_entries(math, v, query, entries, all)
            &&& best_hits(v, all, k, left)
        };
    let (near2, entries2, all2) = choose|
        near: Option<Seq<VectorId>>,
        entries: Seq<(VectorId, bool)>,
        all: Seq<Scored>,
    |
        #![trigger is_pool(v, scope, near, entries), scored_entries(math, v, query, entries, all)]
        {
            &&& is_probe(math, v, query, AnnStrategy::Exact, near)
            &&& is_pool(v, scope, near, entries)
            &&& scored_entries(math, v, query, entries, all)
            &&& best_hits(v, all, k, right)
        };
    lemma_entries_distinct(math, v, query, scope, near1, entries1, all1);
    lemma_entries_distinct(math, v, query, scope, near2, entries2, all2);
    assert forall|x: Scored| all1.contains(x) implies all2.contains(x) by {
        lemma_same_score(math, v, query, scope, near1, entries1, all1, entries2, all2, x);
    }
    assert forall|x: Scored| all2.contains(x) implies all1.contains(x) by {
        lemma_same_score(math, v, query, scope, near1, entries2, all2, entries1, all1, x);
    }
    lemma_same_multiset(all1, all2);
    lemma_orderly(math, v, query, scope, near1, entries1, all1);
    lemma_orderly(math, v, query, scope, near2, entries2, all2);
    assert(is_top(hit_scores(right), all1, k)) by {
        assert forall|x: Scored, i: int|
            #![trigger passed_over(hit_scores(right), all1, x), hit_scores(right)[i]]
            passed_over(hit_scores(right), all1, x) && 0 <= i < hit_scores(
                right,
            ).len() implies !before(x, hit_scores(right)[i]) by {
            assert(passed_over(hit_scores(right), all2, x));
        }
        lemma_same_len(all1, all2);
    }
    law_top_is_unique(hit_scores(left), hit_scores(right), all1, k);
    assert(left.len() == hit_scores(left).len() && right.len() == hit_scores(right).len());
    assert forall|i: int| 0 <= i < left.len() implies left[i] == right[i] by {
        assert(hit_scores(left)[i] == hit_scores(right)[i]);
        assert(v.record_for(left[i].id) == Some(left[i].record));
        assert(v.record_for(right[i].id) == Some(right[i].record));
    }
}

/// A bucketed search that probes every bucket and an exact search have the same hits, with the
/// same scores and records, in the same order, where every live row has a bucket and the scores
/// are numbers.
pub proof fn law_full_probe_has_the_exact_hits<M: VectorMath>(
    math: M,
    v: DbView,
    query: Seq<u32>,
    k: nat,
    scope: SearchScope<'_>,
    probe_buckets: usize,
    probed_hits: Seq<SearchHit>,
    exact_hits: Seq<SearchHit>,
)
    requires
        v.readable(),
        v.index_total(),
        single_valued(math),
        comparable(math, v, query),
        v.ivf matches Some(index) && probe_buckets >= index.num_buckets,
        found(math, v, query, k, scope, AnnStrategy::Ivf { probe_buckets }, probed_hits),
        found(math, v, query, k, scope, AnnStrategy::Exact, exact_hits),
    ensures
        probed_hits == exact_hits,
{
    law_full_probe_is_exact(math, v, query, k, scope, probe_buckets, probed_hits);
    law_exact_search_is_deterministic(math, v, query, k, scope, probed_hits, exact_hits);
}

/// With room for every row, a bucketed search finds nothing that an exact search does not find,
/// however few buckets it probes: each of its hits is a hit of the exact search, with the same
/// record and, the arithmetic being the same, the same score.
pub proof fn law_probe_finds_exact_hits_only<M: VectorMath>(
    math: M,
    v: DbView,
    query: Seq<u32>,
    k: nat,
    scope: SearchScope<'_>,
    probe_buckets: usize,
    probed_hits: Seq<SearchHit>,
    exact_hits: Seq<SearchHit>,
)
    requires
        v.readable(),
        filters_known(v, scope),
        k >= v.row_count(),
        found(math, v, query, k, scope, AnnStrategy::Ivf { probe_buckets }, probed_hits),
        found(math, v, query, k, scope, AnnStrategy::Exact, exact_hits),
    ensures
        forall|i: int|
            #![trigger probed_hits[i]]
            0 <= i < probed_hits.len() ==> exists|j: int|
                #![trigger exact_hits[j]]
                0 <= j < exact_hits.len() && exact_hits[j].id == probed_hits[i].id
                    && exact_hits[j].record == probed_hits[i].record && (single_valued(math)
                    ==> exact_hits[j] == probed_hits[i]),
{
    let strategy = AnnStrategy::Ivf { probe_buckets };
    law_hits_are_rows(math, v, query, k, scope, strategy, probed_hits);
    law_hits_are_rows(math, v, query, k, scope, AnnStrategy::Exact, exact_hits);
    law_exact_search_finds_the_best(math, v, query, k, scope, exact_hits);
    assert forall|i: int| #![trigger probed_hits[i]] 0 <= i < probed_hits.len() implies exists|
        j: int,
    |
        #![trigger exact_hits[j]]
        0 <= j < exact_hits.len() && exact_hits[j].id == probed_hits[i].id && exact_hits[j].record
            == probed_hits[i].record && (single_valued(math) ==> exact_hits[j]
            == probed_hits[i]) by {
        let id = probed_hits[i].id;
        assert(wanted(v, scope, id));
        if forall|j: int| 0 <= j < exact_hits.len() ==> exact_hits[j].id != id {
            lemma_one_more_row(v, exact_hits, id);
        }
        let j = choose|j: int| 0 <= j < exact_hits.len() && exact_hits[j].id == id;
        assert(exact_hits[j].record == probed_hits[i].record);
        let row = v.fetched(id)->Ok_0.0;
        assert(dot_is(math, query, row, probed_hits[i].score));
        assert(dot_is(math, query, row, exact_hits[j].score));
    }
}

/// Hits that are rows, with a row besides them, are fewer than the rows.
pub(crate) proof fn lemma_one_more_row(v: DbView, hits: Seq<SearchHit>, id: VectorId)
    requires
        v.readable(),
        v.fetched(id) is Ok,
        forall|i: int| 0 <= i < hits.len() ==> (#[trigger] hits[i]).id != id,
        forall|i: int| 0 <= i < hits.len() ==> v.fetched((#[trigger] hits[i]).id) is Ok,
        forall|i: int, j: int|
            0 <= i < j < hits.len() ==> (#[trigger] hits[i]).id != (#[trigger] hits[j]).id,
    ensures
        hits.len() < v.row_count(),
{
    let ids = Seq::new(hits.len(), |i: int| hits[i].id);
    assert forall|i: int, j: int| 0 <= i < ids.len() && 0 <= j < ids.len() && i != j implies ids[i]
        != ids[j] by {
        if i < j {
            assert(hits[i].id != hits[j].id);
        } else {
            assert(hits[j].id != hits[i].id);
        }
    }
    ids.unique_seq_to_set();
    law_rows_are_counted(v);
    let others = row_ids(v).remove(id);
    assert forall|x: VectorId| ids.to_set().contains(x) implies others.contains(x) by {
        let i = choose|i: int| 0 <= i < ids.len() && ids[i] == x;
        assert(hits[i].id == x);
    }
    vstd::set_lib::lemma_len_subset(ids.to_set(), others);
}

proof fn lemma_same_len(a: Seq<Scored>, b: Seq<Scored>)
    requires
        a.to_multiset() == b.to_multiset(),
    ensures
        a.len() == b.len(),
{
    broadcast use vstd::seq_lib::group_to_multiset_ensures;

    assert(a.to_multiset().len() == a.len());
    assert(b.to_multiset().len() == b.len());
}

proof fn lemma_same_score<M: VectorMath>(
    math: M,
    v: DbView,
    query: Seq<u32>,
    scope: SearchScope<'_>,
    near: Option<Seq<VectorId>>,
    entries1: Seq<(VectorId, bool)>,
    all1: Seq<Scored>,
    entries2: Seq<(VectorId, bool)>,
    all2: Seq<Scored>,
    x: Scored,
)
    requires
        single_valued(math),
        is_pool(v, scope, near, entries1),
        is_pool(v, scope, near, entries2),
        scored_entries(math, v, query, entries1, all1),
        scored_entries(math, v, query, entries2, all2),
        all1.contains(x),
    ensures
        all2.contains(x),
{
    let p = choose|p: int| 0 <= p < all1.len() && all1[p] == x;
    let e = entries1[p];
    assert(entries1.contains(e));
    assert(entries2.contains(e));
    let q = choose|q: int| 0 <= q < entries2.len() && entries2[q] == e;
    let row = entry_row(v, e.0, e.1)->Some_0;
    assert(dot_is(math, query, row, all1[p].score));
    assert(dot_is(math, query, row, all2[q].score));
    assert(all2[q] == x);
}

proof fn lemma_same_multiset(a: Seq<Scored>, b: Seq<Scored>)
    requires
        distinct_ids(a),
        distinct_ids(b),
        forall|x: Scored| a.contains(x) ==> b.contains(x),
        forall|x: Scored| b.contains(x) ==> a.contains(x),
    ensures
        a.to_multiset() == b.to_multiset(),
{
    broadcast use vstd::seq_lib::group_to_multiset_ensures;

    lemma_distinct_no_duplicates(a);
    lemma_distinct_no_duplicates(b);
    a.lemma_multiset_has_no_duplicates();
    b.lemma_multiset_has_no_duplicates();
    assert forall|x: Scored| a.to_multiset().count(x) == b.to_multiset().count(x) by {
        assert(a.contains(x) <==> a.to_multiset().count(x) > 0);
        assert(b.contains(x) <==> b.to_multiset().count(x) > 0);
    }
    assert(a.to_multiset() =~= b.to_multiset());
}

proof fn lemma_distinct_no_duplicates(a: Seq<Scored>)
    requires
        distinct_ids(a),
    ensures
        a.no_duplicates(),
{
    assert forall|i: int, j: int| 0 <= i < a.len() && 0 <= j < a.len() && i != j implies a[i]
        != a[j] by {
        if i < j {
            assert(a[i].id != a[j].id);
        } else {
            assert(a[j].id != a[i].id);
        }
    }
}

} // verus!
