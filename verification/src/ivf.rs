//! The bucketed index: a flat table of centroids and a bucket for every row.

use std::collections::{HashMap, HashSet};

use vstd::prelude::*;
use vstd::slice::slice_subrange;

use crate::bits::{bits_gt, spec_gt, spec_is_nan, NEG_INFINITY};
use crate::ids::{lemma_push_has, lists_set, map_ids};
use crate::types::{DbError, VectorId, DEFAULT_IVF_BUCKETS, DEFAULT_IVF_PROBE};
use crate::words::{
    bytes_from_words, bytes_of, law_words_of_bytes_of, read_words, words_of, ByteOrder,
};

verus! {

broadcast use vstd::std_specs::hash::group_hash_axioms;

/// The arithmetic on single-precision numbers that the store leaves to its user. Arguments and
/// results are bit patterns. Nothing is assumed of what an implementation returns.
pub trait VectorMath {
    /// The dot product of two rows.
    fn dot(&self, a: &[u32], b: &[u32]) -> u32;

    /// The mean of a non-empty list of components.
    fn mean(&self, values: &[u32]) -> u32;

    /// `dead` divided by `allocated`, which is not zero.
    fn ratio(&self, dead: usize, allocated: usize) -> u32;
}

/// `math` gives `score` as the dot product of the two rows.
pub open spec fn dot_is<M: VectorMath>(math: M, a: Seq<u32>, b: Seq<u32>, score: u32) -> bool {
    exists|x: &[u32], y: &[u32]|
        x@ == a && y@ == b && #[trigger] call_ensures(M::dot, (&math, x, y), score)
}

/// `math` gives `mean` as the mean of the components.
pub open spec fn mean_is<M: VectorMath>(math: M, values: Seq<u32>, mean: u32) -> bool {
    exists|x: &[u32]| x@ == values && #[trigger] call_ensures(M::mean, (&math, x), mean)
}

/// `math` gives `ratio` as the quotient of the two counts.
pub open spec fn ratio_is<M: VectorMath>(
    math: M,
    dead: usize,
    allocated: usize,
    ratio: u32,
) -> bool {
    call_ensures(M::ratio, (&math, dead, allocated), ratio)
}

pub(crate) fn dot_product<M: VectorMath>(math: &M, a: &[u32], b: &[u32]) -> (r: u32)
    ensures
        dot_is(*math, a@, b@, r),
{
    math.dot(a, b)
}

fn mean<M: VectorMath>(math: &M, values: &Vec<u32>) -> (r: u32)
    ensures
        mean_is(*math, values@, r),
{
    math.mean(values.as_slice())
}

/// What the arithmetic is asked: a score is its answer to the two rows, a mean its answer to the
/// list of components, and a share its answer to the number of dead ids and the number of all ids,
/// in this order.
pub proof fn law_arithmetic_is_asked<M: VectorMath>(
    math: M,
    a: Seq<u32>,
    b: Seq<u32>,
    dead: usize,
    allocated: usize,
    value: u32,
)
    ensures
        dot_is(math, a, b, value) <==> exists|x: &[u32], y: &[u32]|
            x@ == a && y@ == b && #[trigger] call_ensures(M::dot, (&math, x, y), value),
        mean_is(math, a, value) <==> exists|x: &[u32]|
            x@ == a && #[trigger] call_ensures(M::mean, (&math, x), value),
        ratio_is(math, dead, allocated, value) <==> call_ensures(
            M::ratio,
            (&math, dead, allocated),
            value,
        ),
{
}

/// The bucketed index.
#[derive(Debug)]
pub struct IvfIndex {
    pub num_buckets: usize,
    pub probe_buckets: usize,
    pub assignments: HashMap<VectorId, usize>,
    pub centroids: Vec<u32>,
}

/// What a bucketed index says.
#[verifier::ext_equal]
pub struct IvfView {
    pub num_buckets: usize,
    pub probe_buckets: usize,
    pub assignments: Map<VectorId, usize>,
    pub centroids: Seq<u32>,
}

impl View for IvfIndex {
    type V = IvfView;

    open spec fn view(&self) -> IvfView {
        IvfView {
            num_buckets: self.num_buckets,
            probe_buckets: self.probe_buckets,
            assignments: self.assignments@,
            centroids: self.centroids@,
        }
    }
}

/// The centroid of bucket `b`.
pub open spec fn centroid(centroids: Seq<u32>, dim: nat, b: int) -> Seq<u32> {
    centroids.subrange(b * dim, b * dim + dim)
}

/// One score per bucket: the dot product of the row with the centroid of the bucket.
pub open spec fn bucket_scores<M: VectorMath>(
    math: M,
    row: Seq<u32>,
    centroids: Seq<u32>,
    dim: nat,
    num_buckets: nat,
    scores: Seq<u32>,
) -> bool {
    scores.len() == num_buckets && forall|b: int|
        0 <= b < num_buckets ==> dot_is(
            math,
            row,
            #[trigger] centroid(centroids, dim, b),
            scores[b],
        )
}

/// There is one score for each bucket, that of the row with the part of the table that starts at
/// the number of the bucket times the width.
pub proof fn law_bucket_scores<M: VectorMath>(
    math: M,
    row: Seq<u32>,
    centroids: Seq<u32>,
    dim: nat,
    num_buckets: nat,
    scores: Seq<u32>,
    b: int,
)
    requires
        bucket_scores(math, row, centroids, dim, num_buckets, scores),
    ensures
        scores.len() == num_buckets,
        0 <= b < num_buckets ==> dot_is(
            math,
            row,
            centroids.subrange(b * dim, b * dim + dim),
            scores[b],
        ),
{
    if 0 <= b < num_buckets {
        assert(dot_is(math, row, centroid(centroids, dim, b), scores[b]));
    }
}

pub(crate) proof fn lemma_bucket_range(b: int, num_buckets: int, dim: int)
    requires
        0 <= b < num_buckets,
        0 <= dim,
    ensures
        0 <= b * dim,
        b * dim + dim == (b + 1) * dim,
        b * dim + dim <= num_buckets * dim,
{
    assert(b * dim + dim == (b + 1) * dim) by (nonlinear_arith);
    assert((b + 1) * dim <= num_buckets * dim) by (nonlinear_arith)
        requires
            b + 1 <= num_buckets,
            0 <= dim,
    ;
    assert(0 <= b * dim) by (nonlinear_arith)
        requires
            0 <= b,
            0 <= dim,
    ;
}

fn score_buckets<M: VectorMath>(
    math: &M,
    row: &[u32],
    centroids: &Vec<u32>,
    dim: usize,
    num_buckets: usize,
) -> (r: Vec<u32>)
    requires
        num_buckets * dim <= centroids@.len(),
    ensures
        bucket_scores(*math, row@, centroids@, dim as nat, num_buckets as nat, r@),
{
    let mut scores: Vec<u32> = Vec::new();
    let total: usize = centroids.len();
    let mut b: usize = 0;
    while b < num_buckets
        invariant
            b <= num_buckets,
            total == centroids@.len(),
            num_buckets * dim <= total,
            scores@.len() == b,
            forall|i: int|
                0 <= i < b ==> dot_is(
                    *math,
                    row@,
                    #[trigger] centroid(centroids@, dim as nat, i),
                    scores@[i],
                ),
        decreases num_buckets - b,
    {
        proof {
            lemma_bucket_range(b as int, num_buckets as int, dim as int);
        }
        let start: usize = b * dim;
        let part = slice_subrange(centroids.as_slice(), start, start + dim);
        let score: u32 = dot_product(math, row, part);
        scores.push(score);
        b = b + 1;
    }
    scores
}

/// The place of a bucket among ranked ones: behind the last of them that it does not outscore.
pub open spec fn bucket_place(ranked: Seq<usize>, scores: Seq<u32>, b: int) -> int
    decreases ranked.len(),
{
    if ranked.len() == 0 || !spec_gt(scores[b], scores[ranked.last() as int]) {
        ranked.len() as int
    } else {
        bucket_place(ranked.drop_last(), scores, b)
    }
}

/// The first `n` buckets, ranked by their scores; a tie goes to the smaller bucket. What is not a
/// number neither outscores anything nor is outscored, so such a bucket keeps its place.
pub open spec fn ranked(scores: Seq<u32>, n: nat) -> Seq<usize>
    decreases n,
{
    if n == 0 {
        Seq::empty()
    } else {
        let fewer = ranked(scores, (n - 1) as nat);
        fewer.insert(bucket_place(fewer, scores, n - 1), (n - 1) as usize)
    }
}

/// `buckets` are the `n` buckets with the best scores, best first.
pub open spec fn best_buckets(buckets: Seq<usize>, scores: Seq<u32>, n: nat) -> bool {
    buckets == ranked(scores, scores.len()).take(
        if n <= scores.len() {
            n as int
        } else {
            scores.len() as int
        },
    )
}

proof fn lemma_bucket_place(ranked: Seq<usize>, scores: Seq<u32>, b: int)
    ensures
        0 <= bucket_place(ranked, scores, b) <= ranked.len(),
        bucket_place(ranked, scores, b) > 0 ==> !spec_gt(
            scores[b],
            scores[ranked[bucket_place(ranked, scores, b) - 1] as int],
        ),
        forall|i: int|
            bucket_place(ranked, scores, b) <= i < ranked.len() ==> spec_gt(
                scores[b],
                scores[#[trigger] ranked[i] as int],
            ),
    decreases ranked.len(),
{
    if ranked.len() > 0 && spec_gt(scores[b], scores[ranked.last() as int]) {
        let fewer = ranked.drop_last();
        lemma_bucket_place(fewer, scores, b);
        assert forall|i: int|
            bucket_place(ranked, scores, b) <= i < ranked.len() implies spec_gt(
            scores[b],
            scores[#[trigger] ranked[i] as int],
        ) by {
            if i < fewer.len() {
                assert(fewer[i] == ranked[i]);
            }
        }
    }
}

/// A ranking names every bucket once.
pub proof fn law_ranking_names_every_bucket(scores: Seq<u32>, n: nat)
    requires
        n <= usize::MAX,
    ensures
        ranked(scores, n).len() == n,
        forall|i: int| 0 <= i < n ==> (#[trigger] ranked(scores, n)[i]) < n,
        forall|b: usize| b < n ==> #[trigger] ranked(scores, n).contains(b),
        ranked(scores, n).no_duplicates(),
    decreases n,
{
    if n > 0 {
        let m = (n - 1) as nat;
        let fewer = ranked(scores, m);
        let all = ranked(scores, n);
        law_ranking_names_every_bucket(scores, m);
        lemma_bucket_place(fewer, scores, m as int);
        let at = bucket_place(fewer, scores, m as int);
        assert forall|b: usize| b < n implies #[trigger] all.contains(b) by {
            if b < m {
                assert(fewer.contains(b));
                let i = choose|i: int| 0 <= i < fewer.len() && fewer[i] == b;
                assert(all[if i < at {
                    i
                } else {
                    i + 1
                }] == b);
            } else {
                assert(all[at] == b);
            }
        }
        assert forall|i: int, j: int| 0 <= i < n && 0 <= j < n && i != j implies all[i]
            != all[j] by {
            let p = if i < at {
                i
            } else {
                i - 1
            };
            let q = if j < at {
                j
            } else {
                j - 1
            };
            if i != at {
                assert(all[i] == fewer[p] && fewer[p] < m);
            }
            if j != at {
                assert(all[j] == fewer[q] && fewer[q] < m);
            }
        }
        assert forall|i: int| 0 <= i < n implies (#[trigger] all[i]) < n by {
            if i < at {
                assert(all[i] == fewer[i]);
            } else if i > at {
                assert(all[i] == fewer[i - 1]);
            }
        }
    }
}

/// Scores that are numbers stand in a ranking from the greatest to the smallest, and equal ones by
/// their buckets.
pub proof fn law_ranking_is_best_first(scores: Seq<u32>, n: nat)
    requires
        n <= scores.len(),
        n <= usize::MAX,
        forall|i: int| 0 <= i < n ==> !spec_is_nan(#[trigger] scores[i]),
    ensures
        forall|i: int, j: int|
            0 <= i < j < n ==> {
                let a = #[trigger] ranked(scores, n)[i];
                let b = #[trigger] ranked(scores, n)[j];
                spec_gt(scores[a as int], scores[b as int]) || (!spec_gt(
                    scores[b as int],
                    scores[a as int],
                ) && a < b)
            },
    decreases n,
{
    if n > 0 {
        let m = (n - 1) as nat;
        let fewer = ranked(scores, m);
        let all = ranked(scores, n);
        law_ranking_names_every_bucket(scores, m);
        law_ranking_names_every_bucket(scores, n);
        law_ranking_is_best_first(scores, m);
        lemma_bucket_place(fewer, scores, m as int);
        let at = bucket_place(fewer, scores, m as int);
        assert forall|i: int, j: int| 0 <= i < j < n implies {
            let a = #[trigger] all[i];
            let b = #[trigger] all[j];
            spec_gt(scores[a as int], scores[b as int]) || (!spec_gt(
                scores[b as int],
                scores[a as int],
            ) && a < b)
        } by {
            if i == at {
                assert(all[j] == fewer[j - 1]);
            } else if j == at {
                assert(all[i] == fewer[i] && fewer[i] < m);
                if i < at - 1 {
                    assert(fewer[at - 1] < m);
                }
            } else {
                let p = if i < at {
                    i
                } else {
                    i - 1
                };
                let q = if j < at {
                    j
                } else {
                    j - 1
                };
                assert(all[i] == fewer[p] && all[j] == fewer[q]);
            }
        }
    }
}

/// Where no bucket outscores another, whether all scores are equal or none is a number, buckets keep
/// their order.
pub proof fn law_ties_keep_the_order_of_buckets(scores: Seq<u32>, n: nat)
    requires
        n <= scores.len(),
        n <= usize::MAX,
        forall|i: int, j: int|
            0 <= i < n && 0 <= j < n ==> !spec_gt(#[trigger] scores[i], #[trigger] scores[j]),
    ensures
        ranked(scores, n).len() == n,
        forall|i: int| 0 <= i < n ==> #[trigger] ranked(scores, n)[i] == i,
    decreases n,
{
    if n > 0 {
        let m = (n - 1) as nat;
        law_ties_keep_the_order_of_buckets(scores, m);
        let fewer = ranked(scores, m);
        if m > 0 {
            assert(fewer[m - 1] == m - 1);
            assert(!spec_gt(scores[n - 1], scores[m - 1]));
        }
    }
}

/// Ranks buckets by their scores.
pub fn rank_buckets(scores: &Vec<u32>, n: usize) -> (r: Vec<usize>)
    ensures
        best_buckets(r@, scores@, n as nat),
{
    let mut buckets: Vec<usize> = Vec::new();
    let mut b: usize = 0;
    while b < scores.len()
        invariant
            b <= scores@.len(),
            buckets@ == ranked(scores@, b as nat),
        decreases scores@.len() - b,
    {
        proof {
            law_ranking_names_every_bucket(scores@, b as nat);
        }
        let score: u32 = scores[b];
        let mut at: usize = buckets.len();
        assert(buckets@.take(at as int) =~= buckets@);
        while at > 0 && bits_gt(score, scores[buckets[at - 1]])
            invariant
                b < scores@.len(),
                score == scores@[b as int],
                at <= buckets@.len(),
                forall|i: int| 0 <= i < buckets@.len() ==> (#[trigger] buckets@[i]) < b,
                bucket_place(buckets@, scores@, b as int) == bucket_place(
                    buckets@.take(at as int),
                    scores@,
                    b as int,
                ),
            decreases at,
        {
            assert(buckets@.take(at as int).drop_last() =~= buckets@.take(at - 1));
            at = at - 1;
        }
        buckets.insert(at, b);
        b = b + 1;
    }
    proof {
        law_ranking_names_every_bucket(scores@, scores@.len());
    }
    if n < buckets.len() {
        buckets.truncate(n);
    }
    assert(buckets@ =~= ranked(scores@, scores@.len()).take(buckets@.len() as int));
    buckets
}

/// `b` is the first bucket of a ranking by score.
pub open spec fn is_nearest(b: usize, scores: Seq<u32>) -> bool {
    best_buckets(seq![b], scores, 1)
}

/// The nearest bucket has the best score, and is the smallest one where several share it, among
/// scores that are numbers.
pub proof fn law_nearest_scores_best(b: usize, scores: Seq<u32>)
    requires
        0 < scores.len() <= usize::MAX,
        is_nearest(b, scores),
        forall|i: int| 0 <= i < scores.len() ==> !spec_is_nan(#[trigger] scores[i]),
    ensures
        b < scores.len(),
        forall|i: int|
            0 <= i < scores.len() && i != b ==> spec_gt(scores[b as int], #[trigger] scores[i]) || (
            !spec_gt(scores[i], scores[b as int]) && b < i),
{
    let n = scores.len();
    let all = ranked(scores, n);
    law_ranking_names_every_bucket(scores, n);
    law_ranking_is_best_first(scores, n);
    assert(seq![b][0] == all[0]);
    assert forall|i: int| 0 <= i < scores.len() && i != b implies spec_gt(
        scores[b as int],
        #[trigger] scores[i],
    ) || (!spec_gt(scores[i], scores[b as int]) && b < i) by {
        assert(all.contains(i as usize));
        let p = choose|p: int| 0 <= p < all.len() && all[p] == i as usize;
        assert(0 < p);
        assert(all[0] == b && all[p] == i);
    }
}

/// The bucket that a trained centroid table gives a row: the best score above negative infinity,
/// the smallest bucket where several share it, and bucket 0 where no score is above it.
pub open spec fn is_choice(b: usize, scores: Seq<u32>) -> bool {
    if exists|i: int| 0 <= i < scores.len() && spec_gt(#[trigger] scores[i], NEG_INFINITY) {
        &&& b < scores.len()
        &&& spec_gt(scores[b as int], NEG_INFINITY)
        &&& forall|i: int| 0 <= i < scores.len() ==> !spec_gt(#[trigger] scores[i], scores[b as int])
        &&& forall|i: int|
            0 <= i < b ==> spec_is_nan(#[trigger] scores[i]) || spec_gt(scores[b as int], scores[i])
    } else {
        b == 0
    }
}

/// The bucket that a trained table gives a row has the best score, and is the smallest one where
/// several share it, among scores that are numbers.
pub proof fn law_choice_scores_best(b: usize, scores: Seq<u32>)
    requires
        scores.len() > 0,
        is_choice(b, scores),
        forall|i: int| 0 <= i < scores.len() ==> !spec_is_nan(#[trigger] scores[i]),
    ensures
        b < scores.len(),
        forall|i: int|
            0 <= i < scores.len() ==> !spec_gt(#[trigger] scores[i], scores[b as int]),
        forall|i: int| 0 <= i < b ==> spec_gt(scores[b as int], #[trigger] scores[i]),
{
    if forall|i: int| 0 <= i < scores.len() ==> !spec_gt(#[trigger] scores[i], NEG_INFINITY) {
        assert(!spec_gt(scores[0], NEG_INFINITY));
    }
}

/// Picks a bucket by its score.
pub fn choose_bucket(scores: &Vec<u32>) -> (r: usize)
    ensures
        is_choice(r, scores@),
{
    let mut best_bucket: usize = 0;
    let mut best_score: u32 = NEG_INFINITY;
    let mut found: bool = false;
    let mut b: usize = 0;
    while b < scores.len()
        invariant
            b <= scores@.len(),
            !spec_is_nan(best_score),
            found <==> exists|i: int|
                0 <= i < b && spec_gt(#[trigger] scores@[i], NEG_INFINITY),
            !found ==> best_bucket == 0 && best_score == NEG_INFINITY,
            found ==> best_bucket < b && best_score == scores@[best_bucket as int] && spec_gt(
                best_score,
                NEG_INFINITY,
            ),
            forall|i: int| 0 <= i < b ==> !spec_gt(#[trigger] scores@[i], best_score),
            found ==> forall|i: int|
                0 <= i < best_bucket ==> spec_is_nan(#[trigger] scores@[i]) || spec_gt(
                    best_score,
                    scores@[i],
                ),
        decreases scores@.len() - b,
    {
        let score: u32 = scores[b];
        if bits_gt(score, best_score) {
            best_score = score;
            best_bucket = b;
            found = true;
        }
        b = b + 1;
        assert(scores@[b - 1] == score);
    }
    best_bucket
}

/// `b` is the bucket that the centroid table gives the row.
pub open spec fn assigned<M: VectorMath>(
    math: M,
    row: Seq<u32>,
    centroids: Seq<u32>,
    dim: nat,
    num_buckets: nat,
    b: usize,
) -> bool {
    exists|scores: Seq<u32>|
        #[trigger] bucket_scores(math, row, centroids, dim, num_buckets, scores) && is_choice(
            b,
            scores,
        )
}

fn nearest_centroid<M: VectorMath>(
    math: &M,
    vector: &[u32],
    dim: usize,
    centroids: &Vec<u32>,
    num_buckets: usize,
) -> (r: usize)
    requires
        num_buckets * dim <= centroids@.len(),
        num_buckets > 0,
    ensures
        r < num_buckets,
        assigned(*math, vector@, centroids@, dim as nat, num_buckets as nat, r),
{
    let scores = score_buckets(math, vector, centroids, dim, num_buckets);
    choose_bucket(&scores)
}

/// The ids that an index keeps in one of `buckets`.
pub open spec fn in_buckets(
    assignments: Map<VectorId, usize>,
    buckets: Seq<usize>,
    id: VectorId,
) -> bool {
    assignments.contains_key(id) && buckets.contains(assignments[id])
}

impl IvfIndex {
    /// The centroid table covers every bucket at this width.
    pub open spec fn covers(self, dim: nat) -> bool {
        self.num_buckets * dim <= self.centroids@.len()
    }

    /// The ids in one bucket, in no particular order.
    pub fn bucket_ids(&self, bucket: usize) -> (r: Vec<VectorId>)
        ensures
            r@.no_duplicates(),
            forall|id: VectorId|
                #![trigger r@.contains(id)]
                r@.contains(id) <==> self.assignments@.contains_key(id) && self.assignments@[id]
                    == bucket,
    {
        let buckets: Vec<usize> = vec![bucket];
        assert(buckets@ =~= seq![bucket]);
        let ids = self.ids_in(&buckets);
        assert forall|id: VectorId|
            #![trigger ids@.contains(id)]
            ids@.contains(id) <==> self.assignments@.contains_key(id) && self.assignments@[id]
                == bucket by {
            assert(buckets@[0] == bucket);
            assert(buckets@.contains(bucket));
        }
        ids
    }

    /// The ids in any of `buckets`.
    fn ids_in(&self, buckets: &Vec<usize>) -> (r: Vec<VectorId>)
        ensures
            r@.no_duplicates(),
            forall|id: VectorId|
                #![trigger r@.contains(id)]
                r@.contains(id) <==> in_buckets(self.assignments@, buckets@, id),
    {
        let keys = map_ids(&self.assignments);
        let mut out: Vec<VectorId> = Vec::new();
        let mut i: usize = 0;
        while i < keys.len()
            invariant
                i <= keys@.len(),
                lists_set(keys@, self.assignments@.dom()),
                out@.no_duplicates(),
                forall|id: VectorId|
                    #![trigger out@.contains(id)]
                    out@.contains(id) <==> keys@.take(i as int).contains(id) && in_buckets(
                        self.assignments@,
                        buckets@,
                        id,
                    ),
            decreases keys@.len() - i,
        {
            let id: VectorId = keys[i];
            let ghost before = out@;
            proof {
                assert(keys@.contains(id));
                assert(keys@.take(i + 1) =~= keys@.take(i as int).push(id));
                assert(!keys@.take(i as int).contains(id));
                lemma_push_has(keys@.take(i as int), id);
                lemma_push_has(before, id);
                assert(forall|p: int|
                    0 <= p < before.len() ==> before.contains(#[trigger] before[p]));
            }
            if let Some(bucket) = self.assignments.get(&id) {
                if contains(buckets, *bucket) {
                    out.push(id);
                }
            }
            i = i + 1;
        }
        assert(keys@.take(keys@.len() as int) =~= keys@);
        out
    }

    /// The `probe_buckets` buckets whose centroids are closest to the query.
    pub fn probe<M: VectorMath>(
        &self,
        math: &M,
        query: &[u32],
        dim: usize,
        probe_buckets: usize,
    ) -> (r: Vec<usize>)
        requires
            self.covers(dim as nat),
        ensures
            probes(*math, query@, self@, dim as nat, probe_buckets as nat, r@),
    {
        let scores = score_buckets(math, query, &self.centroids, dim, self.num_buckets);
        let buckets = rank_buckets(&scores, probe_buckets);
        assert(bucket_scores(
            *math,
            query@,
            self@.centroids,
            dim as nat,
            self@.num_buckets as nat,
            scores@,
        ));
        buckets
    }

    /// The bucket whose centroid is closest to the row.
    pub fn nearest_bucket<M: VectorMath>(&self, math: &M, vector: &[u32], dim: usize) -> (r: usize)
        requires
            self.covers(dim as nat),
            self.num_buckets > 0,
        ensures
            nearest_in(*math, vector@, self@, dim as nat, r),
    {
        let scores = score_buckets(math, vector, &self.centroids, dim, self.num_buckets);
        let ranking = rank_buckets(&scores, 1);
        proof {
            law_ranking_names_every_bucket(scores@, scores@.len());
            assert(ranking@ =~= seq![ranking@[0]]);
            assert(bucket_scores(
                *math,
                vector@,
                self@.centroids,
                dim as nat,
                self@.num_buckets as nat,
                scores@,
            ));
        }
        ranking[0]
    }

    /// The ids in the probed buckets, minus tombstones, in no particular order.
    pub fn candidates<M: VectorMath>(
        &self,
        math: &M,
        query: &[u32],
        dim: usize,
        probe_buckets: usize,
        tombstones: &HashSet<VectorId>,
    ) -> (r: Vec<VectorId>)
        requires
            self.covers(dim as nat),
        ensures
            probed(*math, query@, self@, dim as nat, probe_buckets as nat, tombstones@, r@),
    {
        let buckets = self.probe(math, query, dim, probe_buckets);
        self.live_ids_in(&buckets, tombstones)
    }

    /// The ids in any of `buckets`, minus tombstones, in no particular order: what a probe that
    /// picked these buckets leads to.
    pub fn live_ids_in(&self, buckets: &Vec<usize>, tombstones: &HashSet<VectorId>) -> (r: Vec<
        VectorId,
    >)
        ensures
            lists_probed(self@.assignments, buckets@, tombstones@, r@),
    {
        let ids = self.ids_in(buckets);
        let mut live: Vec<VectorId> = Vec::new();
        let mut i: usize = 0;
        while i < ids.len()
            invariant
                i <= ids@.len(),
                ids@.no_duplicates(),
                live@.no_duplicates(),
                forall|id: VectorId|
                    #![trigger live@.contains(id)]
                    live@.contains(id) <==> ids@.take(i as int).contains(id)
                        && !tombstones@.contains(id),
            decreases ids@.len() - i,
        {
            let id: VectorId = ids[i];
            let ghost before = live@;
            proof {
                assert(ids@.take(i + 1) =~= ids@.take(i as int).push(id));
                assert(!ids@.take(i as int).contains(id));
                lemma_push_has(ids@.take(i as int), id);
                lemma_push_has(before, id);
                assert(forall|p: int|
                    0 <= p < before.len() ==> before.contains(#[trigger] before[p]));
            }
            if !tombstones.contains(&id) {
                live.push(id);
            }
            i = i + 1;
        }
        assert(ids@.take(ids@.len() as int) =~= ids@);
        live
    }
}

/// `ids` names once every id in one of the buckets that carries no tombstone.
pub open spec fn lists_probed(
    assignments: Map<VectorId, usize>,
    buckets: Seq<usize>,
    tombstones: Set<VectorId>,
    ids: Seq<VectorId>,
) -> bool {
    ids.no_duplicates() && forall|id: VectorId|
        #![trigger ids.contains(id)]
        ids.contains(id) <==> in_buckets(assignments, buckets, id) && !tombstones.contains(id)
}

/// The rows of some buckets are the ids, each once, whose bucket is one of these and which carry no
/// tombstone.
pub proof fn law_rows_of_buckets(
    assignments: Map<VectorId, usize>,
    buckets: Seq<usize>,
    tombstones: Set<VectorId>,
    ids: Seq<VectorId>,
    id: VectorId,
)
    requires
        lists_probed(assignments, buckets, tombstones, ids),
    ensures
        (exists|i: int| 0 <= i < ids.len() && #[trigger] ids[i] == id) <==> {
            &&& assignments.contains_key(id)
            &&& exists|i: int| 0 <= i < buckets.len() && #[trigger] buckets[i] == assignments[id]
            &&& !tombstones.contains(id)
        },
        forall|i: int, j: int| 0 <= i < j < ids.len() ==> #[trigger] ids[i] != #[trigger] ids[j],
{
    assert(ids.contains(id) <==> exists|i: int| 0 <= i < ids.len() && #[trigger] ids[i] == id);
    if exists|i: int| 0 <= i < buckets.len() && #[trigger] buckets[i] == assignments[id] {
        let i = choose|i: int| 0 <= i < buckets.len() && #[trigger] buckets[i] == assignments[id];
        assert(buckets.contains(buckets[i]));
    }
}

/// The row of an id is made of as many words as the store is wide, from the word at its offset on,
/// and there is one exactly where the id has an offset and the words reach that far.
pub proof fn law_row_at_its_offset(
    words: Seq<u32>,
    dim: nat,
    offsets: Map<VectorId, u64>,
    id: VectorId,
    j: int,
)
    ensures
        row_of(words, dim, offsets, id) is Some <==> offsets.contains_key(id) && offsets[id] / 4
            + dim <= words.len(),
        row_of(words, dim, offsets, id) matches Some(row) ==> row.len() == dim && (0 <= j < dim
            ==> row[j] == words[offsets[id] / 4 + j]),
{
}

/// `buckets` are the `n` buckets that score best for the query, best first.
pub open spec fn probes<M: VectorMath>(
    math: M,
    query: Seq<u32>,
    index: IvfView,
    dim: nat,
    n: nat,
    buckets: Seq<usize>,
) -> bool {
    exists|scores: Seq<u32>|
        #[trigger] bucket_scores(
            math,
            query,
            index.centroids,
            dim,
            index.num_buckets as nat,
            scores,
        ) && best_buckets(buckets, scores, n)
}

/// `ids` are the rows of the `n` buckets that score best for the query.
pub open spec fn probed<M: VectorMath>(
    math: M,
    query: Seq<u32>,
    index: IvfView,
    dim: nat,
    n: nat,
    tombstones: Set<VectorId>,
    ids: Seq<VectorId>,
) -> bool {
    exists|buckets: Seq<usize>| #[trigger]
        probes(math, query, index, dim, n, buckets) && lists_probed(
            index.assignments,
            buckets,
            tombstones,
            ids,
        )
}

/// The buckets that come before bucket `b` for a query: those with a greater score, and those with
/// the same score and a smaller number.
pub open spec fn nearer(scores: Seq<u32>, b: int) -> Set<int> {
    Set::new(
        |c: int|
            0 <= c < scores.len() && (spec_gt(scores[c], scores[b]) || (!spec_gt(
                scores[b],
                scores[c],
            ) && c < b)),
    )
}

/// As many buckets come before a bucket as stand before it in the ranking.
proof fn lemma_nearer_count(scores: Seq<u32>, i: int)
    requires
        scores.len() <= usize::MAX,
        forall|b: int| 0 <= b < scores.len() ==> !spec_is_nan(#[trigger] scores[b]),
        0 <= i < scores.len(),
    ensures
        nearer(scores, ranked(scores, scores.len())[i] as int).finite(),
        nearer(scores, ranked(scores, scores.len())[i] as int).len() == i,
{
    let n = scores.len();
    let all = ranked(scores, n);
    law_ranking_names_every_bucket(scores, n);
    law_ranking_is_best_first(scores, n);
    let b = all[i] as int;
    let before = Seq::new(i as nat, |j: int| all[j] as int);
    assert forall|p: int, q: int| 0 <= p < before.len() && 0 <= q < before.len() && p
        != q implies before[p] != before[q] by {
        assert(all[p] != all[q]);
    }
    before.unique_seq_to_set();
    vstd::seq_lib::seq_to_set_is_finite(before);
    assert forall|c: int| nearer(scores, b).contains(c) <==> before.to_set().contains(c) by {
        if before.to_set().contains(c) {
            let j = choose|j: int| 0 <= j < before.len() && before[j] == c;
            assert(all[j] == c && all[i] == b);
        }
        if nearer(scores, b).contains(c) {
            assert(all.contains(c as usize));
            let j = choose|j: int| 0 <= j < all.len() && all[j] == c as usize;
            if j >= i {
                if j > i {
                    assert(all[i] == b && all[j] == c);
                }
                assert(false);
            }
            assert(before[j] == c);
        }
    }
    assert(nearer(scores, b) =~= before.to_set());
}

/// A probe for `n` buckets takes `n` of them, or all where there are fewer, none twice. With scores
/// that are numbers it takes exactly those before which fewer than `n` others come, and in that
/// order.
pub proof fn law_probe_takes_the_nearest<M: VectorMath>(
    math: M,
    query: Seq<u32>,
    index: IvfView,
    dim: nat,
    n: nat,
    buckets: Seq<usize>,
)
    requires
        probes(math, query, index, dim, n, buckets),
    ensures
        buckets.len() == if n <= index.num_buckets {
            n
        } else {
            index.num_buckets as nat
        },
        buckets.no_duplicates(),
        forall|i: int| 0 <= i < buckets.len() ==> (#[trigger] buckets[i]) < index.num_buckets,
        exists|scores: Seq<u32>|
            {
                &&& #[trigger] bucket_scores(
                    math,
                    query,
                    index.centroids,
                    dim,
                    index.num_buckets as nat,
                    scores,
                )
                &&& (forall|b: int| 0 <= b < scores.len() ==> !spec_is_nan(#[trigger] scores[b]))
                    ==> {
                    &&& forall|b: usize|
                        b < index.num_buckets ==> (#[trigger] buckets.contains(b) <==> nearer(
                            scores,
                            b as int,
                        ).len() < n)
                    &&& forall|i: int, j: int|
                        0 <= i < j < buckets.len() ==> !spec_gt(
                            scores[#[trigger] buckets[j] as int],
                            scores[#[trigger] buckets[i] as int],
                        )
                }
            },
{
    let scores = choose|scores: Seq<u32>|
        #[trigger] bucket_scores(
            math,
            query,
            index.centroids,
            dim,
            index.num_buckets as nat,
            scores,
        ) && best_buckets(buckets, scores, n);
    law_best_buckets_are_nearest(scores, n, buckets);
    assert(bucket_scores(math, query, index.centroids, dim, index.num_buckets as nat, scores));
}

/// The best buckets for given scores: as many as asked for, none twice, and with scores that are
/// numbers exactly those before which fewer than `n` others come, best first.
pub proof fn law_best_buckets_are_nearest(scores: Seq<u32>, n: nat, buckets: Seq<usize>)
    requires
        scores.len() <= usize::MAX,
        best_buckets(buckets, scores, n),
    ensures
        buckets.len() == if n <= scores.len() {
            n
        } else {
            scores.len()
        },
        buckets.no_duplicates(),
        forall|i: int| 0 <= i < buckets.len() ==> (#[trigger] buckets[i]) < scores.len(),
        (forall|b: int| 0 <= b < scores.len() ==> !spec_is_nan(#[trigger] scores[b])) ==> {
            &&& forall|b: usize|
                b < scores.len() ==> (#[trigger] buckets.contains(b) <==> nearer(
                    scores,
                    b as int,
                ).len() < n)
            &&& forall|i: int, j: int|
                0 <= i < j < buckets.len() ==> !spec_gt(
                    scores[#[trigger] buckets[j] as int],
                    scores[#[trigger] buckets[i] as int],
                )
        },
{
    let all = ranked(scores, scores.len());
    law_ranking_names_every_bucket(scores, scores.len());
    assert forall|i: int| 0 <= i < buckets.len() implies (#[trigger] buckets[i])
        < scores.len() by {
        assert(all[i] < scores.len());
    }
    assert forall|i: int, j: int| 0 <= i < buckets.len() && 0 <= j < buckets.len() && i
        != j implies buckets[i] != buckets[j] by {
        assert(all[i] != all[j]);
    }
    if forall|b: int| 0 <= b < scores.len() ==> !spec_is_nan(#[trigger] scores[b]) {
        law_ranking_is_best_first(scores, scores.len());
        assert forall|b: usize| b < scores.len() implies (#[trigger] buckets.contains(b) <==> nearer(
            scores,
            b as int,
        ).len() < n) by {
            assert(all.contains(b));
            let i = choose|i: int| 0 <= i < all.len() && all[i] == b;
            lemma_nearer_count(scores, i);
            if i < n {
                assert(buckets[i] == b);
            }
            if buckets.contains(b) {
                let j = choose|j: int| 0 <= j < buckets.len() && buckets[j] == b;
                assert(all[j] == b);
            }
        }
        assert forall|i: int, j: int| 0 <= i < j < buckets.len() implies !spec_gt(
            scores[#[trigger] buckets[j] as int],
            scores[#[trigger] buckets[i] as int],
        ) by {
            assert(all[i] == buckets[i] && all[j] == buckets[j]);
        }
    }
}

/// Asking for more buckets never loses one: with arithmetic that answers alike each time, the
/// buckets of the smaller probe are the first ones of the larger probe.
pub proof fn law_more_buckets_lose_nothing<M: VectorMath>(
    math: M,
    query: Seq<u32>,
    index: IvfView,
    dim: nat,
    fewer: nat,
    more: nat,
    left: Seq<usize>,
    right: Seq<usize>,
)
    requires
        single_valued(math),
        fewer <= more,
        probes(math, query, index, dim, fewer, left),
        probes(math, query, index, dim, more, right),
    ensures
        left.len() <= right.len(),
        left == right.take(left.len() as int),
{
    let num_buckets = index.num_buckets as nat;
    let a = choose|scores: Seq<u32>|
        #[trigger] bucket_scores(math, query, index.centroids, dim, num_buckets, scores)
            && best_buckets(left, scores, fewer);
    let b = choose|scores: Seq<u32>|
        #[trigger] bucket_scores(math, query, index.centroids, dim, num_buckets, scores)
            && best_buckets(right, scores, more);
    assert forall|i: int| 0 <= i < num_buckets implies a[i] == b[i] by {
        let row = centroid(index.centroids, dim, i);
        assert(dot_is(math, query, row, a[i]));
        assert(dot_is(math, query, row, b[i]));
    }
    assert(a =~= b);
    law_ranking_names_every_bucket(a, num_buckets);
    assert(left =~= right.take(left.len() as int));
}

/// `b` is the bucket of the index that is nearest to the row.
pub open spec fn nearest_in<M: VectorMath>(
    math: M,
    row: Seq<u32>,
    index: IvfView,
    dim: nat,
    b: usize,
) -> bool {
    exists|scores: Seq<u32>|
        #[trigger] bucket_scores(
            math,
            row,
            index.centroids,
            dim,
            index.num_buckets as nat,
            scores,
        ) && is_nearest(b, scores)
}

/// Probing every bucket of an index finds every row in one of its buckets that carries no
/// tombstone.
pub proof fn law_full_probe_finds_all<M: VectorMath>(
    math: M,
    query: Seq<u32>,
    index: IvfView,
    dim: nat,
    n: nat,
    tombstones: Set<VectorId>,
    ids: Seq<VectorId>,
)
    requires
        n >= index.num_buckets,
        probed(math, query, index, dim, n, tombstones, ids),
    ensures
        ids.no_duplicates(),
        forall|id: VectorId| #[trigger]
            ids.contains(id) <==> index.assignments.contains_key(id) && index.assignments[id]
                < index.num_buckets && !tombstones.contains(id),
{
    let buckets = choose|buckets: Seq<usize>| #[trigger]
        probes(math, query, index, dim, n, buckets) && lists_probed(
            index.assignments,
            buckets,
            tombstones,
            ids,
        );
    let scores = choose|scores: Seq<u32>|
        #[trigger] bucket_scores(
            math,
            query,
            index.centroids,
            dim,
            index.num_buckets as nat,
            scores,
        ) && best_buckets(buckets, scores, n);
    law_ranking_names_every_bucket(scores, scores.len());
    assert(buckets =~= ranked(scores, scores.len()));
    assert forall|id: VectorId| #[trigger]
        ids.contains(id) <==> index.assignments.contains_key(id) && index.assignments[id]
            < index.num_buckets && !tombstones.contains(id) by {
        if index.assignments.contains_key(id) && buckets.contains(index.assignments[id]) {
            let p = choose|p: int| 0 <= p < buckets.len() && buckets[p] == index.assignments[id];
            assert(ranked(scores, scores.len())[p] < scores.len());
        }
    }
}

/// The arithmetic gives one score to a pair of rows.
pub open spec fn single_valued<M: VectorMath>(math: M) -> bool {
    forall|a: Seq<u32>, b: Seq<u32>, s: u32, t: u32| #[trigger]
        dot_is(math, a, b, s) && #[trigger] dot_is(math, a, b, t) ==> s == t
}

/// With arithmetic that answers alike each time, every probe of an index for a query picks the
/// same buckets.
pub proof fn law_probe_is_deterministic<M: VectorMath>(
    math: M,
    query: Seq<u32>,
    index: IvfView,
    dim: nat,
    n: nat,
    left: Seq<usize>,
    right: Seq<usize>,
)
    requires
        single_valued(math),
        probes(math, query, index, dim, n, left),
        probes(math, query, index, dim, n, right),
    ensures
        left == right,
{
    let num_buckets = index.num_buckets as nat;
    let a = choose|scores: Seq<u32>|
        #[trigger] bucket_scores(math, query, index.centroids, dim, num_buckets, scores)
            && best_buckets(left, scores, n);
    let b = choose|scores: Seq<u32>|
        #[trigger] bucket_scores(math, query, index.centroids, dim, num_buckets, scores)
            && best_buckets(right, scores, n);
    assert forall|i: int| 0 <= i < num_buckets implies a[i] == b[i] by {
        let row = centroid(index.centroids, dim, i);
        assert(dot_is(math, query, row, a[i]));
        assert(dot_is(math, query, row, b[i]));
    }
    assert(a =~= b);
}

/// With arithmetic that answers alike each time, the candidates for a query are exactly the rows
/// without a tombstone in the buckets that a probe picks.
pub proof fn law_candidates_are_rows_of_the_probe<M: VectorMath>(
    math: M,
    query: Seq<u32>,
    index: IvfView,
    dim: nat,
    n: nat,
    tombstones: Set<VectorId>,
    buckets: Seq<usize>,
    ids: Seq<VectorId>,
)
    requires
        single_valued(math),
        probes(math, query, index, dim, n, buckets),
        probed(math, query, index, dim, n, tombstones, ids),
    ensures
        ids.no_duplicates(),
        forall|id: VectorId| #[trigger]
            ids.contains(id) <==> index.assignments.contains_key(id) && buckets.contains(
                index.assignments[id],
            ) && !tombstones.contains(id),
{
    let own = choose|own: Seq<usize>| #[trigger]
        probes(math, query, index, dim, n, own) && lists_probed(
            index.assignments,
            own,
            tombstones,
            ids,
        );
    law_probe_is_deterministic(math, query, index, dim, n, buckets, own);
}

fn contains(items: &Vec<usize>, item: usize) -> (r: bool)
    ensures
        r == items@.contains(item),
{
    let mut i: usize = 0;
    while i < items.len()
        invariant
            i <= items@.len(),
            forall|j: int| 0 <= j < i ==> items@[j] != item,
        decreases items@.len() - i,
    {
        if items[i] == item {
            return true;
        }
        i = i + 1;
    }
    false
}

pub fn default_ivf_buckets() -> (r: usize)
    ensures
        r == DEFAULT_IVF_BUCKETS,
{
    DEFAULT_IVF_BUCKETS
}

pub fn default_ivf_probe() -> (r: usize)
    ensures
        r == DEFAULT_IVF_PROBE,
{
    DEFAULT_IVF_PROBE
}

/// The row of an id: `dim` words from the word at its byte offset on.
pub open spec fn row_of(
    words: Seq<u32>,
    dim: nat,
    offsets: Map<VectorId, u64>,
    id: VectorId,
) -> Option<Seq<u32>> {
    if offsets.contains_key(id) && offsets[id] / 4 + dim <= words.len() {
        Some(words.subrange(offsets[id] as int / 4, offsets[id] as int / 4 + dim))
    } else {
        None
    }
}

pub(crate) fn read_vector<'a>(
    vectors: &'a [u32],
    dim: usize,
    id_offsets: &HashMap<VectorId, u64>,
    id: VectorId,
) -> (r: Result<&'a [u32], DbError>)
    ensures
        match row_of(vectors@, dim as nat, id_offsets@, id) {
            Some(row) => r is Ok && r->Ok_0@ == row,
            None => r == Err::<&'a [u32], DbError>(DbError::MissingOffset { id }),
        },
{
    match id_offsets.get(&id) {
        None => Err(DbError::MissingOffset { id }),
        Some(byte_offset) => {
            let start: u64 = *byte_offset / 4;
            let total: usize = vectors.len();
            if dim <= total && start <= (total - dim) as u64 {
                let from: usize = start as usize;
                Ok(slice_subrange(vectors, from, from + dim))
            } else {
                Err(DbError::MissingOffset { id })
            }
        },
    }
}

/// Every id has a row.
pub open spec fn all_rows(
    words: Seq<u32>,
    dim: nat,
    offsets: Map<VectorId, u64>,
    ids: Seq<VectorId>,
) -> bool {
    forall|i: int|
        0 <= i < ids.len() ==> row_of(words, dim, offsets, #[trigger] ids[i]) is Some
}

/// The rows of a list of ids.
pub open spec fn rows_of(
    words: Seq<u32>,
    dim: nat,
    offsets: Map<VectorId, u64>,
    ids: Seq<VectorId>,
) -> Seq<Seq<u32>> {
    Seq::new(ids.len(), |i: int| row_of(words, dim, offsets, ids[i])->Some_0)
}

/// Which of `live` rows becomes the first centroid of bucket `b`: evenly spaced ones.
pub open spec fn seed_index(b: int, live: int, num_buckets: int) -> int {
    b * (live / num_buckets)
}

proof fn lemma_seed_index(b: int, live: int, num_buckets: int)
    requires
        0 <= b < num_buckets <= live,
    ensures
        live / num_buckets >= 1,
        0 <= seed_index(b, live, num_buckets) < live,
{
    let stride = live / num_buckets;
    vstd::arithmetic::div_mod::lemma_fundamental_div_mod(live, num_buckets);
    vstd::arithmetic::div_mod::lemma_div_is_ordered(num_buckets, live, num_buckets);
    vstd::arithmetic::div_mod::lemma_div_by_self(num_buckets);
    assert(0 <= b * stride < num_buckets * stride <= live) by (nonlinear_arith)
        requires
            0 <= b < num_buckets,
            stride >= 1,
            live == num_buckets * stride + live % num_buckets,
            live % num_buckets >= 0,
    ;
}

/// The seeds are evenly spaced over the live rows: the first one is the first row, the next one
/// always stands as many rows further as there are rows for each bucket, and none is beyond the
/// last row.
pub proof fn law_seeds_are_evenly_spaced(b: int, live: int, num_buckets: int)
    requires
        0 <= b < num_buckets <= live,
    ensures
        seed_index(0, live, num_buckets) == 0,
        seed_index(b + 1, live, num_buckets) - seed_index(b, live, num_buckets) == live
            / num_buckets,
        live / num_buckets >= 1,
        0 <= seed_index(b, live, num_buckets) < live,
{
    lemma_seed_index(b, live, num_buckets);
    let stride = live / num_buckets;
    assert((b + 1) * stride - b * stride == stride) by (nonlinear_arith);
    assert(0 * stride == 0);
}

/// The table holds one seed row per bucket.
pub open spec fn seeded(
    num_buckets: nat,
    dim: nat,
    rows: Seq<Seq<u32>>,
    centroids: Seq<u32>,
) -> bool {
    centroids.len() == num_buckets * dim && forall|b: int|
        0 <= b < num_buckets ==> #[trigger] centroid(centroids, dim, b) == rows[seed_index(
            b,
            rows.len() as int,
            num_buckets as int,
        )]
}

/// The positions in `buckets` that hold `b`, in order.
pub open spec fn members(buckets: Seq<usize>, b: usize) -> Seq<int>
    decreases buckets.len(),
{
    if buckets.len() == 0 {
        Seq::empty()
    } else {
        let rest = members(buckets.drop_last(), b);
        if buckets.last() == b {
            rest.push(buckets.len() - 1)
        } else {
            rest
        }
    }
}

/// The members of a bucket are its positions, each once and in ascending order.
pub proof fn law_members_are_positions(buckets: Seq<usize>, b: usize)
    ensures
        forall|i: int|
            0 <= i < members(buckets, b).len() ==> 0 <= #[trigger] members(buckets, b)[i]
                < buckets.len() && buckets[members(buckets, b)[i]] == b,
        forall|i: int, j: int|
            0 <= i < j < members(buckets, b).len() ==> #[trigger] members(buckets, b)[i]
                < #[trigger] members(buckets, b)[j],
        forall|p: int|
            0 <= p < buckets.len() && buckets[p] == b ==> #[trigger] members(buckets, b).contains(
                p,
            ),
    decreases buckets.len(),
{
    if buckets.len() > 0 {
        let fewer = buckets.drop_last();
        let rest = members(fewer, b);
        let all = members(buckets, b);
        law_members_are_positions(fewer, b);
        assert forall|i: int| 0 <= i < all.len() implies 0 <= #[trigger] all[i] < buckets.len()
            && buckets[all[i]] == b by {
            if i < rest.len() {
                assert(all[i] == rest[i]);
                assert(fewer[rest[i]] == b);
            }
        }
        assert forall|i: int, j: int| 0 <= i < j < all.len() implies #[trigger] all[i]
            < #[trigger] all[j] by {
            assert(all[i] == rest[i]);
            if j < rest.len() {
                assert(all[j] == rest[j]);
            }
        }
        assert forall|p: int| 0 <= p < buckets.len() && buckets[p] == b implies #[trigger] all.contains(
            p,
        ) by {
            if p < fewer.len() {
                assert(fewer[p] == b);
                assert(rest.contains(p));
                let i = choose|i: int| 0 <= i < rest.len() && rest[i] == p;
                assert(all[i] == p);
            } else {
                assert(all[rest.len() as int] == p);
            }
        }
    }
}

/// Component `j` of the rows at the given positions.
pub open spec fn column(rows: Seq<Seq<u32>>, positions: Seq<int>, j: int) -> Seq<u32> {
    Seq::new(positions.len(), |i: int| rows[positions[i]][j])
}

/// One pass of refinement: every row goes to a bucket, and the centroid of a bucket with rows
/// becomes their mean; the centroid of an empty bucket stays.
pub open spec fn refined_by<M: VectorMath>(
    math: M,
    num_buckets: nat,
    dim: nat,
    rows: Seq<Seq<u32>>,
    before: Seq<u32>,
    buckets: Seq<usize>,
    after: Seq<u32>,
) -> bool {
    &&& buckets.len() == rows.len()
    &&& forall|i: int|
        0 <= i < rows.len() ==> assigned(
            math,
            rows[i],
            before,
            dim,
            num_buckets,
            #[trigger] buckets[i],
        )
    &&& after.len() == num_buckets * dim
    &&& forall|b: usize|
        b < num_buckets ==> moved(
            math,
            dim,
            rows,
            members(buckets, b),
            centroid(before, dim, b as int),
            #[trigger] centroid(after, dim, b as int),
        )
}

/// How one centroid moves, given the positions of its rows.
pub open spec fn moved<M: VectorMath>(
    math: M,
    dim: nat,
    rows: Seq<Seq<u32>>,
    positions: Seq<int>,
    before: Seq<u32>,
    after: Seq<u32>,
) -> bool {
    if positions.len() == 0 {
        after == before
    } else {
        after.len() == dim && forall|j: int|
            0 <= j < dim ==> mean_is(math, column(rows, positions, j), #[trigger] after[j])
    }
}

pub open spec fn refined<M: VectorMath>(
    math: M,
    num_buckets: nat,
    dim: nat,
    rows: Seq<Seq<u32>>,
    before: Seq<u32>,
    after: Seq<u32>,
) -> bool {
    exists|buckets: Seq<usize>|
        #[trigger] refined_by(math, num_buckets, dim, rows, before, buckets, after)
}

/// The outcome of training: evenly spaced seeds and one pass of refinement.
pub open spec fn trained<M: VectorMath>(
    math: M,
    num_buckets: nat,
    dim: nat,
    rows: Seq<Seq<u32>>,
    centroids: Seq<u32>,
) -> bool {
    exists|first: Seq<u32>| #[trigger]
        seeded(num_buckets, dim, rows, first) && refined(
            math,
            num_buckets,
            dim,
            rows,
            first,
            centroids,
        )
}

/// The rows behind a list of slices.
spec fn slices(rows: Seq<&[u32]>) -> Seq<Seq<u32>> {
    Seq::new(rows.len(), |i: int| rows[i]@)
}

proof fn lemma_append_centroid(table: Seq<u32>, dim: nat, b: int, row: Seq<u32>)
    requires
        0 <= b,
        table.len() == b * dim,
        row.len() == dim,
    ensures
        (table + row).len() == (b + 1) * dim,
        centroid(table + row, dim, b) == row,
        forall|i: int|
            0 <= i < b ==> #[trigger] centroid(table + row, dim, i) == centroid(table, dim, i),
{
    lemma_bucket_range(b, b + 1, dim as int);
    assert(centroid(table + row, dim, b) =~= row);
    assert forall|i: int| 0 <= i < b implies #[trigger] centroid(table + row, dim, i) == centroid(
        table,
        dim,
        i,
    ) by {
        lemma_bucket_range(i, b, dim as int);
        assert(centroid(table + row, dim, i) =~= centroid(table, dim, i));
    }
}

fn members_of(buckets: &Vec<usize>, b: usize) -> (r: Vec<usize>)
    ensures
        r@.len() == members(buckets@, b).len(),
        forall|i: int| 0 <= i < r@.len() ==> #[trigger] r@[i] == members(buckets@, b)[i],
        forall|i: int| 0 <= i < r@.len() ==> (#[trigger] r@[i]) < buckets@.len(),
{
    let mut out: Vec<usize> = Vec::new();
    let mut i: usize = 0;
    assert(members(buckets@.take(0), b) =~= Seq::<int>::empty());
    while i < buckets.len()
        invariant
            i <= buckets@.len(),
            out@.len() == members(buckets@.take(i as int), b).len(),
            forall|j: int|
                0 <= j < out@.len() ==> #[trigger] out@[j] == members(
                    buckets@.take(i as int),
                    b,
                )[j],
            forall|j: int| 0 <= j < out@.len() ==> (#[trigger] out@[j]) < i,
        decreases buckets@.len() - i,
    {
        assert(buckets@.take(i + 1).drop_last() =~= buckets@.take(i as int));
        assert(buckets@.take(i + 1).last() == buckets@[i as int]);
        if buckets[i] == b {
            out.push(i);
        }
        i = i + 1;
    }
    assert(buckets@.take(buckets@.len() as int) =~= buckets@);
    out
}

/// The mean of the rows at the given positions, component by component.
fn mean_row<M: VectorMath>(
    math: &M,
    dim: usize,
    rows: &Vec<&[u32]>,
    positions: &Vec<usize>,
    Ghost(all): Ghost<Seq<int>>,
) -> (r: Vec<u32>)
    requires
        all.len() > 0,
        positions@.len() == all.len(),
        forall|i: int| 0 <= i < positions@.len() ==> #[trigger] positions@[i] == all[i],
        forall|i: int| 0 <= i < positions@.len() ==> (#[trigger] positions@[i]) < rows@.len(),
        forall|i: int| 0 <= i < rows@.len() ==> (#[trigger] rows@[i])@.len() == dim,
    ensures
        moved(*math, dim as nat, slices(rows@), all, Seq::empty(), r@),
{
    let mut out: Vec<u32> = Vec::new();
    let mut j: usize = 0;
    while j < dim
        invariant
            j <= dim,
            out@.len() == j,
            positions@.len() == all.len(),
            forall|i: int| 0 <= i < positions@.len() ==> #[trigger] positions@[i] == all[i],
            forall|i: int| 0 <= i < positions@.len() ==> (#[trigger] positions@[i]) < rows@.len(),
            forall|i: int| 0 <= i < rows@.len() ==> (#[trigger] rows@[i])@.len() == dim,
            forall|i: int|
                0 <= i < j ==> mean_is(
                    *math,
                    column(slices(rows@), all, i),
                    #[trigger] out@[i],
                ),
        decreases dim - j,
    {
        let mut values: Vec<u32> = Vec::new();
        let mut i: usize = 0;
        while i < positions.len()
            invariant
                i <= positions@.len(),
                j < dim,
                positions@.len() == all.len(),
                forall|i: int| 0 <= i < positions@.len() ==> #[trigger] positions@[i] == all[i],
                forall|i: int|
                    0 <= i < positions@.len() ==> (#[trigger] positions@[i]) < rows@.len(),
                forall|i: int| 0 <= i < rows@.len() ==> (#[trigger] rows@[i])@.len() == dim,
                values@ == column(slices(rows@), all, j as int).take(i as int),
            decreases positions@.len() - i,
        {
            let row: &[u32] = rows[positions[i]];
            values.push(row[j]);
            i = i + 1;
            assert(values@ =~= column(slices(rows@), all, j as int).take(i as int));
        }
        assert(values@ =~= column(slices(rows@), all, j as int));
        let value: u32 = mean(math, &values);
        out.push(value);
        j = j + 1;
    }
    out
}

/// One pass of refinement.
fn refine<M: VectorMath>(
    math: &M,
    num_buckets: usize,
    dim: usize,
    rows: &Vec<&[u32]>,
    centroids: &Vec<u32>,
) -> (r: Vec<u32>)
    requires
        num_buckets > 0,
        centroids@.len() == num_buckets * dim,
        forall|i: int| 0 <= i < rows@.len() ==> (#[trigger] rows@[i])@.len() == dim,
    ensures
        refined(*math, num_buckets as nat, dim as nat, slices(rows@), centroids@, r@),
        r@.len() == num_buckets * dim,
{
    let mut buckets: Vec<usize> = Vec::new();
    let mut i: usize = 0;
    while i < rows.len()
        invariant
            i <= rows@.len(),
            num_buckets > 0,
            centroids@.len() == num_buckets * dim,
            buckets@.len() == i,
            forall|j: int|
                0 <= j < i ==> assigned(
                    *math,
                    slices(rows@)[j],
                    centroids@,
                    dim as nat,
                    num_buckets as nat,
                    #[trigger] buckets@[j],
                ),
        decreases rows@.len() - i,
    {
        let row: &[u32] = rows[i];
        let bucket: usize = nearest_centroid(math, row, dim, centroids, num_buckets);
        assert(slices(rows@)[i as int] == row@);
        buckets.push(bucket);
        i = i + 1;
    }
    let mut table: Vec<u32> = Vec::new();
    let total: usize = centroids.len();
    let mut b: usize = 0;
    while b < num_buckets
        invariant
            b <= num_buckets,
            total == centroids@.len() == num_buckets * dim,
            buckets@.len() == rows@.len(),
            forall|i: int| 0 <= i < rows@.len() ==> (#[trigger] rows@[i])@.len() == dim,
            table@.len() == b * dim,
            forall|c: usize|
                c < b ==> moved(
                    *math,
                    dim as nat,
                    slices(rows@),
                    members(buckets@, c),
                    centroid(centroids@, dim as nat, c as int),
                    #[trigger] centroid(table@, dim as nat, c as int),
                ),
        decreases num_buckets - b,
    {
        proof {
            lemma_bucket_range(b as int, num_buckets as int, dim as int);
        }
        let positions = members_of(&buckets, b);
        let mut row: Vec<u32> = if positions.len() == 0 {
            let start: usize = b * dim;
            vstd::slice::slice_to_vec(slice_subrange(centroids.as_slice(), start, start + dim))
        } else {
            mean_row(math, dim, rows, &positions, Ghost(members(buckets@, b)))
        };
        let ghost before = table@;
        let ghost added = row@;
        assert(moved(
            *math,
            dim as nat,
            slices(rows@),
            members(buckets@, b),
            centroid(centroids@, dim as nat, b as int),
            added,
        ));
        table.append(&mut row);
        proof {
            lemma_append_centroid(before, dim as nat, b as int, added);
        }
        b = b + 1;
    }
    assert(refined_by(
        *math,
        num_buckets as nat,
        dim as nat,
        slices(rows@),
        centroids@,
        buckets@,
        table@,
    ));
    table
}

/// Trains a centroid table: evenly spaced live rows as seeds, then one pass of refinement.
fn train_centroids<M: VectorMath>(
    math: &M,
    num_buckets: usize,
    dim: usize,
    live_ids: &Vec<VectorId>,
    vectors: &[u32],
    id_offsets: &HashMap<VectorId, u64>,
) -> (r: Result<Vec<u32>, DbError>)
    requires
        0 < num_buckets <= live_ids@.len(),
    ensures
        r is Ok <==> all_rows(vectors@, dim as nat, id_offsets@, live_ids@),
        r matches Ok(table) ==> table@.len() == num_buckets * dim && trained(
            *math,
            num_buckets as nat,
            dim as nat,
            rows_of(vectors@, dim as nat, id_offsets@, live_ids@),
            table@,
        ),
        r matches Err(e) ==> lacks_row(
            vectors@,
            dim as nat,
            id_offsets@,
            live_ids@,
            num_buckets as nat,
            e,
        ),
{
    let ghost rows = rows_of(vectors@, dim as nat, id_offsets@, live_ids@);
    let ghost picks = seed_ids(live_ids@, num_buckets as nat);
    let live: usize = live_ids.len();
    let stride: usize = live / num_buckets;
    let mut seeds: Vec<u32> = Vec::new();
    let mut b: usize = 0;
    while b < num_buckets
        invariant
            b <= num_buckets,
            0 < num_buckets <= live_ids@.len(),
            live == live_ids@.len(),
            stride == live / num_buckets,
            rows == rows_of(vectors@, dim as nat, id_offsets@, live_ids@),
            picks == seed_ids(live_ids@, num_buckets as nat),
            all_rows(vectors@, dim as nat, id_offsets@, picks.take(b as int)),
            seeds@.len() == b * dim,
            forall|c: int|
                0 <= c < b ==> #[trigger] centroid(seeds@, dim as nat, c) == rows[seed_index(
                    c,
                    rows.len() as int,
                    num_buckets as int,
                )],
        decreases num_buckets - b,
    {
        proof {
            lemma_seed_index(b as int, live as int, num_buckets as int);
        }
        let at: usize = b * stride;
        let pick: VectorId = live_ids[at];
        match read_vector(vectors, dim, id_offsets, pick) {
            Err(e) => {
                assert(picks[b as int] == pick);
                assert(!all_rows(vectors@, dim as nat, id_offsets@, picks));
                return Err(e);
            },
            Ok(row) => {
                assert(picks[b as int] == pick);
                assert(picks.take(b + 1) =~= picks.take(b as int).push(pick));
                let ghost before = seeds@;
                seeds.extend_from_slice(row);
                proof {
                    assert(seeds@ =~= before + row@);
                    lemma_append_centroid(before, dim as nat, b as int, row@);
                }
            },
        }
        b = b + 1;
    }
    assert(picks.take(num_buckets as int) =~= picks);
    let mut slice_rows: Vec<&[u32]> = Vec::new();
    let mut i: usize = 0;
    while i < live
        invariant
            i <= live,
            all_rows(
                vectors@,
                dim as nat,
                id_offsets@,
                seed_ids(live_ids@, num_buckets as nat),
            ),
            live == live_ids@.len(),
            slice_rows@.len() == i,
            forall|j: int|
                0 <= j < i ==> row_of(
                    vectors@,
                    dim as nat,
                    id_offsets@,
                    #[trigger] live_ids@[j],
                ) is Some,
            forall|j: int|
                0 <= j < i ==> (#[trigger] slice_rows@[j])@ == row_of(
                    vectors@,
                    dim as nat,
                    id_offsets@,
                    live_ids@[j],
                )->Some_0,
        decreases live - i,
    {
        let id: VectorId = live_ids[i];
        match read_vector(vectors, dim, id_offsets, id) {
            Err(e) => {
                assert(live_ids@[i as int] == id);
                return Err(e);
            },
            Ok(row) => {
                slice_rows.push(row);
            },
        }
        i = i + 1;
    }
    assert(slices(slice_rows@) =~= rows);
    assert(seeded(num_buckets as nat, dim as nat, rows, seeds@));
    assert forall|j: int| 0 <= j < slice_rows@.len() implies (#[trigger] slice_rows@[j])@.len()
        == dim by {
        assert(row_of(vectors@, dim as nat, id_offsets@, live_ids@[j]) is Some);
    }
    Ok(refine(math, num_buckets, dim, &slice_rows, &seeds))
}

/// The error of a list of ids of which at least one has no row: it names the first such id.
pub open spec fn first_lacks_row(
    words: Seq<u32>,
    dim: nat,
    offsets: Map<VectorId, u64>,
    ids: Seq<VectorId>,
    e: DbError,
) -> bool {
    exists|i: int|
        {
            &&& 0 <= i < ids.len()
            &&& row_of(words, dim, offsets, #[trigger] ids[i]) is None
            &&& all_rows(words, dim, offsets, ids.take(i))
            &&& e == (DbError::MissingOffset { id: ids[i] })
        }
}

/// The ids whose rows are the seeds of the buckets.
pub open spec fn seed_ids(ids: Seq<VectorId>, num_buckets: nat) -> Seq<VectorId> {
    Seq::new(num_buckets, |b: int| ids[seed_index(b, ids.len() as int, num_buckets as int)])
}

/// The error of training on a list of ids of which at least one has no row: it names the first
/// seed without a row or, where every seed has one, the first id without one.
pub open spec fn lacks_row(
    words: Seq<u32>,
    dim: nat,
    offsets: Map<VectorId, u64>,
    ids: Seq<VectorId>,
    num_buckets: nat,
    e: DbError,
) -> bool {
    let seeds = seed_ids(ids, num_buckets);
    first_lacks_row(
        words,
        dim,
        offsets,
        if all_rows(words, dim, offsets, seeds) {
            ids
        } else {
            seeds
        },
        e,
    )
}

/// Training fails only where some id has no row.
pub(crate) proof fn lemma_lacks_row(
    words: Seq<u32>,
    dim: nat,
    offsets: Map<VectorId, u64>,
    ids: Seq<VectorId>,
    num_buckets: nat,
    e: DbError,
)
    requires
        0 < num_buckets <= ids.len(),
        lacks_row(words, dim, offsets, ids, num_buckets, e),
    ensures
        !all_rows(words, dim, offsets, ids),
{
    let seeds = seed_ids(ids, num_buckets);
    if all_rows(words, dim, offsets, ids) {
        assert forall|b: int| 0 <= b < seeds.len() implies row_of(
            words,
            dim,
            offsets,
            #[trigger] seeds[b],
        ) is Some by {
            lemma_seed_index(b, ids.len() as int, num_buckets as int);
            assert(seeds[b] == ids[seed_index(b, ids.len() as int, num_buckets as int)]);
        }
    }
}

/// The index that training gives for a list of live rows.
pub open spec fn built<M: VectorMath>(
    math: M,
    num_buckets: usize,
    probe_buckets: usize,
    dim: nat,
    words: Seq<u32>,
    offsets: Map<VectorId, u64>,
    ids: Seq<VectorId>,
    index: IvfView,
) -> bool {
    &&& index.num_buckets == num_buckets
    &&& index.probe_buckets == probe_buckets
    &&& index.centroids.len() == num_buckets * dim
    &&& trained(
        math,
        num_buckets as nat,
        dim,
        rows_of(words, dim, offsets, ids),
        index.centroids,
    )
    &&& forall|id: VectorId|
        #![trigger index.assignments.contains_key(id)]
        index.assignments.contains_key(id) <==> ids.contains(id)
    &&& forall|id: VectorId|
        #![trigger index.assignments[id]]
        ids.contains(id) ==> index.assignments[id] < num_buckets && assigned(
            math,
            row_of(words, dim, offsets, id)->Some_0,
            index.centroids,
            dim,
            num_buckets as nat,
            index.assignments[id],
        )
}

/// How a table is trained. There is a seed for each bucket, evenly spaced over the rows; every row
/// goes to the bucket whose seed scores best for it; and a bucket with rows gets the mean of these
/// rows, component by component, while a bucket without rows keeps its seed.
pub proof fn law_training<M: VectorMath>(
    math: M,
    num_buckets: nat,
    dim: nat,
    rows: Seq<Seq<u32>>,
    centroids: Seq<u32>,
)
    requires
        0 < num_buckets <= rows.len(),
        trained(math, num_buckets, dim, rows, centroids),
    ensures
        centroids.len() == num_buckets * dim,
        exists|seeds: Seq<u32>, buckets: Seq<usize>|
            {
                &&& #[trigger] refined_by(
                    math,
                    num_buckets,
                    dim,
                    rows,
                    seeds,
                    buckets,
                    centroids,
                )
                &&& seeds.len() == num_buckets * dim
                &&& forall|b: int|
                    0 <= b < num_buckets ==> #[trigger] seeds.subrange(b * dim, b * dim + dim)
                        == rows[b * (rows.len() / num_buckets)]
                &&& buckets.len() == rows.len()
                &&& forall|i: int|
                    0 <= i < rows.len() ==> scores_best(
                        math,
                        rows[i],
                        seeds,
                        dim,
                        num_buckets,
                        #[trigger] buckets[i],
                    )
                &&& forall|b: usize|
                    #![trigger members(buckets, b)]
                    b < num_buckets && members(buckets, b).len() == 0 ==> centroids.subrange(
                        b * dim,
                        b * dim + dim,
                    ) == seeds.subrange(b * dim, b * dim + dim)
                &&& forall|b: usize, j: int|
                    #![trigger members(buckets, b), centroids[b * dim + j]]
                    b < num_buckets && members(buckets, b).len() > 0 && 0 <= j < dim ==> mean_is(
                        math,
                        Seq::new(
                            members(buckets, b).len(),
                            |i: int| rows[members(buckets, b)[i]][j],
                        ),
                        centroids[b * dim + j],
                    )
            },
{
    let seeds = choose|first: Seq<u32>| #[trigger]
        seeded(num_buckets, dim, rows, first) && refined(
            math,
            num_buckets,
            dim,
            rows,
            first,
            centroids,
        );
    let buckets = choose|buckets: Seq<usize>|
        #[trigger] refined_by(math, num_buckets, dim, rows, seeds, buckets, centroids);
    assert forall|b: int| 0 <= b < num_buckets implies #[trigger] seeds.subrange(
        b * dim,
        b * dim + dim,
    ) == rows[b * (rows.len() / num_buckets)] by {
        assert(centroid(seeds, dim, b) == rows[seed_index(
            b,
            rows.len() as int,
            num_buckets as int,
        )]);
        assert(rows.len() as int / num_buckets as int == (rows.len() / num_buckets) as int);
    }
    assert forall|i: int| 0 <= i < rows.len() implies scores_best(
        math,
        rows[i],
        seeds,
        dim,
        num_buckets,
        #[trigger] buckets[i],
    ) by {
        law_assigned_scores_best(math, rows[i], seeds, dim, num_buckets, buckets[i]);
    }
    assert forall|b: usize|
        #![trigger members(buckets, b)]
        b < num_buckets && members(buckets, b).len() == 0 implies centroids.subrange(
        b * dim,
        b * dim + dim,
    ) == seeds.subrange(b * dim, b * dim + dim) by {
        assert(centroid(centroids, dim, b as int) == centroid(seeds, dim, b as int));
    }
    assert forall|b: usize, j: int|
        #![trigger members(buckets, b), centroids[b * dim + j]]
        b < num_buckets && members(buckets, b).len() > 0 && 0 <= j < dim implies mean_is(
        math,
        Seq::new(members(buckets, b).len(), |i: int| rows[members(buckets, b)[i]][j]),
        centroids[b * dim + j],
    ) by {
        let after = centroid(centroids, dim, b as int);
        lemma_bucket_range(b as int, num_buckets as int, dim as int);
        assert(after[j] == centroids[b * dim + j]);
        assert(mean_is(math, column(rows, members(buckets, b), j), after[j]));
        assert(column(rows, members(buckets, b), j) =~= Seq::new(
            members(buckets, b).len(),
            |i: int| rows[members(buckets, b)[i]][j],
        ));
    }
}

/// Bucket `b` has the best score for the row, and is the smallest one where several share it, as
/// far as the scores are numbers.
pub open spec fn scores_best<M: VectorMath>(
    math: M,
    row: Seq<u32>,
    centroids: Seq<u32>,
    dim: nat,
    num_buckets: nat,
    b: usize,
) -> bool {
    exists|scores: Seq<u32>|
        {
            &&& #[trigger] bucket_scores(math, row, centroids, dim, num_buckets, scores)
            &&& (forall|i: int| 0 <= i < scores.len() ==> !spec_is_nan(#[trigger] scores[i])) ==> {
                &&& b < scores.len()
                &&& forall|i: int|
                    0 <= i < scores.len() ==> !spec_gt(#[trigger] scores[i], scores[b as int])
                &&& forall|i: int| 0 <= i < b ==> spec_gt(scores[b as int], #[trigger] scores[i])
            }
        }
}

/// The bucket that a table gives a row while it is trained is the best one.
pub proof fn law_assigned_scores_best<M: VectorMath>(
    math: M,
    row: Seq<u32>,
    centroids: Seq<u32>,
    dim: nat,
    num_buckets: nat,
    b: usize,
)
    requires
        num_buckets > 0,
        assigned(math, row, centroids, dim, num_buckets, b),
    ensures
        scores_best(math, row, centroids, dim, num_buckets, b),
{
    let scores = choose|scores: Seq<u32>|
        #[trigger] bucket_scores(math, row, centroids, dim, num_buckets, scores) && is_choice(
            b,
            scores,
        );
    if forall|i: int| 0 <= i < scores.len() ==> !spec_is_nan(#[trigger] scores[i]) {
        law_choice_scores_best(b, scores);
    }
    assert(bucket_scores(math, row, centroids, dim, num_buckets, scores));
}

/// The bucket that is nearest to a row is the best one.
pub proof fn law_nearest_in_scores_best<M: VectorMath>(
    math: M,
    row: Seq<u32>,
    index: IvfView,
    dim: nat,
    b: usize,
)
    requires
        index.num_buckets > 0,
        nearest_in(math, row, index, dim, b),
    ensures
        scores_best(math, row, index.centroids, dim, index.num_buckets as nat, b),
{
    let scores = choose|scores: Seq<u32>|
        #[trigger] bucket_scores(
            math,
            row,
            index.centroids,
            dim,
            index.num_buckets as nat,
            scores,
        ) && is_nearest(b, scores);
    if forall|i: int| 0 <= i < scores.len() ==> !spec_is_nan(#[trigger] scores[i]) {
        law_nearest_scores_best(b, scores);
        assert forall|i: int| 0 <= i < b implies spec_gt(
            scores[b as int],
            #[trigger] scores[i],
        ) by {
            assert(i != b);
        }
        assert forall|i: int| 0 <= i < scores.len() implies !spec_gt(
            #[trigger] scores[i],
            scores[b as int],
        ) by {
            if i == b {
                assert(!spec_gt(scores[i], scores[i]));
            }
        }
    }
    assert(bucket_scores(
        math,
        row,
        index.centroids,
        dim,
        index.num_buckets as nat,
        scores,
    ));
}

/// What an index holds that was built over a list of rows: the settings asked for, a centroid for
/// each bucket, trained on these rows, and for each of them, and for nothing else, the bucket whose
/// centroid scores best.
pub proof fn law_built_index<M: VectorMath>(
    math: M,
    num_buckets: usize,
    probe_buckets: usize,
    dim: nat,
    words: Seq<u32>,
    offsets: Map<VectorId, u64>,
    ids: Seq<VectorId>,
    index: IvfView,
)
    requires
        num_buckets > 0,
        built(math, num_buckets, probe_buckets, dim, words, offsets, ids, index),
    ensures
        index.num_buckets == num_buckets,
        index.probe_buckets == probe_buckets,
        index.centroids.len() == num_buckets * dim,
        trained(
            math,
            num_buckets as nat,
            dim,
            Seq::new(ids.len(), |i: int| row_of(words, dim, offsets, ids[i])->Some_0),
            index.centroids,
        ),
        forall|id: VectorId| #[trigger]
            index.assignments.contains_key(id) <==> ids.contains(id),
        forall|id: VectorId|
            ids.contains(id) ==> (#[trigger] index.assignments[id]) < num_buckets && scores_best(
                math,
                row_of(words, dim, offsets, id)->Some_0,
                index.centroids,
                dim,
                num_buckets as nat,
                index.assignments[id],
            ),
{
    assert(rows_of(words, dim, offsets, ids) =~= Seq::new(
        ids.len(),
        |i: int| row_of(words, dim, offsets, ids[i])->Some_0,
    ));
    assert forall|id: VectorId| ids.contains(id) implies (#[trigger] index.assignments[id])
        < num_buckets && scores_best(
        math,
        row_of(words, dim, offsets, id)->Some_0,
        index.centroids,
        dim,
        num_buckets as nat,
        index.assignments[id],
    ) by {
        law_assigned_scores_best(
            math,
            row_of(words, dim, offsets, id)->Some_0,
            index.centroids,
            dim,
            num_buckets as nat,
            index.assignments[id],
        );
    }
}

/// Trains the buckets from live rows and assigns every row to one of them.
pub fn build_ivf_index<M: VectorMath>(
    math: &M,
    num_buckets: usize,
    probe_buckets: usize,
    dim: usize,
    live_ids: &Vec<VectorId>,
    vectors: &[u32],
    id_offsets: &HashMap<VectorId, u64>,
) -> (r: Result<IvfIndex, DbError>)
    ensures
        num_buckets == 0 ==> r == Err::<IvfIndex, DbError>(DbError::InvalidIvfBucketCount),
        num_buckets > live_ids@.len() ==> r == Err::<IvfIndex, DbError>(
            DbError::InsufficientVectorsForIvf {
                live: live_ids@.len() as usize,
                buckets: num_buckets,
            },
        ),
        0 < num_buckets <= live_ids@.len() ==> match r {
            Ok(index) => all_rows(vectors@, dim as nat, id_offsets@, live_ids@) && built(
                *math,
                num_buckets,
                probe_buckets,
                dim as nat,
                vectors@,
                id_offsets@,
                live_ids@,
                index@,
            ),
            Err(e) => lacks_row(
                vectors@,
                dim as nat,
                id_offsets@,
                live_ids@,
                num_buckets as nat,
                e,
            ),
        },
{
    if num_buckets == 0 {
        return Err(DbError::InvalidIvfBucketCount);
    }
    if live_ids.len() < num_buckets {
        return Err(
            DbError::InsufficientVectorsForIvf { live: live_ids.len(), buckets: num_buckets },
        );
    }
    let centroids = match train_centroids(math, num_buckets, dim, live_ids, vectors, id_offsets) {
        Ok(centroids) => centroids,
        Err(e) => {
            return Err(e);
        },
    };
    let mut assignments: HashMap<VectorId, usize> = HashMap::new();
    let mut i: usize = 0;
    while i < live_ids.len()
        invariant
            i <= live_ids@.len(),
            0 < num_buckets,
            centroids@.len() == num_buckets * dim,
            all_rows(vectors@, dim as nat, id_offsets@, live_ids@),
            forall|id: VectorId|
                #![trigger assignments@.contains_key(id)]
                assignments@.contains_key(id) <==> live_ids@.take(i as int).contains(id),
            forall|id: VectorId|
                #![trigger assignments@[id]]
                assignments@.contains_key(id) ==> assignments@[id] < num_buckets && assigned(
                    *math,
                    row_of(vectors@, dim as nat, id_offsets@, id)->Some_0,
                    centroids@,
                    dim as nat,
                    num_buckets as nat,
                    assignments@[id],
                ),
        decreases live_ids@.len() - i,
    {
        let id: VectorId = live_ids[i];
        proof {
            assert(live_ids@[i as int] == id);
            assert(live_ids@.take(i + 1) =~= live_ids@.take(i as int).push(id));
            lemma_push_has(live_ids@.take(i as int), id);
        }
        match read_vector(vectors, dim, id_offsets, id) {
            Err(e) => {
                return Err(e);
            },
            Ok(row) => {
                let bucket: usize = nearest_centroid(math, row, dim, &centroids, num_buckets);
                assignments.insert(id, bucket);
            },
        }
        i = i + 1;
    }
    assert(live_ids@.take(live_ids@.len() as int) =~= live_ids@);
    Ok(IvfIndex { num_buckets, probe_buckets, assignments, centroids })
}

/// The bytes of a centroid table as the centroid file holds them.
pub fn write_centroids(order: ByteOrder, centroids: &[u32]) -> (r: Vec<u8>)
    ensures
        r@ == bytes_of(order, centroids@),
{
    bytes_from_words(order, centroids)
}

/// A centroid table that was written with the least significant byte first is read back as it
/// was.
pub proof fn law_centroids_round_trip(centroids: Seq<u32>, num_buckets: usize, dim: usize)
    requires
        centroids.len() == num_buckets * dim,
    ensures
        bytes_of(ByteOrder::Little, centroids).len() == num_buckets * dim * 4,
        words_of(ByteOrder::Little, bytes_of(ByteOrder::Little, centroids)) == centroids,
{
    law_words_of_bytes_of(ByteOrder::Little, centroids);
}

/// Reads a centroid table from its bytes on disk, least significant byte first on every host.
pub fn read_centroids(bytes: &[u8], num_buckets: usize, dim: usize) -> (r: Result<
    Vec<u32>,
    DbError,
>)
    ensures
        match r {
            Ok(table) => bytes@.len() == num_buckets * dim * 4 && table@ == words_of(
                ByteOrder::Little,
                bytes@,
            ),
            Err(e) => bytes@.len() != num_buckets * dim * 4 && e == (DbError::InvalidVectorBytes {
                len: bytes@.len() as usize,
            }),
        },
{
    let len: usize = bytes.len();
    let whole: usize = len / 4;
    if len % 4 == 0 && product_is(num_buckets, dim, whole) {
        let table = read_words(ByteOrder::Little, bytes, 0, whole);
        assert(words_of(ByteOrder::Little, bytes@).subrange(0, whole as int) =~= words_of(
            ByteOrder::Little,
            bytes@,
        ));
        Ok(table)
    } else {
        Err(DbError::InvalidVectorBytes { len })
    }
}

/// Whether `a * b == c`, for every size of the factors.
pub(crate) fn product_is(a: usize, b: usize, c: usize) -> (r: bool)
    ensures
        r == (a * b == c),
{
    let product: u128 = wide_product(a, b);
    product == c as u128
}

/// The product of two sizes, which always fits.
pub(crate) fn wide_product(a: usize, b: usize) -> (r: u128)
    ensures
        r == a * b,
{
    assert(0 <= a * b <= 0xffff_ffff_ffff_ffff * 0xffff_ffff_ffff_ffff) by (nonlinear_arith)
        requires
            0 <= a <= 0xffff_ffff_ffff_ffff,
            0 <= b <= 0xffff_ffff_ffff_ffff,
    ;
    (a as u128) * (b as u128)
}

} // verus!
