//! Ranking by score: the best few of many candidates.

use vstd::prelude::*;

use crate::bits::{bits_gt, spec_gt, spec_is_nan};

verus! {

/// A candidate with its score, a single-precision bit pattern.
#[derive(Debug, Clone, Copy, PartialEq, Eq)]
pub struct Scored {
    pub id: u64,
    pub score: u32,
}

/// `a` ranks before `b`: a greater score, or no smaller one and a smaller id. What is not a number
/// is neither greater nor smaller than anything, so there the id decides.
pub open spec fn before(a: Scored, b: Scored) -> bool {
    spec_gt(a.score, b.score) || (!spec_gt(b.score, a.score) && a.id < b.id)
}

/// Ranking is an order on these candidates. It is one on numbers; numbers mixed with what is not a
/// number can rank in a circle.
pub open spec fn orderly(all: Seq<Scored>) -> bool {
    forall|a: Scored, b: Scored, c: Scored|
        #![trigger before(a, b), before(b, c)]
        all.contains(a) && all.contains(b) && all.contains(c) && !before(a, b) && !before(b, c)
            ==> !before(a, c)
}

/// Candidates whose scores are numbers rank in an order.
pub proof fn law_numbers_are_orderly(all: Seq<Scored>)
    requires
        forall|i: int| 0 <= i < all.len() ==> !spec_is_nan((#[trigger] all[i]).score),
    ensures
        orderly(all),
{
}

/// Best first.
pub open spec fn best_first(s: Seq<Scored>) -> bool {
    forall|i: int, j: int| 0 <= i < j < s.len() ==> !before(#[trigger] s[j], #[trigger] s[i])
}

/// `x` occurs more often among the candidates than among the hits.
pub open spec fn passed_over(hits: Seq<Scored>, all: Seq<Scored>, x: Scored) -> bool {
    hits.to_multiset().count(x) < all.to_multiset().count(x)
}

/// `hits` are the `k` best of `all`, best first: every hit is a candidate, and no candidate that
/// was passed over ranks before a hit. Where ranking is no order, they are `k` of the candidates.
pub open spec fn is_top(hits: Seq<Scored>, all: Seq<Scored>, k: nat) -> bool {
    &&& hits.len() == if k <= all.len() {
        k
    } else {
        all.len()
    }
    &&& hits.to_multiset().subset_of(all.to_multiset())
    &&& orderly(all) ==> best_first(hits) && none_better(hits, all)
}

/// No candidate that was passed over ranks before a hit.
pub open spec fn none_better(hits: Seq<Scored>, all: Seq<Scored>) -> bool {
    forall|x: Scored, i: int|
        #![trigger passed_over(hits, all, x), hits[i]]
        passed_over(hits, all, x) && 0 <= i < hits.len() ==> !before(x, hits[i])
}

fn ranks_before(a: Scored, b: Scored) -> (r: bool)
    ensures
        r == before(a, b),
{
    bits_gt(a.score, b.score) || (!bits_gt(b.score, a.score) && a.id < b.id)
}

/// A hit is a candidate.
pub(crate) proof fn lemma_hit_is_candidate(hits: Seq<Scored>, all: Seq<Scored>, k: nat, i: int)
    requires
        is_top(hits, all, k),
        0 <= i < hits.len(),
    ensures
        all.contains(hits[i]),
{
    broadcast use vstd::seq_lib::group_to_multiset_ensures;

    assert(hits.contains(hits[i]));
    assert(hits.to_multiset().count(hits[i]) <= all.to_multiset().count(hits[i]));
}

/// Candidates of which some are taken away rank as before.
proof fn lemma_fewer_orderly(all: Seq<Scored>, x: Scored)
    requires
        orderly(all.push(x)),
    ensures
        orderly(all),
{
    assert forall|y: Scored| #[trigger] all.contains(y) implies all.push(x).contains(y) by {
        let i = choose|i: int| 0 <= i < all.len() && all[i] == y;
        assert(all.push(x)[i] == y);
    }
}

/// While there are no more than `k` candidates, all of them are hits.
pub(crate) proof fn lemma_top_of_few(hits: Seq<Scored>, all: Seq<Scored>, k: nat)
    requires
        is_top(hits, all, k),
        all.len() <= k,
    ensures
        hits.to_multiset() == all.to_multiset(),
{
    broadcast use vstd::seq_lib::group_to_multiset_ensures;

    let h = hits.to_multiset();
    let a = all.to_multiset();
    let d = a.sub(h);
    assert(d.len() == 0);
    assert forall|x: Scored| h.count(x) == a.count(x) by {
        assert(d.count(x) <= d.len());
    }
    assert(h =~= a);
}

proof fn lemma_insert_best_first(hits: Seq<Scored>, all: Seq<Scored>, at: int, x: Scored)
    requires
        orderly(all),
        all.contains(x),
        forall|i: int| 0 <= i < hits.len() ==> all.contains(#[trigger] hits[i]),
        best_first(hits),
        0 <= at <= hits.len(),
        forall|i: int| 0 <= i < at ==> !before(x, hits[i]),
        at < hits.len() ==> before(x, hits[at]),
    ensures
        best_first(hits.insert(at, x)),
{
    let s = hits.insert(at, x);
    assert forall|i: int, j: int| 0 <= i < j < s.len() implies !before(
        #[trigger] s[j],
        #[trigger] s[i],
    ) by {
        if i == at {
            assert(s[j] == hits[j - 1]);
            assert(!before(hits[at], x));
            if j - 1 > at {
                assert(!before(hits[j - 1], hits[at]));
                assert(all.contains(hits[j - 1]) && all.contains(hits[at]));
            }
        } else if j == at {
            assert(s[i] == hits[i]);
        } else {
            let a = if i < at {
                i
            } else {
                i - 1
            };
            let b = if j < at {
                j
            } else {
                j - 1
            };
            assert(s[i] == hits[a] && s[j] == hits[b]);
        }
    }
}

/// Where one more candidate goes: behind the last hit that it does not rank before.
spec fn has_place(hits: Seq<Scored>, at: int, x: Scored) -> bool {
    &&& 0 <= at <= hits.len()
    &&& at > 0 ==> !before(x, hits[at - 1])
    &&& at < hits.len() ==> before(x, hits[at])
}

proof fn lemma_place(hits: Seq<Scored>, all: Seq<Scored>, k: nat, at: int, x: Scored)
    requires
        is_top(hits, all, k),
        has_place(hits, at, x),
        orderly(all.push(x)),
    ensures
        orderly(all),
        best_first(hits),
        none_better(hits, all),
        all.push(x).contains(x),
        forall|y: Scored| #[trigger] all.contains(y) ==> all.push(x).contains(y),
        forall|i: int| 0 <= i < hits.len() ==> all.push(x).contains(#[trigger] hits[i]),
        forall|i: int| 0 <= i < at ==> !before(x, hits[i]),
{
    let next = all.push(x);
    lemma_fewer_orderly(all, x);
    assert(next[all.len() as int] == x);
    assert forall|y: Scored| #[trigger] all.contains(y) implies next.contains(y) by {
        let i = choose|i: int| 0 <= i < all.len() && all[i] == y;
        assert(next[i] == y);
    }
    assert forall|i: int| 0 <= i < hits.len() implies next.contains(#[trigger] hits[i]) by {
        lemma_hit_is_candidate(hits, all, k, i);
    }
    assert forall|i: int| 0 <= i < at implies !before(x, hits[i]) by {
        if i < at - 1 {
            assert(!before(hits[at - 1], hits[i]));
            assert(next.contains(hits[at - 1]) && next.contains(hits[i]));
        }
    }
}

/// One more candidate, inserted in its place among the hits, while there is room.
proof fn lemma_top_insert(hits: Seq<Scored>, all: Seq<Scored>, k: nat, at: int, x: Scored)
    requires
        is_top(hits, all, k),
        hits.len() < k,
        has_place(hits, at, x),
    ensures
        is_top(hits.insert(at, x), all.push(x), k),
{
    broadcast use vstd::seq_lib::group_to_multiset_ensures;

    lemma_top_of_few(hits, all, k);
    vstd::seq_lib::to_multiset_insert(hits, at, x);
    vstd::seq_lib::to_multiset_build(all, x);
    if orderly(all.push(x)) {
        lemma_place(hits, all, k, at, x);
        lemma_insert_best_first(hits, all.push(x), at, x);
    }
}

/// One more candidate when there is no room: it takes its place and the last hit leaves, or it is
/// itself passed over.
proof fn lemma_top_replace(hits: Seq<Scored>, all: Seq<Scored>, k: nat, at: int, x: Scored)
    requires
        is_top(hits, all, k),
        hits.len() == k,
        has_place(hits, at, x),
    ensures
        is_top(
            if at < hits.len() {
                hits.insert(at, x).drop_last()
            } else {
                hits
            },
            all.push(x),
            k,
        ),
{
    broadcast use vstd::seq_lib::group_to_multiset_ensures;

    vstd::seq_lib::to_multiset_build(all, x);
    let next = all.push(x);
    if orderly(next) {
        lemma_place(hits, all, k, at, x);
    }
    if at < hits.len() {
        let wide = hits.insert(at, x);
        let out = hits.last();
        vstd::seq_lib::to_multiset_insert(hits, at, x);
        let kept = wide.drop_last();
        assert(kept =~= wide.remove(wide.len() - 1));
        vstd::seq_lib::to_multiset_remove(wide, wide.len() - 1);
        assert(wide.last() == out);
        let hm = hits.to_multiset();
        assert(hm.count(out) > 0) by {
            assert(hits[hits.len() - 1] == out);
            assert(hits.contains(out));
        }
        assert forall|y: Scored| kept.to_multiset().count(y) <= next.to_multiset().count(y) by {
            assert(hm.count(y) <= all.to_multiset().count(y));
        }
        if orderly(next) {
            lemma_insert_best_first(hits, next, at, x);
            assert forall|i: int, j: int| 0 <= i < j < kept.len() implies !before(
                #[trigger] kept[j],
                #[trigger] kept[i],
            ) by {
                assert(kept[i] == wide[i] && kept[j] == wide[j]);
            }
            assert forall|y: Scored, i: int|
                #![trigger passed_over(kept, next, y), kept[i]]
                passed_over(kept, next, y) && 0 <= i < kept.len() implies !before(y, kept[i]) by {
                assert(kept[i] == wide[i]);
                if y == out && !passed_over(hits, all, y) {
                    assert(wide[wide.len() - 1] == out);
                    assert(!before(wide[wide.len() - 1], wide[i]));
                } else {
                    assert(passed_over(hits, all, y)) by {
                        if y != out {
                            assert(kept.to_multiset().count(y) == wide.to_multiset().count(y));
                        }
                    }
                    assert(all.contains(y));
                    if i == at {
                        assert(!before(y, hits[at]));
                        assert(!before(hits[at], x));
                        assert(next.contains(hits[at]));
                    } else if i < at {
                        assert(wide[i] == hits[i]);
                    } else {
                        assert(wide[i] == hits[i - 1]);
                    }
                }
            }
        }
    } else {
        assert forall|y: Scored| hits.to_multiset().count(y) <= next.to_multiset().count(y) by {
            assert(hits.to_multiset().count(y) <= all.to_multiset().count(y));
        }
        if orderly(next) {
            assert forall|y: Scored, i: int|
                #![trigger passed_over(hits, next, y), hits[i]]
                passed_over(hits, next, y) && 0 <= i < hits.len() implies !before(y, hits[i]) by {
                if y != x {
                    assert(passed_over(hits, all, y));
                }
            }
        }
    }
}

/// Offers one more candidate to the `k` best so far.
pub fn push_candidate(heap: &mut Vec<Scored>, k: usize, candidate: Scored)
    requires
        old(heap)@.len() <= k,
    ensures
        forall|all: Seq<Scored>|
            #![trigger is_top(old(heap)@, all, k as nat)]
            is_top(old(heap)@, all, k as nat) ==> is_top(
                final(heap)@,
                all.push(candidate),
                k as nat,
            ),
{
    let mut at: usize = heap.len();
    while at > 0 && ranks_before(candidate, heap[at - 1])
        invariant
            at <= heap@.len(),
            heap@ == old(heap)@,
            at < heap@.len() ==> before(candidate, heap@[at as int]),
        decreases at,
    {
        at = at - 1;
    }
    let ghost hits = heap@;
    if heap.len() < k {
        heap.insert(at, candidate);
        proof {
            assert forall|all: Seq<Scored>|
                #![trigger is_top(hits, all, k as nat)]
                is_top(hits, all, k as nat) implies is_top(
                heap@,
                all.push(candidate),
                k as nat,
            ) by {
                lemma_top_insert(hits, all, k as nat, at as int, candidate);
            }
        }
    } else if at < heap.len() {
        heap.insert(at, candidate);
        heap.pop();
        proof {
            assert forall|all: Seq<Scored>|
                #![trigger is_top(hits, all, k as nat)]
                is_top(hits, all, k as nat) implies is_top(
                heap@,
                all.push(candidate),
                k as nat,
            ) by {
                lemma_top_replace(hits, all, k as nat, at as int, candidate);
            }
        }
    } else {
        proof {
            assert forall|all: Seq<Scored>|
                #![trigger is_top(hits, all, k as nat)]
                is_top(hits, all, k as nat) implies is_top(
                heap@,
                all.push(candidate),
                k as nat,
            ) by {
                lemma_top_replace(hits, all, k as nat, at as int, candidate);
            }
        }
    }
}

/// The `k` best candidates, best first.
pub fn top_candidates(all: &Vec<Scored>, k: usize) -> (r: Vec<Scored>)
    ensures
        is_top(r@, all@, k as nat),
{
    let mut heap: Vec<Scored> = Vec::new();
    let mut i: usize = 0;
    assert(is_top(heap@, all@.take(0), k as nat)) by {
        broadcast use vstd::seq_lib::group_to_multiset_ensures;

        assert(all@.take(0) =~= heap@);
    }
    while i < all.len()
        invariant
            i <= all@.len(),
            is_top(heap@, all@.take(i as int), k as nat),
        decreases all@.len() - i,
    {
        push_candidate(&mut heap, k, all[i]);
        assert(all@.take(i + 1) =~= all@.take(i as int).push(all@[i as int]));
        i = i + 1;
    }
    assert(all@.take(all@.len() as int) =~= all@);
    heap
}

/// The `k` best of candidates whose scores are numbers. There are `k` of them, or all where there
/// are fewer. No score stands behind a smaller one, and of equal scores the smaller id stands
/// first. Every hit is a candidate, as often as it is one, and a candidate that is no hit has no
/// greater score than any hit, nor the same score and a smaller id.
pub proof fn law_best_few(hits: Seq<Scored>, all: Seq<Scored>, k: nat)
    requires
        is_top(hits, all, k),
        forall|i: int| 0 <= i < all.len() ==> !spec_is_nan((#[trigger] all[i]).score),
    ensures
        hits.len() == if all.len() <= k {
            all.len()
        } else {
            k
        },
        forall|i: int, j: int|
            0 <= i < j < hits.len() ==> !spec_gt(
                (#[trigger] hits[j]).score,
                (#[trigger] hits[i]).score,
            ) && (spec_gt(hits[i].score, hits[j].score) || hits[i].id <= hits[j].id),
        forall|i: int| 0 <= i < hits.len() ==> all.contains(#[trigger] hits[i]),
        forall|x: Scored| #[trigger] hits.to_multiset().count(x) <= all.to_multiset().count(x),
        forall|x: Scored, i: int|
            #![trigger all.contains(x), hits[i]]
            all.contains(x) && !hits.contains(x) && 0 <= i < hits.len() ==> !spec_gt(
                x.score,
                hits[i].score,
            ) && (spec_gt(hits[i].score, x.score) || hits[i].id <= x.id),
{
    broadcast use vstd::seq_lib::group_to_multiset_ensures;

    law_numbers_are_orderly(all);
    assert forall|i: int| 0 <= i < hits.len() implies all.contains(#[trigger] hits[i]) by {
        lemma_hit_is_candidate(hits, all, k, i);
    }
    assert forall|i: int, j: int| 0 <= i < j < hits.len() implies !spec_gt(
        (#[trigger] hits[j]).score,
        (#[trigger] hits[i]).score,
    ) && (spec_gt(hits[i].score, hits[j].score) || hits[i].id <= hits[j].id) by {
        assert(!before(hits[j], hits[i]));
    }
    assert forall|x: Scored, i: int|
        #![trigger all.contains(x), hits[i]]
        all.contains(x) && !hits.contains(x) && 0 <= i < hits.len() implies !spec_gt(
        x.score,
        hits[i].score,
    ) && (spec_gt(hits[i].score, x.score) || hits[i].id <= x.id) by {
        assert(hits.to_multiset().count(x) == 0);
        assert(all.to_multiset().count(x) > 0);
        assert(passed_over(hits, all, x));
        assert(!before(x, hits[i]));
    }
}

/// Where no candidate has a greater score than another, whether all scores are equal or none is a
/// number, the ids alone decide: the best are those with the smallest ids, in ascending order.
pub proof fn law_ids_decide_ties(hits: Seq<Scored>, all: Seq<Scored>, k: nat)
    requires
        is_top(hits, all, k),
        forall|i: int, j: int|
            0 <= i < all.len() && 0 <= j < all.len() ==> !spec_gt(
                (#[trigger] all[i]).score,
                (#[trigger] all[j]).score,
            ),
    ensures
        forall|i: int, j: int|
            0 <= i < j < hits.len() ==> (#[trigger] hits[i]).id <= (#[trigger] hits[j]).id,
        forall|x: Scored, i: int|
            #![trigger all.contains(x), hits[i]]
            all.contains(x) && !hits.contains(x) && 0 <= i < hits.len() ==> hits[i].id <= x.id,
{
    broadcast use vstd::seq_lib::group_to_multiset_ensures;

    assert forall|a: Scored, b: Scored| all.contains(a) && all.contains(b) implies (
    #[trigger] before(a, b) <==> a.id < b.id) by {
        let i = choose|i: int| 0 <= i < all.len() && all[i] == a;
        let j = choose|j: int| 0 <= j < all.len() && all[j] == b;
        assert(!spec_gt(all[i].score, all[j].score) && !spec_gt(all[j].score, all[i].score));
    }
    assert(orderly(all));
    assert forall|i: int| 0 <= i < hits.len() implies all.contains(#[trigger] hits[i]) by {
        lemma_hit_is_candidate(hits, all, k, i);
    }
    assert forall|i: int, j: int| 0 <= i < j < hits.len() implies (#[trigger] hits[i]).id <= (
    #[trigger] hits[j]).id by {
        assert(!before(hits[j], hits[i]));
    }
    assert forall|x: Scored, i: int|
        #![trigger all.contains(x), hits[i]]
        all.contains(x) && !hits.contains(x) && 0 <= i < hits.len() implies hits[i].id <= x.id by {
        assert(hits.to_multiset().count(x) == 0);
        assert(all.to_multiset().count(x) > 0);
        assert(passed_over(hits, all, x));
        assert(!before(x, hits[i]));
    }
}

/// No two candidates share an id.
pub open spec fn distinct_ids(s: Seq<Scored>) -> bool {
    forall|i: int, j: int| 0 <= i < j < s.len() ==> (#[trigger] s[i]).id != (#[trigger] s[j]).id
}

/// Candidates with distinct ids that rank in an order have exactly one list of `k` best: the result
/// of a ranking does not depend on the order in which the candidates came.
pub proof fn law_top_is_unique(left: Seq<Scored>, right: Seq<Scored>, all: Seq<Scored>, k: nat)
    requires
        orderly(all),
        distinct_ids(all),
        is_top(left, all, k),
        is_top(right, all, k),
    ensures
        left == right,
{
    broadcast use vstd::seq_lib::group_to_multiset_ensures;

    let l = left.to_multiset();
    let r = right.to_multiset();
    assert forall|x: Scored| l.count(x) == r.count(x) by {
        lemma_same_hits(left, right, all, k, x);
        lemma_same_hits(right, left, all, k, x);
    }
    assert(l =~= r);
    assert forall|x: Scored| left.contains(x) implies #[trigger] all.contains(x) by {
        let i = choose|i: int| 0 <= i < left.len() && left[i] == x;
        lemma_hit_is_candidate(left, all, k, i);
    }
    lemma_one_order(left, right, all);
}

/// Candidates with distinct ids stand in one order, best first.
proof fn lemma_one_order(left: Seq<Scored>, right: Seq<Scored>, all: Seq<Scored>)
    requires
        distinct_ids(all),
        best_first(left),
        best_first(right),
        left.to_multiset() == right.to_multiset(),
        forall|x: Scored| left.contains(x) ==> #[trigger] all.contains(x),
    ensures
        left == right,
    decreases left.len(),
{
    broadcast use vstd::seq_lib::group_to_multiset_ensures;

    assert(left.len() == left.to_multiset().len() && right.len() == right.to_multiset().len());
    if left.len() == 0 {
        assert(left =~= right);
    } else {
        let a = left.last();
        let b = right.last();
        assert(left[left.len() - 1] == a && right[right.len() - 1] == b);
        assert(left.contains(a) && right.contains(b));
        assert(right.to_multiset().count(a) > 0 && left.to_multiset().count(b) > 0);
        assert(right.contains(a) && left.contains(b));
        if a != b {
            let i = choose|i: int| 0 <= i < left.len() && left[i] == b;
            let j = choose|j: int| 0 <= j < right.len() && right[j] == a;
            assert(!before(left[left.len() - 1], left[i]));
            assert(!before(right[right.len() - 1], right[j]));
            assert(all.contains(a) && all.contains(b));
            let p = choose|p: int| 0 <= p < all.len() && all[p] == a;
            let q = choose|q: int| 0 <= q < all.len() && all[q] == b;
            if p < q {
                assert(all[p].id != all[q].id);
            } else {
                assert(all[q].id != all[p].id);
            }
        }
        let l = left.drop_last();
        let r = right.drop_last();
        assert(l =~= left.remove(left.len() - 1) && r =~= right.remove(right.len() - 1));
        vstd::seq_lib::to_multiset_remove(left, left.len() - 1);
        vstd::seq_lib::to_multiset_remove(right, right.len() - 1);
        assert(l.to_multiset() =~= r.to_multiset());
        assert forall|x: Scored| l.contains(x) implies #[trigger] all.contains(x) by {
            let i = choose|i: int| 0 <= i < l.len() && l[i] == x;
            assert(left[i] == x);
            assert(left.contains(x));
        }
        assert forall|i: int, j: int| 0 <= i < j < l.len() implies !before(
            #[trigger] l[j],
            #[trigger] l[i],
        ) by {
            assert(!before(left[j], left[i]));
        }
        assert forall|i: int, j: int| 0 <= i < j < r.len() implies !before(
            #[trigger] r[j],
            #[trigger] r[i],
        ) by {
            assert(!before(right[j], right[i]));
        }
        lemma_one_order(l, r, all);
        assert(left =~= l.push(a) && right =~= r.push(b));
    }
}

/// No candidate can be a hit on one side only.
proof fn lemma_same_hits(
    left: Seq<Scored>,
    right: Seq<Scored>,
    all: Seq<Scored>,
    k: nat,
    x: Scored,
)
    requires
        orderly(all),
        distinct_ids(all),
        is_top(left, all, k),
        is_top(right, all, k),
    ensures
        left.to_multiset().count(x) <= right.to_multiset().count(x),
{
    broadcast use vstd::seq_lib::group_to_multiset_ensures;

    let l = left.to_multiset();
    let r = right.to_multiset();
    let a = all.to_multiset();
    if l.count(x) > r.count(x) {
        // Both lists are equally long, so the right one has a hit that the left one lacks.
        if !exists|y: Scored| r.count(y) > l.count(y) {
            assert forall|y: Scored| r.count(y) <= l.count(y) by {
                assert(!(r.count(y) > l.count(y)));
            }
            let d = l.sub(r);
            assert(d.len() == 0);
            assert(d.count(x) <= d.len());
        }
        let y = choose|y: Scored| r.count(y) > l.count(y);
        assert(r.count(y) <= a.count(y));
        assert(l.count(x) <= a.count(x));
        assert(passed_over(left, all, y));
        assert(passed_over(right, all, x));
        assert(left.contains(x));
        assert(right.contains(y));
        let i = choose|i: int| 0 <= i < left.len() && left[i] == x;
        let j = choose|j: int| 0 <= j < right.len() && right[j] == y;
        assert(!before(y, left[i]));
        assert(!before(x, right[j]));
        lemma_hit_is_candidate(left, all, k, i);
        lemma_hit_is_candidate(right, all, k, j);
        let p = choose|p: int| 0 <= p < all.len() && all[p] == x;
        let q = choose|q: int| 0 <= q < all.len() && all[q] == y;
        assert(p != q);
        if p < q {
            assert(all[p].id != all[q].id);
        } else {
            assert(all[q].id != all[p].id);
        }
    }
}

} // verus!
