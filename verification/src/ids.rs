//! Lists of the ids that a hash map or a hash set holds.

use std::collections::{HashMap, HashSet};

use vstd::prelude::*;

use crate::types::VectorId;

verus! {

broadcast use vstd::std_specs::hash::group_hash_axioms;

/// `list` names every element of `set` once, in some order.
pub open spec fn lists_set(list: Seq<VectorId>, set: Set<VectorId>) -> bool {
    list.no_duplicates() && forall|id: VectorId| #[trigger] list.contains(id) <==> set.contains(id)
}

/// The elements of a set, in no particular order.
pub(crate) fn set_ids(set: &HashSet<VectorId>) -> (r: Vec<VectorId>)
    ensures
        lists_set(r@, set@),
{
    broadcast use lemma_lists_all;

    let mut ids: Vec<VectorId> = Vec::new();
    for id in it: set.iter()
        invariant
            it.seq().unref().to_set() == set@,
            it.seq().no_duplicates(),
            ids@ == it.seq().unref().take(it.index()),
            it.index() == it.seq().len() ==> lists_set(ids@, set@),
    {
        ids.push(*id);
        assert(ids@ =~= it.seq().unref().take(it.index() + 1));
        assert(it.index() + 1 == it.seq().len() ==> ids@ =~= it.seq().unref());
        assert(lists_set(it.seq().unref(), set@));
    }
    ids
}

broadcast proof fn lemma_lists_all(refs: Seq<&VectorId>, set: Set<VectorId>)
    requires
        refs.unref().to_set() == set,
        refs.no_duplicates(),
    ensures
        #[trigger] lists_set(refs.unref(), set),
{
    let all = refs.unref();
    assert forall|i: int, j: int| 0 <= i < all.len() && 0 <= j < all.len() && i != j implies all[i]
        != all[j] by {
        assert(refs[i] != refs[j]);
        assert(all[i] == *refs[i] && all[j] == *refs[j]);
    }
    assert forall|id: VectorId| #[trigger] all.contains(id) <==> set.contains(id) by {
        assert(all.to_set().contains(id) <==> all.contains(id));
    }
}

/// The keys of a map, in no particular order.
pub(crate) fn map_ids<V>(map: &HashMap<VectorId, V>) -> (r: Vec<VectorId>)
    ensures
        lists_set(r@, map@.dom()),
{
    broadcast use lemma_lists_all;

    let mut ids: Vec<VectorId> = Vec::new();
    for id in it: map.keys()
        invariant
            it.seq().unref().to_set() == map@.dom(),
            it.seq().no_duplicates(),
            ids@ == it.seq().unref().take(it.index()),
            it.index() == it.seq().len() ==> lists_set(ids@, map@.dom()),
    {
        ids.push(*id);
        assert(ids@ =~= it.seq().unref().take(it.index() + 1));
        assert(it.index() + 1 == it.seq().len() ==> ids@ =~= it.seq().unref());
        assert(lists_set(it.seq().unref(), map@.dom()));
    }
    ids
}

pub(crate) proof fn lemma_push_has(s: Seq<VectorId>, x: VectorId)
    ensures
        forall|y: VectorId| #[trigger] s.push(x).contains(y) <==> s.contains(y) || y == x,
{
    assert forall|y: VectorId| #[trigger] s.push(x).contains(y) <==> s.contains(y) || y == x by {
        if s.contains(y) {
            let p = choose|p: int| 0 <= p < s.len() && s[p] == y;
            assert(s.push(x)[p] == y);
        }
        if y == x {
            assert(s.push(x)[s.len() as int] == y);
        }
    }
}

} // verus!
