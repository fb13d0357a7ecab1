//! Inverted posting lists for scoped search.

use std::collections::HashSet;

use vstd::prelude::*;

use crate::ids::{lemma_push_has, set_ids};
use crate::text::starts_with;
use crate::types::{ChunkRecord, VectorId};

verus! {

broadcast use vstd::std_specs::hash::group_hash_axioms;

/// What a posting map says: the ids listed under each key, in the order in which they came.
pub type Lists = Map<Seq<char>, Seq<VectorId>>;

/// The ids that are listed under one key.
#[derive(Debug)]
pub struct Posting {
    pub key: String,
    pub ids: Vec<VectorId>,
}

impl Clone for Posting {
    fn clone(&self) -> (r: Self)
        ensures
            r.key@ == self.key@,
            r.ids@ == self.ids@,
    {
        Posting { key: self.key.clone(), ids: self.ids.clone() }
    }
}

/// A map from keys to posting lists.
#[derive(Debug)]
pub struct PostingMap {
    entries: Vec<Posting>,
}

/// The index of the entry for `key`.
pub open spec fn holds_key(entries: Seq<Posting>, key: Seq<char>, i: int) -> bool {
    0 <= i < entries.len() && entries[i].key@ == key
}

/// What a sequence of entries says, a later entry taking precedence over an earlier one.
pub open spec fn entry_lists(entries: Seq<Posting>) -> Lists
    decreases entries.len(),
{
    if entries.len() == 0 {
        Map::empty()
    } else {
        entry_lists(entries.drop_last()).insert(entries.last().key@, entries.last().ids@)
    }
}

/// No key occurs twice.
pub open spec fn distinct_keys(entries: Seq<Posting>) -> bool {
    forall|i: int, j: int|
        0 <= i < j < entries.len() ==> (#[trigger] entries[i]).key@ != (#[trigger] entries[j]).key@
}

proof fn lemma_entry_lists(entries: Seq<Posting>)
    requires
        distinct_keys(entries),
    ensures
        forall|i: int|
            0 <= i < entries.len() ==> entry_lists(entries).contains_key(
                (#[trigger] entries[i]).key@,
            ) && entry_lists(entries)[entries[i].key@] == entries[i].ids@,
        forall|key: Seq<char>|
            #[trigger] entry_lists(entries).contains_key(key) ==> exists|i: int|
                holds_key(entries, key, i),
    decreases entries.len(),
{
    if entries.len() > 0 {
        let head = entries.drop_last();
        assert forall|i: int, j: int| 0 <= i < j < head.len() implies (#[trigger] head[i]).key@
            != (#[trigger] head[j]).key@ by {
            assert(entries[i].key@ != entries[j].key@);
        }
        lemma_entry_lists(head);
        assert forall|i: int| 0 <= i < entries.len() implies entry_lists(entries).contains_key(
            (#[trigger] entries[i]).key@,
        ) && entry_lists(entries)[entries[i].key@] == entries[i].ids@ by {
            if i < head.len() {
                assert(head[i] == entries[i]);
                assert(entries[i].key@ != entries[entries.len() - 1].key@);
            }
        }
        assert forall|key: Seq<char>| #[trigger] entry_lists(entries).contains_key(
            key,
        ) implies exists|i: int| holds_key(entries, key, i) by {
            if key == entries.last().key@ {
                assert(holds_key(entries, key, entries.len() - 1));
            } else {
                assert(entry_lists(head).contains_key(key));
                let i = choose|i: int| holds_key(head, key, i);
                assert(holds_key(entries, key, i));
            }
        }
    }
}

/// What a sequence of entries says of a key: something exactly where some entry has the key, and
/// then the list of the last such entry.
pub proof fn law_last_list_counts(entries: Seq<Posting>, key: Seq<char>, i: int)
    ensures
        entry_lists(entries).contains_key(key) <==> exists|j: int|
            0 <= j < entries.len() && (#[trigger] entries[j]).key@ == key,
        0 <= i < entries.len() && entries[i].key@ == key && (forall|j: int|
            i < j < entries.len() ==> (#[trigger] entries[j]).key@ != key) ==> entry_lists(
            entries,
        )[key] == entries[i].ids@,
    decreases entries.len(),
{
    if entries.len() > 0 {
        let fewer = entries.drop_last();
        law_last_list_counts(fewer, key, i);
        assert(entries[entries.len() - 1] == entries.last());
        if entries.last().key@ != key {
            if entry_lists(fewer).contains_key(key) {
                let j = choose|j: int| 0 <= j < fewer.len() && (#[trigger] fewer[j]).key@ == key;
                assert(entries[j] == fewer[j]);
            }
            if exists|j: int| 0 <= j < entries.len() && (#[trigger] entries[j]).key@ == key {
                let j = choose|j: int|
                    0 <= j < entries.len() && (#[trigger] entries[j]).key@ == key;
                assert(fewer[j] == entries[j]);
            }
        }
        if 0 <= i < fewer.len() {
            assert(fewer[i] == entries[i]);
            if forall|j: int| i < j < entries.len() ==> (#[trigger] entries[j]).key@ != key {
                assert forall|j: int| i < j < fewer.len() implies (#[trigger] fewer[j]).key@
                    != key by {
                    assert(fewer[j] == entries[j]);
                }
            }
        }
    }
}

/// Two sequences of entries that agree key by key say the same.
proof fn lemma_same_lists(entries: Seq<Posting>, lists: Lists)
    requires
        distinct_keys(entries),
        forall|i: int|
            0 <= i < entries.len() ==> lists.contains_key((#[trigger] entries[i]).key@)
                && lists[entries[i].key@] == entries[i].ids@,
        forall|key: Seq<char>|
            #[trigger] lists.contains_key(key) ==> exists|i: int| holds_key(entries, key, i),
    ensures
        entry_lists(entries) == lists,
{
    lemma_entry_lists(entries);
    let said = entry_lists(entries);
    assert forall|key: Seq<char>| said.contains_key(key) <==> lists.contains_key(key) by {
        if said.contains_key(key) {
            let i = choose|i: int| holds_key(entries, key, i);
            assert(lists.contains_key(entries[i].key@));
        }
        if lists.contains_key(key) {
            let i = choose|i: int| holds_key(entries, key, i);
            assert(said.contains_key(entries[i].key@));
        }
    }
    assert forall|key: Seq<char>| said.contains_key(key) implies said[key] == lists[key] by {
        let i = choose|i: int| holds_key(entries, key, i);
        assert(said[entries[i].key@] == entries[i].ids@);
        assert(lists[entries[i].key@] == entries[i].ids@);
    }
    assert(said =~= lists);
}

impl View for PostingMap {
    type V = Lists;

    closed spec fn view(&self) -> Lists {
        entry_lists(self.entries@)
    }
}

impl PostingMap {
    /// Every key has one list.
    pub closed spec fn wf(self) -> bool {
        distinct_keys(self.entries@)
    }

    pub fn new() -> (r: Self)
        ensures
            r.wf(),
            r@ == Map::<Seq<char>, Seq<VectorId>>::empty(),
    {
        PostingMap { entries: Vec::new() }
    }

    /// All lists with their keys, each key once.
    pub fn entries(&self) -> (r: &Vec<Posting>)
        requires
            self.wf(),
        ensures
            distinct_keys(r@),
            entry_lists(r@) == self@,
    {
        &self.entries
    }

    /// Collects lists into a map, a later list replacing an earlier one of the same key.
    pub fn from_entries(entries: Vec<Posting>) -> (r: Self)
        ensures
            r.wf(),
            r@ == entry_lists(entries@),
    {
        let mut map = PostingMap::new();
        let mut i: usize = 0;
        assert(entries@.take(0) =~= Seq::<Posting>::empty());
        while i < entries.len()
            invariant
                i <= entries@.len(),
                map.wf(),
                map@ == entry_lists(entries@.take(i as int)),
            decreases entries@.len() - i,
        {
            let entry = entries[i].clone();
            map.set(entry.key, entry.ids);
            assert(entries@.take(i + 1).drop_last() =~= entries@.take(i as int));
            i = i + 1;
        }
        assert(entries@.take(entries@.len() as int) =~= entries@);
        map
    }

    fn find(&self, key: &String) -> (r: Option<usize>)
        requires
            self.wf(),
        ensures
            match r {
                Some(i) => holds_key(self.entries@, key@, i as int) && self@.contains_key(key@)
                    && self@[key@] == self.entries@[i as int].ids@,
                None => !self@.contains_key(key@) && forall|i: int|
                    0 <= i < self.entries@.len() ==> (#[trigger] self.entries@[i]).key@ != key@,
            },
    {
        proof {
            lemma_entry_lists(self.entries@);
        }
        let mut i: usize = 0;
        while i < self.entries.len()
            invariant
                i <= self.entries@.len(),
                forall|j: int| 0 <= j < i ==> (#[trigger] self.entries@[j]).key@ != key@,
                self.wf(),
                forall|j: int|
                    0 <= j < self.entries@.len() ==> self@.contains_key(
                        (#[trigger] self.entries@[j]).key@,
                    ) && self@[self.entries@[j].key@] == self.entries@[j].ids@,
                forall|k: Seq<char>|
                    #[trigger] self@.contains_key(k) ==> exists|j: int|
                        holds_key(self.entries@, k, j),
            decreases self.entries@.len() - i,
        {
            if self.entries[i].key == *key {
                return Some(i);
            }
            i = i + 1;
        }
        None
    }

    /// The ids listed under `key`.
    pub fn get(&self, key: &String) -> (r: Option<&Vec<VectorId>>)
        requires
            self.wf(),
        ensures
            match r {
                Some(ids) => self@.contains_key(key@) && ids@ == self@[key@],
                None => !self@.contains_key(key@),
            },
    {
        match self.find(key) {
            Some(i) => Some(&self.entries[i].ids),
            None => None,
        }
    }

    /// Sets the list of `key`.
    pub fn set(&mut self, key: String, ids: Vec<VectorId>)
        requires
            old(self).wf(),
        ensures
            final(self).wf(),
            final(self)@ == old(self)@.insert(key@, ids@),
    {
        let found = self.find(&key);
        let ghost lists = self@.insert(key@, ids@);
        let ghost before = self.entries@;
        let ghost k = key@;
        let ghost v = ids@;
        proof {
            lemma_entry_lists(before);
        }
        match found {
            Some(i) => {
                self.entries[i] = Posting { key, ids };
                proof {
                    let after = self.entries@;
                    assert(forall|j: int|
                        0 <= j < after.len() ==> (#[trigger] after[j]).key@ == before[j].key@);
                    assert forall|j: int| 0 <= j < after.len() implies lists.contains_key(
                        (#[trigger] after[j]).key@,
                    ) && lists[after[j].key@] == after[j].ids@ by {
                        if j != i {
                            assert(before[j].key@ != before[i as int].key@);
                        }
                    }
                    assert forall|q: Seq<char>| #[trigger] lists.contains_key(q) implies exists|
                        j: int,
                    | holds_key(after, q, j) by {
                        if q == k {
                            assert(holds_key(after, q, i as int));
                        } else {
                            assert(entry_lists(before).contains_key(q));
                            let j = choose|j: int| holds_key(before, q, j);
                            assert(holds_key(after, q, j));
                        }
                    }
                    lemma_same_lists(after, lists);
                }
            },
            None => {
                self.entries.push(Posting { key, ids });
                proof {
                    assert(self.entries@.drop_last() =~= before);
                }
            },
        }
    }

    /// Appends `id` to the list of `key`, which is created where it is missing.
    pub fn append(&mut self, key: &String, id: VectorId)
        requires
            old(self).wf(),
        ensures
            final(self).wf(),
            final(self)@ == with_id(old(self)@, key@, id),
    {
        let mut ids: Vec<VectorId> = match self.get(key) {
            Some(ids) => ids.clone(),
            None => Vec::new(),
        };
        ids.push(id);
        assert(ids@ =~= list_of(self@, key@).push(id));
        self.set(key.clone(), ids);
    }

    /// Forgets the list of `key`.
    fn forget(&mut self, key: &String)
        requires
            old(self).wf(),
        ensures
            final(self).wf(),
            final(self)@ == old(self)@.remove(key@),
    {
        let ghost lists = self@.remove(key@);
        let ghost before = self.entries@;
        proof {
            lemma_entry_lists(before);
        }
        match self.find(key) {
            Some(i) => {
                self.entries.remove(i);
                proof {
                    let after = self.entries@;
                    assert forall|j: int| 0 <= j < after.len() implies lists.contains_key(
                        (#[trigger] after[j]).key@,
                    ) && lists[after[j].key@] == after[j].ids@ by {
                        let p = if j < i {
                            j
                        } else {
                            j + 1
                        };
                        assert(after[j] == before[p]);
                        if p < i {
                            assert(before[p].key@ != before[i as int].key@);
                        } else {
                            assert(before[i as int].key@ != before[p].key@);
                        }
                    }
                    assert forall|q: Seq<char>| #[trigger] lists.contains_key(q) implies exists|
                        j: int,
                    | holds_key(after, q, j) by {
                        assert(entry_lists(before).contains_key(q));
                        let p = choose|p: int| holds_key(before, q, p);
                        assert(holds_key(
                            after,
                            q,
                            if p < i {
                                p
                            } else {
                                p - 1
                            },
                        ));
                    }
                    assert(distinct_keys(after)) by {
                        assert forall|a: int, b: int| 0 <= a < b < after.len() implies (
                        #[trigger] after[a]).key@ != (#[trigger] after[b]).key@ by {
                            let p = if a < i {
                                a
                            } else {
                                a + 1
                            };
                            let q = if b < i {
                                b
                            } else {
                                b + 1
                            };
                            assert(after[a] == before[p] && after[b] == before[q]);
                        }
                    }
                    lemma_same_lists(after, lists);
                }
            },
            None => {
                assert(lists =~= self@);
            },
        }
    }

    /// Takes `id` out of the list of `key`; a list that becomes empty is dropped with its key.
    pub fn remove_id(&mut self, key: &String, id: VectorId)
        requires
            old(self).wf(),
        ensures
            final(self).wf(),
            final(self)@ == without_id(old(self)@, key@, id),
    {
        let kept: Vec<VectorId> = match self.get(key) {
            Some(ids) => without(ids, id),
            None => {
                return ;
            },
        };
        if kept.is_empty() {
            self.forget(key);
        } else {
            self.set(key.clone(), kept);
        }
    }
}

impl Clone for PostingMap {
    fn clone(&self) -> (r: Self)
        ensures
            r@ == self@,
            self.wf() ==> r.wf(),
    {
        let mut entries: Vec<Posting> = Vec::new();
        let mut i: usize = 0;
        assert(self.entries@.take(0) =~= Seq::<Posting>::empty());
        while i < self.entries.len()
            invariant
                i <= self.entries@.len(),
                entries@.len() == i,
                forall|j: int|
                    0 <= j < i ==> (#[trigger] entries@[j]).key@ == self.entries@[j].key@,
                entry_lists(entries@) == entry_lists(self.entries@.take(i as int)),
            decreases self.entries@.len() - i,
        {
            let ghost head = entries@;
            entries.push(self.entries[i].clone());
            assert(entries@.drop_last() =~= head);
            assert(self.entries@.take(i + 1).drop_last() =~= self.entries@.take(i as int));
            i = i + 1;
        }
        assert(self.entries@.take(self.entries@.len() as int) =~= self.entries@);
        PostingMap { entries }
    }
}

/// The ids listed under `key`, none where it is missing.
pub open spec fn list_of(lists: Lists, key: Seq<char>) -> Seq<VectorId> {
    if lists.contains_key(key) {
        lists[key]
    } else {
        Seq::empty()
    }
}

pub open spec fn with_id(lists: Lists, key: Seq<char>, id: VectorId) -> Lists {
    lists.insert(key, list_of(lists, key).push(id))
}

/// `ids` without any occurrence of `id`.
pub open spec fn filtered(ids: Seq<VectorId>, id: VectorId) -> Seq<VectorId> {
    ids.filter(|existing: VectorId| existing != id)
}

pub open spec fn without_id(lists: Lists, key: Seq<char>, id: VectorId) -> Lists {
    if !lists.contains_key(key) {
        lists
    } else if filtered(lists[key], id).len() == 0 {
        lists.remove(key)
    } else {
        lists.insert(key, filtered(lists[key], id))
    }
}

fn without(ids: &Vec<VectorId>, id: VectorId) -> (r: Vec<VectorId>)
    ensures
        r@ == filtered(ids@, id),
{
    let mut kept: Vec<VectorId> = Vec::new();
    let mut i: usize = 0;
    assert(filtered(ids@.take(0), id) =~= Seq::<VectorId>::empty()) by {
        reveal(Seq::filter);
    }
    while i < ids.len()
        invariant
            i <= ids@.len(),
            kept@ == filtered(ids@.take(i as int), id),
        decreases ids@.len() - i,
    {
        proof {
            reveal(Seq::filter);
            assert(ids@.take(i + 1).drop_last() =~= ids@.take(i as int));
        }
        if ids[i] != id {
            kept.push(ids[i]);
        }
        i = i + 1;
    }
    assert(ids@.take(ids@.len() as int) =~= ids@);
    kept
}

/// Inverted posting lists of the persistent tier.
#[derive(Debug)]
pub struct PostingIndex {
    pub by_file: PostingMap,
    pub by_kind: PostingMap,
}

/// What a posting index says.
#[verifier::ext_equal]
pub struct PostingsView {
    pub by_file: Lists,
    pub by_kind: Lists,
}

impl PostingsView {
    pub open spec fn empty() -> PostingsView {
        PostingsView { by_file: Map::empty(), by_kind: Map::empty() }
    }

    pub open spec fn insert(self, id: VectorId, record: ChunkRecord) -> PostingsView {
        PostingsView {
            by_file: with_id(self.by_file, record.file_path@, id),
            by_kind: with_id(self.by_kind, record.kind@, id),
        }
    }

    pub open spec fn remove(self, id: VectorId, record: ChunkRecord) -> PostingsView {
        PostingsView {
            by_file: without_id(self.by_file, record.file_path@, id),
            by_kind: without_id(self.by_kind, record.kind@, id),
        }
    }
}

impl View for PostingIndex {
    type V = PostingsView;

    open spec fn view(&self) -> PostingsView {
        PostingsView { by_file: self.by_file@, by_kind: self.by_kind@ }
    }
}

impl Default for PostingIndex {
    fn default() -> (r: Self)
        ensures
            r.wf(),
            r@ == PostingsView::empty(),
    {
        PostingIndex { by_file: PostingMap::new(), by_kind: PostingMap::new() }
    }
}

impl Clone for PostingIndex {
    fn clone(&self) -> (r: Self)
        ensures
            r@ == self@,
            self.wf() ==> r.wf(),
    {
        PostingIndex { by_file: self.by_file.clone(), by_kind: self.by_kind.clone() }
    }
}

/// `id` is listed under `key`.
pub open spec fn listed(lists: Lists, key: Seq<char>, id: VectorId) -> bool {
    lists.contains_key(key) && lists[key].contains(id)
}

/// `id` is listed under one of `keys`.
pub open spec fn listed_under_any(lists: Lists, keys: Seq<String>, id: VectorId) -> bool {
    exists|i: int| 0 <= i < keys.len() && listed(lists, (#[trigger] keys[i])@, id)
}

/// `id` is listed under a key that begins with `prefix`.
pub open spec fn listed_under_prefix(lists: Lists, prefix: Seq<char>, id: VectorId) -> bool {
    exists|key: Seq<char>| prefix.is_prefix_of(key) && #[trigger] listed(lists, key, id)
}

/// `id` passes every filter that is given.
pub open spec fn passes(
    index: PostingsView,
    file_paths: Option<&[String]>,
    file_path_prefix: Option<&str>,
    kinds: Option<&[String]>,
    candidate_ids: Option<&[VectorId]>,
    id: VectorId,
) -> bool {
    &&& file_paths matches Some(paths) ==> listed_under_any(index.by_file, paths@, id)
    &&& file_path_prefix matches Some(prefix) ==> listed_under_prefix(index.by_file, prefix@, id)
    &&& kinds matches Some(kinds) ==> listed_under_any(index.by_kind, kinds@, id)
    &&& candidate_ids matches Some(ids) ==> ids@.contains(id)
}

/// Every filter that is given counts, whichever others are: an id that passes is listed under one
/// of the paths, under some path that begins with the prefix, under one of the kinds, and is one of
/// the ids; and an id of which all that holds passes.
pub proof fn law_every_filter_narrows(
    index: PostingsView,
    file_paths: Option<&[String]>,
    file_path_prefix: Option<&str>,
    kinds: Option<&[String]>,
    candidate_ids: Option<&[VectorId]>,
    id: VectorId,
)
    ensures
        passes(index, file_paths, file_path_prefix, kinds, candidate_ids, id) <==> {
            &&& file_paths matches Some(paths) ==> exists|i: int|
                0 <= i < paths@.len() && index.by_file.contains_key((#[trigger] paths@[i])@)
                    && index.by_file[paths@[i]@].contains(id)
            &&& file_path_prefix matches Some(prefix) ==> exists|path: Seq<char>|
                #![trigger index.by_file[path]]
                index.by_file.contains_key(path) && index.by_file[path].contains(id)
                    && prefix@.len() <= path.len() && path.take(prefix@.len() as int) == prefix@
            &&& kinds matches Some(kinds) ==> exists|i: int|
                0 <= i < kinds@.len() && index.by_kind.contains_key((#[trigger] kinds@[i])@)
                    && index.by_kind[kinds@[i]@].contains(id)
            &&& candidate_ids matches Some(ids) ==> ids@.contains(id)
        },
        passes(index, None, None, None, None, id),
{
    if let Some(paths) = file_paths {
        if listed_under_any(index.by_file, paths@, id) {
            let i = choose|i: int|
                0 <= i < paths@.len() && listed(index.by_file, (#[trigger] paths@[i])@, id);
            assert(index.by_file.contains_key(paths@[i]@));
        }
        if exists|i: int|
            0 <= i < paths@.len() && index.by_file.contains_key((#[trigger] paths@[i])@)
                && index.by_file[paths@[i]@].contains(id) {
            let i = choose|i: int|
                0 <= i < paths@.len() && index.by_file.contains_key((#[trigger] paths@[i])@)
                    && index.by_file[paths@[i]@].contains(id);
            assert(listed(index.by_file, paths@[i]@, id));
        }
    }
    if let Some(prefix) = file_path_prefix {
        if listed_under_prefix(index.by_file, prefix@, id) {
            let path = choose|key: Seq<char>|
                prefix@.is_prefix_of(key) && #[trigger] listed(index.by_file, key, id);
            assert(index.by_file[path].contains(id));
            assert(path.take(prefix@.len() as int) =~= prefix@);
        }
        if exists|path: Seq<char>|
            #![trigger index.by_file[path]]
            index.by_file.contains_key(path) && index.by_file[path].contains(id) && prefix@.len()
                <= path.len() && path.take(prefix@.len() as int) == prefix@ {
            let path = choose|path: Seq<char>|
                #![trigger index.by_file[path]]
                index.by_file.contains_key(path) && index.by_file[path].contains(id)
                    && prefix@.len() <= path.len() && path.take(prefix@.len() as int) == prefix@;
            assert(listed(index.by_file, path, id));
            assert(prefix@ =~= path.subrange(0, prefix@.len() as int));
        }
    }
    if let Some(kinds) = kinds {
        if listed_under_any(index.by_kind, kinds@, id) {
            let i = choose|i: int|
                0 <= i < kinds@.len() && listed(index.by_kind, (#[trigger] kinds@[i])@, id);
            assert(index.by_kind.contains_key(kinds@[i]@));
        }
        if exists|i: int|
            0 <= i < kinds@.len() && index.by_kind.contains_key((#[trigger] kinds@[i])@)
                && index.by_kind[kinds@[i]@].contains(id) {
            let i = choose|i: int|
                0 <= i < kinds@.len() && index.by_kind.contains_key((#[trigger] kinds@[i])@)
                    && index.by_kind[kinds@[i]@].contains(id);
            assert(listed(index.by_kind, kinds@[i]@, id));
        }
    }
}

/// Listing a row adds its id behind the others of its path and behind the others of its kind, and
/// changes no other list.
pub proof fn law_listing_a_row(
    index: PostingsView,
    id: VectorId,
    record: ChunkRecord,
    key: Seq<char>,
)
    ensures
        list_of(index.insert(id, record).by_file, key) == if key == record.file_path@ {
            list_of(index.by_file, key).push(id)
        } else {
            list_of(index.by_file, key)
        },
        list_of(index.insert(id, record).by_kind, key) == if key == record.kind@ {
            list_of(index.by_kind, key).push(id)
        } else {
            list_of(index.by_kind, key)
        },
{
}

pub(crate) proof fn lemma_filtered_keeps_others(ids: Seq<VectorId>, id: VectorId)
    ensures
        filtered(ids, id) == ids.filter(|x: VectorId| x != id),
        ids.len() == 0 ==> filtered(ids, id) == Seq::<VectorId>::empty(),
    decreases ids.len(),
{
    reveal(Seq::filter);
    if ids.len() > 0 {
        lemma_filtered_keeps_others(ids.drop_last(), id);
    }
}

/// Taking a row out takes its id, however often it is listed there, out of the lists of its path
/// and its kind, whose other ids keep their order; a list that becomes empty goes with its key, and
/// no other list changes.
pub proof fn law_taking_a_row_out(
    index: PostingsView,
    id: VectorId,
    record: ChunkRecord,
    key: Seq<char>,
)
    ensures
        ({
            let after = index.remove(id, record);
            &&& list_of(after.by_file, key) == if key == record.file_path@ {
                list_of(index.by_file, key).filter(|x: VectorId| x != id)
            } else {
                list_of(index.by_file, key)
            }
            &&& list_of(after.by_kind, key) == if key == record.kind@ {
                list_of(index.by_kind, key).filter(|x: VectorId| x != id)
            } else {
                list_of(index.by_kind, key)
            }
            &&& after.by_file.contains_key(record.file_path@) ==> list_of(
                after.by_file,
                record.file_path@,
            ).len() > 0
            &&& after.by_kind.contains_key(record.kind@) ==> list_of(
                after.by_kind,
                record.kind@,
            ).len() > 0
        }),
{
    let files = list_of(index.by_file, record.file_path@).filter(|x: VectorId| x != id);
    let kinds = list_of(index.by_kind, record.kind@).filter(|x: VectorId| x != id);
    lemma_filtered_keeps_others(list_of(index.by_file, record.file_path@), id);
    lemma_filtered_keeps_others(list_of(index.by_kind, record.kind@), id);
    lemma_filtered_keeps_others(Seq::empty(), id);
    if files.len() == 0 {
        assert(files =~= Seq::<VectorId>::empty());
    }
    if kinds.len() == 0 {
        assert(kinds =~= Seq::<VectorId>::empty());
    }
}

/// Adds every listed id to the set.
fn extend(set: &mut HashSet<VectorId>, ids: &[VectorId])
    ensures
        final(set)@ == old(set)@.union(ids@.to_set()),
{
    let mut i: usize = 0;
    assert(old(set)@ =~= old(set)@.union(ids@.take(0).to_set()));
    while i < ids.len()
        invariant
            i <= ids@.len(),
            set@ == old(set)@.union(ids@.take(i as int).to_set()),
        decreases ids@.len() - i,
    {
        set.insert(ids[i]);
        proof {
            let now = ids@.take(i + 1);
            let prev = ids@.take(i as int);
            assert(now =~= prev.push(ids@[i as int]));
            assert forall|x: VectorId| now.contains(x) <==> prev.contains(x) || x
                == ids@[i as int] by {
                if prev.contains(x) {
                    let p = choose|p: int| 0 <= p < prev.len() && prev[p] == x;
                    assert(now[p] == x);
                }
                if x == ids@[i as int] {
                    assert(now[i as int] == x);
                }
            }
            assert(set@ =~= old(set)@.union(now.to_set()));
        }
        i = i + 1;
    }
    assert(ids@.take(ids@.len() as int) =~= ids@);
}

/// The ids listed under one of `keys`.
fn ids_under_any(map: &PostingMap, keys: &[String]) -> (r: HashSet<VectorId>)
    requires
        map.wf(),
    ensures
        forall|id: VectorId| r@.contains(id) <==> listed_under_any(map@, keys@, id),
{
    let mut set: HashSet<VectorId> = HashSet::new();
    let mut i: usize = 0;
    while i < keys.len()
        invariant
            i <= keys@.len(),
            map.wf(),
            forall|id: VectorId|
                set@.contains(id) <==> exists|j: int|
                    0 <= j < i && listed(map@, (#[trigger] keys@[j])@, id),
        decreases keys@.len() - i,
    {
        let ghost before = set@;
        let found = map.get(&keys[i]);
        if let Some(ids) = found {
            extend(&mut set, ids.as_slice());
        }
        proof {
            assert forall|id: VectorId|
                set@.contains(id) <==> exists|j: int|
                    0 <= j < i + 1 && listed(map@, (#[trigger] keys@[j])@, id) by {
                if set@.contains(id) {
                    if before.contains(id) {
                        let j = choose|j: int|
                            0 <= j < i && listed(map@, (#[trigger] keys@[j])@, id);
                        assert(listed(map@, keys@[j]@, id));
                    } else {
                        assert(listed(map@, keys@[i as int]@, id));
                    }
                }
                if exists|j: int| 0 <= j < i + 1 && listed(map@, (#[trigger] keys@[j])@, id) {
                    let j = choose|j: int|
                        0 <= j < i + 1 && listed(map@, (#[trigger] keys@[j])@, id);
                    if j < i {
                        assert(before.contains(id));
                    }
                }
            }
        }
        i = i + 1;
    }
    set
}

/// The ids listed under a key that begins with `prefix`.
fn ids_under_prefix(map: &PostingMap, prefix: &str) -> (r: HashSet<VectorId>)
    requires
        map.wf(),
    ensures
        forall|id: VectorId| r@.contains(id) <==> listed_under_prefix(map@, prefix@, id),
{
    let mut set: HashSet<VectorId> = HashSet::new();
    let entries = map.entries();
    let mut i: usize = 0;
    while i < entries.len()
        invariant
            i <= entries@.len(),
            forall|id: VectorId|
                set@.contains(id) <==> exists|j: int|
                    0 <= j < i && prefix@.is_prefix_of((#[trigger] entries@[j]).key@)
                        && entries@[j].ids@.contains(id),
        decreases entries@.len() - i,
    {
        let ghost before = set@;
        if starts_with(entries[i].key.as_str(), prefix) {
            extend(&mut set, entries[i].ids.as_slice());
        }
        proof {
            assert forall|id: VectorId|
                set@.contains(id) <==> exists|j: int|
                    0 <= j < i + 1 && prefix@.is_prefix_of((#[trigger] entries@[j]).key@)
                        && entries@[j].ids@.contains(id) by {
                if set@.contains(id) {
                    if before.contains(id) {
                        let j = choose|j: int|
                            0 <= j < i && prefix@.is_prefix_of((#[trigger] entries@[j]).key@)
                                && entries@[j].ids@.contains(id);
                        assert(entries@[j].ids@.contains(id));
                    } else {
                        assert(entries@[i as int].ids@.contains(id));
                    }
                }
                if exists|j: int|
                    0 <= j < i + 1 && prefix@.is_prefix_of((#[trigger] entries@[j]).key@)
                        && entries@[j].ids@.contains(id) {
                    let j = choose|j: int|
                        0 <= j < i + 1 && prefix@.is_prefix_of((#[trigger] entries@[j]).key@)
                            && entries@[j].ids@.contains(id);
                    if j < i {
                        assert(before.contains(id));
                    }
                }
            }
        }
        i = i + 1;
    }
    proof {
        lemma_entry_lists(entries@);
        assert forall|id: VectorId| set@.contains(id) <==> listed_under_prefix(
            map@,
            prefix@,
            id,
        ) by {
            if set@.contains(id) {
                let j = choose|j: int|
                    0 <= j < entries@.len() && prefix@.is_prefix_of((#[trigger] entries@[j]).key@)
                        && entries@[j].ids@.contains(id);
                assert(listed(map@, entries@[j].key@, id));
            }
            if listed_under_prefix(map@, prefix@, id) {
                let key = choose|key: Seq<char>|
                    prefix@.is_prefix_of(key) && #[trigger] listed(map@, key, id);
                let j = choose|j: int| holds_key(entries@, key, j);
                assert(entries@[j].key@ == key);
            }
        }
    }
    set
}

/// The ids of the first set that lie in all the others, too, and in no tombstone.
fn intersect(filters: &Vec<HashSet<VectorId>>, tombstones: &HashSet<VectorId>) -> (r: Vec<VectorId>)
    requires
        filters@.len() > 0,
    ensures
        r@.no_duplicates(),
        forall|id: VectorId|
            #![trigger r@.contains(id)]
            r@.contains(id) <==> !tombstones@.contains(id) && forall|j: int|
                0 <= j < filters@.len() ==> (#[trigger] filters@[j])@.contains(id),
{
    let first = set_ids(&filters[0]);
    let mut live: Vec<VectorId> = Vec::new();
    let mut i: usize = 0;
    while i < first.len()
        invariant
            i <= first@.len(),
            first@.no_duplicates(),
            live@.no_duplicates(),
            forall|id: VectorId|
                #![trigger live@.contains(id)]
                live@.contains(id) <==> first@.take(i as int).contains(id) && in_all(
                    filters@,
                    tombstones@,
                    id,
                ),
        decreases first@.len() - i,
    {
        let ghost before = live@;
        let id: VectorId = first[i];
        let mut inside: bool = !tombstones.contains(&id);
        let mut j: usize = 0;
        while j < filters.len()
            invariant
                j <= filters@.len(),
                inside <==> !tombstones@.contains(id) && forall|i: int|
                    0 <= i < j ==> (#[trigger] filters@[i])@.contains(id),
            decreases filters@.len() - j,
        {
            if !filters[j].contains(&id) {
                inside = false;
            }
            j = j + 1;
        }
        if inside {
            live.push(id);
        }
        proof {
            let head = first@.take(i as int);
            assert(first@.take(i + 1) =~= head.push(id));
            assert(!head.contains(id)) by {
                if head.contains(id) {
                    let p = choose|p: int| 0 <= p < head.len() && head[p] == id;
                    assert(first@[p] == first@[i as int]);
                }
            }
            lemma_push_has(head, id);
            lemma_push_has(before, id);
            assert(!before.contains(id));
            assert(forall|p: int| 0 <= p < before.len() ==> before.contains(#[trigger] before[p]));
        }
        i = i + 1;
    }
    proof {
        assert(first@.take(first@.len() as int) =~= first@);
        assert forall|id: VectorId|
            #![trigger live@.contains(id)]
            live@.contains(id) <==> !tombstones@.contains(id) && forall|j: int|
                0 <= j < filters@.len() ==> (#[trigger] filters@[j])@.contains(id) by {
            if in_all(filters@, tombstones@, id) {
                assert(filters@[0]@.contains(id));
                assert(first@.contains(id));
            }
        }
    }
    live
}

spec fn in_all(
    filters: Seq<HashSet<VectorId>>,
    tombstones: Set<VectorId>,
    id: VectorId,
) -> bool {
    !tombstones.contains(id) && forall|j: int|
        0 <= j < filters.len() ==> (#[trigger] filters[j])@.contains(id)
}

impl PostingIndex {
    pub open spec fn wf(self) -> bool {
        self.by_file.wf() && self.by_kind.wf()
    }

    /// Lists a row under its path and its kind.
    pub fn insert(&mut self, id: VectorId, record: &ChunkRecord)
        requires
            old(self).wf(),
        ensures
            final(self).wf(),
            final(self)@ == old(self)@.insert(id, *record),
    {
        self.by_file.append(&record.file_path, id);
        self.by_kind.append(&record.kind, id);
    }

    /// Takes a row out of the lists of its path and its kind.
    pub fn remove(&mut self, id: VectorId, record: &ChunkRecord)
        requires
            old(self).wf(),
        ensures
            final(self).wf(),
            final(self)@ == old(self)@.remove(id, *record),
    {
        self.by_file.remove_id(&record.file_path, id);
        self.by_kind.remove_id(&record.kind, id);
    }

    /// The ids that pass every given filter and carry no tombstone, in no particular order;
    /// nothing where no filter is given.
    pub fn resolve(
        &self,
        file_paths: Option<&[String]>,
        file_path_prefix: Option<&str>,
        kinds: Option<&[String]>,
        candidate_ids: Option<&[VectorId]>,
        tombstones: &HashSet<VectorId>,
    ) -> (r: Option<Vec<VectorId>>)
        requires
            self.wf(),
        ensures
            r is None <==> file_paths is None && file_path_prefix is None && kinds is None
                && candidate_ids is None,
            r matches Some(ids) ==> ids@.no_duplicates() && forall|id: VectorId|
                #![trigger ids@.contains(id)]
                ids@.contains(id) <==> !tombstones@.contains(id) && passes(
                    self@,
                    file_paths,
                    file_path_prefix,
                    kinds,
                    candidate_ids,
                    id,
                ),
    {
        let mut filters: Vec<HashSet<VectorId>> = Vec::new();
        if let Some(paths) = file_paths {
            filters.push(ids_under_any(&self.by_file, paths));
        }
        let ghost n1 = filters@.len();
        if let Some(prefix) = file_path_prefix {
            filters.push(ids_under_prefix(&self.by_file, prefix));
        }
        let ghost n2 = filters@.len();
        if let Some(kinds) = kinds {
            filters.push(ids_under_any(&self.by_kind, kinds));
        }
        let ghost n3 = filters@.len();
        if let Some(ids) = candidate_ids {
            let mut set: HashSet<VectorId> = HashSet::new();
            extend(&mut set, ids);
            filters.push(set);
        }
        if filters.is_empty() {
            return None;
        }
        proof {
            assert forall|id: VectorId|
                (forall|j: int| 0 <= j < filters@.len() ==> (#[trigger] filters@[j])@.contains(id))
                    <==> passes(
                    self@,
                    file_paths,
                    file_path_prefix,
                    kinds,
                    candidate_ids,
                    id,
                ) by {
                if forall|j: int| 0 <= j < filters@.len() ==> (#[trigger] filters@[j])@.contains(id) {
                    if file_paths is Some {
                        assert(filters@[0]@.contains(id));
                    }
                    if file_path_prefix is Some {
                        assert(filters@[n1 as int]@.contains(id));
                    }
                    if kinds is Some {
                        assert(filters@[n2 as int]@.contains(id));
                    }
                    if candidate_ids is Some {
                        assert(filters@[n3 as int]@.contains(id));
                    }
                }
            }
        }
        Some(intersect(&filters, tombstones))
    }
}

} // verus!
