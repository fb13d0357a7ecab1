//! Search over both tiers.

use std::collections::HashSet;

use vstd::prelude::*;

use super::Rek0nDb;
use crate::ids::lists_set;
use crate::ivf::{dot_is, dot_product, probed, VectorMath};
use crate::postings::passes;
use crate::ranking::{is_top, lemma_hit_is_candidate, top_candidates, Scored};
use crate::state::{staged, DbView};
use crate::text::starts_with;
use crate::types::{AnnStrategy, ChunkRecord, DbError, SearchScope, VectorId};

verus! {

broadcast use vstd::std_specs::hash::group_hash_axioms;

/// A row that a search found, with its score, a single-precision bit pattern.
#[derive(Debug, Clone)]
pub struct SearchHit {
    pub score: u32,
    pub id: VectorId,
    pub record: ChunkRecord,
}

/// The row of an id in one of the tiers: the staging tier, or the live rows of the persistent
/// one.
pub open spec fn entry_row(v: DbView, id: VectorId, staging: bool) -> Option<Seq<u32>> {
    if staging {
        match staged(v.staging, id) {
            Some(s) => Some(s.row),
            None => None,
        }
    } else if v.tombstones.contains(id) {
        None
    } else {
        v.row(id)
    }
}

/// The entry has a row and a record.
pub open spec fn scorable(v: DbView, id: VectorId, staging: bool) -> bool {
    entry_row(v, id, staging) is Some && v.record_for(id) is Some
}

/// A row with this id and this record meets every filter of the scope.
pub open spec fn meets(scope: SearchScope<'_>, id: VectorId, record: ChunkRecord) -> bool {
    &&& scope.file_paths matches Some(paths) ==> names(paths@, record.file_path@)
    &&& scope.file_path_prefix matches Some(prefix) ==> prefix@.is_prefix_of(record.file_path@)
    &&& scope.kinds matches Some(kinds) ==> names(kinds@, record.kind@)
    &&& scope.candidate_ids matches Some(ids) ==> ids@.contains(id)
}

/// `name` is one of `list`.
pub open spec fn names(list: Seq<String>, name: Seq<char>) -> bool {
    exists|i: int| 0 <= i < list.len() && (#[trigger] list[i])@ == name
}

/// The id passes every filter of the scope. A staged row passes by its own record, a persistent
/// one by the posting lists; an id that carries a tombstone passes none.
pub open spec fn in_scope(v: DbView, scope: SearchScope<'_>, id: VectorId) -> bool {
    scope.unrestricted() || match staged(v.staging, id) {
        Some(s) => meets(scope, id, s.record),
        None => !v.tombstones.contains(id) && passes(
            v.postings,
            scope.file_paths,
            scope.file_path_prefix,
            scope.kinds,
            scope.candidate_ids,
            id,
        ),
    }
}

/// The id is a candidate of a search that probed buckets with the rows `near`; staged rows are in
/// no bucket and always candidates, where the scope has them.
pub open spec fn near_enough(
    v: DbView,
    scope: SearchScope<'_>,
    near: Seq<VectorId>,
    id: VectorId,
) -> bool {
    near.contains(id) || (scope.include_staging && staged(v.staging, id) is Some)
}

/// The entries that a search looks at. A full scan takes the live rows and, where the scope has
/// them, the staged ones. Otherwise a candidate is taken from the staging tier where it is
/// staged, and is left out if the scope leaves that tier out.
pub open spec fn in_pool(
    v: DbView,
    scope: SearchScope<'_>,
    near: Option<Seq<VectorId>>,
    id: VectorId,
    staging: bool,
) -> bool {
    if scope.unrestricted() && near is None {
        if staging {
            scope.include_staging && staged(v.staging, id) is Some
        } else {
            v.live().contains(id)
        }
    } else {
        &&& in_scope(v, scope, id)
        &&& near matches Some(near) ==> near_enough(v, scope, near, id)
        &&& staging == (staged(v.staging, id) is Some)
        &&& staging ==> scope.include_staging
    }
}

/// `entries` names every entry that the search scores once.
pub open spec fn is_pool(
    v: DbView,
    scope: SearchScope<'_>,
    near: Option<Seq<VectorId>>,
    entries: Seq<(VectorId, bool)>,
) -> bool {
    entries.no_duplicates() && forall|e: (VectorId, bool)| #[trigger]
        entries.contains(e) <==> in_pool(v, scope, near, e.0, e.1) && scorable(v, e.0, e.1)
}

/// `all` holds the score of every entry: the dot product of the query with its row.
pub open spec fn scored_entries<M: VectorMath>(
    math: M,
    v: DbView,
    query: Seq<u32>,
    entries: Seq<(VectorId, bool)>,
    all: Seq<Scored>,
) -> bool {
    all.len() == entries.len() && forall|i: int|
        #![trigger all[i]]
        0 <= i < all.len() ==> all[i].id == entries[i].0 && dot_is(
            math,
            query,
            entry_row(v, entries[i].0, entries[i].1)->Some_0,
            all[i].score,
        )
}

/// The rows in the probed buckets, for a search that probes; a search that asks for no bucket
/// probes one.
pub open spec fn is_probe<M: VectorMath>(
    math: M,
    v: DbView,
    query: Seq<u32>,
    strategy: AnnStrategy,
    near: Option<Seq<VectorId>>,
) -> bool {
    match strategy {
        AnnStrategy::Exact => near is None,
        AnnStrategy::Ivf { probe_buckets } => near is Some && v.ivf is Some && probed(
            math,
            query,
            v.ivf->Some_0,
            v.dim as nat,
            if probe_buckets == 0 {
                1
            } else {
                probe_buckets as nat
            },
            v.tombstones,
            near->Some_0,
        ),
        AnnStrategy::Hnsw { .. } => false,
    }
}

/// Ids and scores of hits.
pub open spec fn hit_scores(hits: Seq<SearchHit>) -> Seq<Scored> {
    Seq::new(hits.len(), |i: int| Scored { id: hits[i].id as u64, score: hits[i].score })
}

/// The hits are the `k` best of all scored entries, best first, each with its record.
pub open spec fn best_hits(v: DbView, all: Seq<Scored>, k: nat, hits: Seq<SearchHit>) -> bool {
    is_top(hit_scores(hits), all, k) && forall|i: int|
        0 <= i < hits.len() ==> v.record_for((#[trigger] hits[i]).id) == Some(hits[i].record)
}

/// Why a search is refused.
pub open spec fn search_refusal(
    v: DbView,
    width: nat,
    k: usize,
    strategy: AnnStrategy,
) -> Option<DbError> {
    if width != v.dim {
        Some(DbError::InvalidQuery { expected: v.dim, got: width as usize })
    } else if k == 0 {
        Some(DbError::InvalidSearchLimit)
    } else if !v.aligned() {
        Some(DbError::InvalidVectorBytes { len: v.bytes.len() as usize })
    } else {
        match strategy {
            AnnStrategy::Exact => None,
            AnnStrategy::Ivf { .. } => if v.ivf is None {
                Some(DbError::IvfNotBuilt)
            } else {
                None
            },
            AnnStrategy::Hnsw { .. } => Some(DbError::HnswNotBuilt),
        }
    }
}

/// The outcome of a search.
pub open spec fn search_outcome<M: VectorMath>(
    math: M,
    v: DbView,
    query: Seq<u32>,
    k: usize,
    scope: SearchScope<'_>,
    strategy: AnnStrategy,
    r: Result<Vec<SearchHit>, DbError>,
) -> bool {
    match search_refusal(v, query.len(), k, strategy) {
        Some(e) => r == Err::<Vec<SearchHit>, DbError>(e),
        None => r is Ok && found(math, v, query, k as nat, scope, strategy, r->Ok_0@),
    }
}

/// What a search finds.
pub open spec fn found<M: VectorMath>(
    math: M,
    v: DbView,
    query: Seq<u32>,
    k: nat,
    scope: SearchScope<'_>,
    strategy: AnnStrategy,
    hits: Seq<SearchHit>,
) -> bool {
    exists|near: Option<Seq<VectorId>>, entries: Seq<(VectorId, bool)>, all: Seq<Scored>|
        #![trigger is_pool(v, scope, near, entries), scored_entries(math, v, query, entries, all)]
        {
            &&& is_probe(math, v, query, strategy, near)
            &&& is_pool(v, scope, near, entries)
            &&& scored_entries(math, v, query, entries, all)
            &&& best_hits(v, all, k, hits)
        }
}

fn is_named(list: &[String], name: &String) -> (r: bool)
    ensures
        r == names(list@, name@),
{
    let mut i: usize = 0;
    while i < list.len()
        invariant
            i <= list@.len(),
            forall|j: int| 0 <= j < i ==> (#[trigger] list@[j])@ != name@,
        decreases list@.len() - i,
    {
        if list[i] == *name {
            assert(list@[i as int]@ == name@);
            return true;
        }
        i = i + 1;
    }
    false
}

fn is_listed(ids: &[VectorId], id: VectorId) -> (r: bool)
    ensures
        r == ids@.contains(id),
{
    let mut i: usize = 0;
    while i < ids.len()
        invariant
            i <= ids@.len(),
            forall|j: int| 0 <= j < i ==> ids@[j] != id,
        decreases ids@.len() - i,
    {
        if ids[i] == id {
            return true;
        }
        i = i + 1;
    }
    false
}

/// Whether a row with this id and this record meets every filter of the scope.
fn meets_filters(scope: &SearchScope<'_>, id: VectorId, record: &ChunkRecord) -> (r: bool)
    ensures
        r == meets(*scope, id, *record),
{
    if let Some(paths) = scope.file_paths {
        if !is_named(paths, &record.file_path) {
            return false;
        }
    }
    if let Some(prefix) = scope.file_path_prefix {
        if !starts_with(record.file_path.as_str(), prefix) {
            return false;
        }
    }
    if let Some(kinds) = scope.kinds {
        if !is_named(kinds, &record.kind) {
            return false;
        }
    }
    if let Some(ids) = scope.candidate_ids {
        if !is_listed(ids, id) {
            return false;
        }
    }
    true
}

enum CandidateSet {
    All,
    Ids(Vec<VectorId>),
}

impl<M: VectorMath> Rek0nDb<M> {
    /// Exact search over all live rows of both tiers.
    pub fn search(&self, query: &[u32], k: usize) -> (r: Result<Vec<SearchHit>, DbError>)
        requires
            self.inv(),
        ensures
            exists|scope: SearchScope<'_>|
                scope.unrestricted() && scope.include_staging && #[trigger] search_outcome(
                    self.math(),
                    self@,
                    query@,
                    k,
                    scope,
                    AnnStrategy::Exact,
                    r,
                ),
    {
        let scope = SearchScope::all();
        let r = self.search_scoped(query, k, scope, AnnStrategy::Exact);
        assert(search_outcome(self.math(), self@, query@, k, scope, AnnStrategy::Exact, r));
        r
    }

    /// Why a search is refused, where it is.
    pub fn search_refusal(&self, query: &[u32], k: usize, strategy: AnnStrategy) -> (r: Option<
        DbError,
    >)
        ensures
            r == search_refusal(self@, query@.len(), k, strategy),
    {
        if query.len() != self.dim {
            return Some(DbError::InvalidQuery { expected: self.dim, got: query.len() });
        }
        if k == 0 {
            return Some(DbError::InvalidSearchLimit);
        }
        if let Err(e) = self.ensure_aligned() {
            return Some(e);
        }
        match strategy {
            AnnStrategy::Exact => None,
            AnnStrategy::Ivf { .. } => if self.ivf.is_none() {
                Some(DbError::IvfNotBuilt)
            } else {
                None
            },
            AnnStrategy::Hnsw { .. } => Some(DbError::HnswNotBuilt),
        }
    }

    /// Search over the rows that a scope and a strategy select.
    pub fn search_scoped(
        &self,
        query: &[u32],
        k: usize,
        scope: SearchScope<'_>,
        strategy: AnnStrategy,
    ) -> (r: Result<Vec<SearchHit>, DbError>)
        requires
            self.inv(),
            search_refusal(self@, query@.len(), k, strategy) is None && strategy is Ivf
                ==> self@.index_covers(),
        ensures
            search_outcome(self.math(), self@, query@, k, scope, strategy, r),
    {
        if let Some(e) = self.search_refusal(query, k, strategy) {
            return Err(e);
        }
        let ghost v = self@;
        let candidates = match self.resolve_candidates(query, &scope, strategy) {
            Ok(candidates) => candidates,
            Err(e) => {
                return Err(e);
            },
        };
        let ghost near = choose|near: Option<Seq<VectorId>>|
            #[trigger] is_probe(self.math(), v, query@, strategy, near) && resolved(
                v,
                scope,
                near,
                candidates,
            );
        let mut all: Vec<Scored> = Vec::new();
        let ghost mut entries: Seq<(VectorId, bool)> = Seq::empty();
        match candidates {
            CandidateSet::All => {
                let ids = self.live_persistent_ids();
                let mut i: usize = 0;
                while i < ids.len()
                    invariant
                        i <= ids@.len(),
                        v == self@,
                        self.inv(),
                        lists_set(ids@, v.live()),
                        entries.no_duplicates(),
                        scored_entries(self.math(), v, query@, entries, all@),
                        forall|e: (VectorId, bool)| #[trigger]
                            entries.contains(e) <==> !e.1 && ids@.take(i as int).contains(e.0)
                                && scorable(v, e.0, e.1),
                    decreases ids@.len() - i,
                {
                    let id: VectorId = ids[i];
                    proof {
                        let taken = ids@.take(i as int);
                        assert(ids@.take(i + 1) =~= taken.push(id));
                        crate::ids::lemma_push_has(taken, id);
                        assert(!taken.contains(id));
                    }
                    if let Some(scored) = self.score_id(id, query, false) {
                        all.push(scored);
                        proof {
                            lemma_push_entry(entries, (id, false));
                            entries = entries.push((id, false));
                        }
                    }
                    i = i + 1;
                }
                assert(ids@.take(ids@.len() as int) =~= ids@);
                if scope.include_staging {
                    let mut j: usize = 0;
                    while j < self.staging.len()
                        invariant
                            j <= self.staging@.len(),
                            v == self@,
                            self.inv(),
                            entries.no_duplicates(),
                            scored_entries(self.math(), v, query@, entries, all@),
                            forall|e: (VectorId, bool)| #[trigger]
                                entries.contains(e) <==> scorable(v, e.0, e.1) && if e.1 {
                                    staged_before(v, j as int, e.0)
                                } else {
                                    v.live().contains(e.0)
                                },
                        decreases self.staging@.len() - j,
                    {
                        let id: VectorId = self.staging[j].id;
                        proof {
                            lemma_staged_before(v, j as int);
                            assert(v.staging[j as int].id == id);
                        }
                        if let Some(scored) = self.score_id(id, query, true) {
                            all.push(scored);
                            proof {
                                lemma_push_entry(entries, (id, true));
                                entries = entries.push((id, true));
                            }
                        }
                        j = j + 1;
                    }
                    proof {
                        lemma_staged_all(v);
                    }
                }
            },
            CandidateSet::Ids(ids) => {
                let mut i: usize = 0;
                while i < ids.len()
                    invariant
                        i <= ids@.len(),
                        v == self@,
                        self.inv(),
                        ids@.no_duplicates(),
                        entries.no_duplicates(),
                        scored_entries(self.math(), v, query@, entries, all@),
                        forall|e: (VectorId, bool)| #[trigger]
                            entries.contains(e) <==> ids@.take(i as int).contains(e.0) && e.1 == (
                            staged(v.staging, e.0) is Some) && (e.1 ==> scope.include_staging)
                                && scorable(v, e.0, e.1),
                    decreases ids@.len() - i,
                {
                    let id: VectorId = ids[i];
                    proof {
                        let taken = ids@.take(i as int);
                        assert(ids@.take(i + 1) =~= taken.push(id));
                        crate::ids::lemma_push_has(taken, id);
                        assert(!taken.contains(id));
                    }
                    let staging: bool = self.staging_index(id).is_some();
                    if !staging || scope.include_staging {
                        if let Some(scored) = self.score_id(id, query, staging) {
                            all.push(scored);
                            proof {
                                lemma_push_entry(entries, (id, staging));
                                entries = entries.push((id, staging));
                            }
                        }
                    }
                    i = i + 1;
                }
                assert(ids@.take(ids@.len() as int) =~= ids@);
            },
        }
        assert(is_pool(v, scope, near, entries));
        assert(with_records(v, entries, all@)) by {
            assert forall|i: int| 0 <= i < entries.len() implies v.record_for(
                (#[trigger] entries[i]).0,
            ) is Some by {
                assert(entries.contains(entries[i]));
            }
        }
        let hits = self.collect_hits(&all, k, Ghost(entries));
        Ok(hits)
    }

    /// The candidates of a search.
    fn resolve_candidates(
        &self,
        query: &[u32],
        scope: &SearchScope<'_>,
        strategy: AnnStrategy,
    ) -> (r: Result<CandidateSet, DbError>)
        requires
            self.inv(),
            strategy is Ivf ==> self@.index_covers(),
        ensures
            match r {
                Ok(candidates) => {
                    &&& strategy !is Hnsw
                    &&& strategy is Ivf ==> self@.ivf is Some
                    &&& exists|near: Option<Seq<VectorId>>| #[trigger]
                        is_probe(self.math(), self@, query@, strategy, near) && resolved(
                            self@,
                            *scope,
                            near,
                            candidates,
                        )
                },
                Err(e) => match strategy {
                    AnnStrategy::Exact => false,
                    AnnStrategy::Ivf { .. } => self@.ivf is None && e == DbError::IvfNotBuilt,
                    AnnStrategy::Hnsw { .. } => e == DbError::HnswNotBuilt,
                },
            },
    {
        let ghost v = self@;
        let scoped = self.postings.resolve(
            scope.file_paths,
            scope.file_path_prefix,
            scope.kinds,
            scope.candidate_ids,
            &self.tombstones,
        );
        let scoped = match scoped {
            Some(ids) => Some(self.with_staged_in_scope(&ids, scope)),
            None => None,
        };
        match strategy {
            AnnStrategy::Exact => {
                let ghost near: Option<Seq<VectorId>> = None;
                assert(is_probe(self.math(), v, query@, strategy, near));
                match scoped {
                    Some(ids) => {
                        let candidates = CandidateSet::Ids(ids);
                        assert(resolved(v, *scope, near, candidates));
                        Ok(candidates)
                    },
                    None => {
                        assert(resolved(v, *scope, near, CandidateSet::All));
                        Ok(CandidateSet::All)
                    },
                }
            },
            AnnStrategy::Ivf { probe_buckets } => {
                let index = match &self.ivf {
                    Some(index) => index,
                    None => {
                        return Err(DbError::IvfNotBuilt);
                    },
                };
                let probe: usize = if probe_buckets == 0 {
                    1
                } else {
                    probe_buckets
                };
                let rows = index.candidates(&self.math, query, self.dim, probe, &self.tombstones);
                let ghost near = Some(rows@);
                assert(is_probe(self.math(), v, query@, strategy, near));
                let ids = match scoped {
                    Some(ids) => self.keep_near(&ids, &rows, scope.include_staging),
                    None => self.all_near(&rows, scope.include_staging),
                };
                let candidates = CandidateSet::Ids(ids);
                assert(resolved(v, *scope, near, candidates));
                Ok(candidates)
            },
            AnnStrategy::Hnsw { .. } => Err(DbError::HnswNotBuilt),
        }
    }

    /// The listed ids that are not staged and, where the scope has them, the staged rows that meet
    /// its filters.
    fn with_staged_in_scope(&self, ids: &Vec<VectorId>, scope: &SearchScope<'_>) -> (r: Vec<
        VectorId,
    >)
        requires
            self.inv(),
            ids@.no_duplicates(),
        ensures
            r@.no_duplicates(),
            forall|id: VectorId|
                #![trigger r@.contains(id)]
                r@.contains(id) <==> match staged(self@.staging, id) {
                    Some(s) => scope.include_staging && meets(*scope, id, s.record),
                    None => ids@.contains(id),
                },
    {
        let ghost v = self@;
        let mut out: Vec<VectorId> = Vec::new();
        let mut i: usize = 0;
        while i < ids.len()
            invariant
                i <= ids@.len(),
                v == self@,
                self.inv(),
                ids@.no_duplicates(),
                out@.no_duplicates(),
                forall|id: VectorId|
                    #![trigger out@.contains(id)]
                    out@.contains(id) <==> ids@.take(i as int).contains(id) && staged(
                        v.staging,
                        id,
                    ) is None,
            decreases ids@.len() - i,
        {
            let id: VectorId = ids[i];
            let ghost before = out@;
            proof {
                assert(ids@.take(i + 1) =~= ids@.take(i as int).push(id));
                assert(!ids@.take(i as int).contains(id));
                crate::ids::lemma_push_has(ids@.take(i as int), id);
                crate::ids::lemma_push_has(before, id);
                assert(forall|p: int|
                    0 <= p < before.len() ==> before.contains(#[trigger] before[p]));
            }
            if self.staging_index(id).is_none() {
                out.push(id);
            }
            i = i + 1;
        }
        assert(ids@.take(ids@.len() as int) =~= ids@);
        if scope.include_staging {
            let mut j: usize = 0;
            while j < self.staging.len()
                invariant
                    j <= self.staging@.len(),
                    v == self@,
                    self.inv(),
                    out@.no_duplicates(),
                    forall|id: VectorId|
                        #![trigger out@.contains(id)]
                        out@.contains(id) <==> match staged(v.staging, id) {
                            Some(s) => staged_before(v, j as int, id) && meets(
                                *scope,
                                id,
                                s.record,
                            ),
                            None => ids@.contains(id),
                        },
                decreases self.staging@.len() - j,
            {
                let id: VectorId = self.staging[j].id;
                let ghost before = out@;
                proof {
                    lemma_staged_before(v, j as int);
                    super::lemma_staged_at(v.staging, id, j as int);
                    crate::ids::lemma_push_has(before, id);
                    assert(!before.contains(id));
                    assert(forall|p: int|
                        0 <= p < before.len() ==> before.contains(#[trigger] before[p]));
                }
                if meets_filters(scope, id, &self.staging[j].record) {
                    out.push(id);
                }
                j = j + 1;
            }
            proof {
                lemma_staged_all(v);
            }
        }
        out
    }

    /// The set of the rows in the probed buckets and, where asked for, of all staged rows.
    fn near_set(&self, rows: &Vec<VectorId>, include_staging: bool) -> (r: HashSet<VectorId>)
        requires
            self.inv(),
        ensures
            forall|id: VectorId| #[trigger]
                r@.contains(id) <==> rows@.contains(id) || (include_staging && staged(
                    self@.staging,
                    id,
                ) is Some),
    {
        let ghost v = self@;
        let mut set: HashSet<VectorId> = HashSet::new();
        let mut i: usize = 0;
        while i < rows.len()
            invariant
                i <= rows@.len(),
                forall|id: VectorId| #[trigger]
                    set@.contains(id) <==> rows@.take(i as int).contains(id),
            decreases rows@.len() - i,
        {
            let id: VectorId = rows[i];
            proof {
                assert(rows@.take(i + 1) =~= rows@.take(i as int).push(id));
                crate::ids::lemma_push_has(rows@.take(i as int), id);
            }
            set.insert(id);
            i = i + 1;
        }
        assert(rows@.take(rows@.len() as int) =~= rows@);
        if include_staging {
            let mut j: usize = 0;
            while j < self.staging.len()
                invariant
                    j <= self.staging@.len(),
                    v == self@,
                    self.inv(),
                    forall|id: VectorId| #[trigger]
                        set@.contains(id) <==> rows@.contains(id) || staged_before(
                            v,
                            j as int,
                            id,
                        ),
                decreases self.staging@.len() - j,
            {
                proof {
                    lemma_staged_before(v, j as int);
                }
                set.insert(self.staging[j].id);
                j = j + 1;
            }
            proof {
                lemma_staged_all(v);
            }
        }
        set
    }

    /// The ids that are in a probed bucket or, where asked for, staged.
    fn keep_near(
        &self,
        ids: &Vec<VectorId>,
        rows: &Vec<VectorId>,
        include_staging: bool,
    ) -> (r: Vec<VectorId>)
        requires
            self.inv(),
            ids@.no_duplicates(),
        ensures
            r@.no_duplicates(),
            forall|id: VectorId|
                #![trigger r@.contains(id)]
                r@.contains(id) <==> ids@.contains(id) && (rows@.contains(id) || (include_staging
                    && staged(self@.staging, id) is Some)),
    {
        let set = self.near_set(rows, include_staging);
        let mut kept: Vec<VectorId> = Vec::new();
        let mut i: usize = 0;
        while i < ids.len()
            invariant
                i <= ids@.len(),
                ids@.no_duplicates(),
                kept@.no_duplicates(),
                forall|id: VectorId|
                    #![trigger kept@.contains(id)]
                    kept@.contains(id) <==> ids@.take(i as int).contains(id) && set@.contains(id),
            decreases ids@.len() - i,
        {
            let id: VectorId = ids[i];
            let ghost before = kept@;
            proof {
                assert(ids@.take(i + 1) =~= ids@.take(i as int).push(id));
                assert(!ids@.take(i as int).contains(id));
                crate::ids::lemma_push_has(ids@.take(i as int), id);
                crate::ids::lemma_push_has(before, id);
                assert(forall|p: int|
                    0 <= p < before.len() ==> before.contains(#[trigger] before[p]));
            }
            if set.contains(&id) {
                kept.push(id);
            }
            i = i + 1;
        }
        assert(ids@.take(ids@.len() as int) =~= ids@);
        kept
    }

    /// All ids that are in a probed bucket or, where asked for, staged.
    fn all_near(&self, rows: &Vec<VectorId>, include_staging: bool) -> (r: Vec<VectorId>)
        requires
            self.inv(),
        ensures
            r@.no_duplicates(),
            forall|id: VectorId|
                #![trigger r@.contains(id)]
                r@.contains(id) <==> rows@.contains(id) || (include_staging && staged(
                    self@.staging,
                    id,
                ) is Some),
    {
        let set = self.near_set(rows, include_staging);
        let ids = crate::ids::set_ids(&set);
        assert forall|id: VectorId|
            #![trigger ids@.contains(id)]
            ids@.contains(id) <==> rows@.contains(id) || (include_staging && staged(
                self@.staging,
                id,
            ) is Some) by {
            assert(set@.contains(id) <==> ids@.contains(id));
        }
        ids
    }

    /// Scores one entry, where it has a row and a record.
    fn score_id(&self, id: VectorId, query: &[u32], staging: bool) -> (r: Option<Scored>)
        requires
            self.inv(),
        ensures
            match r {
                Some(scored) => scorable(self@, id, staging) && scored.id == id && dot_is(
                    self.math(),
                    query@,
                    entry_row(self@, id, staging)->Some_0,
                    scored.score,
                ),
                None => !scorable(self@, id, staging),
            },
    {
        if self.record_for_id(id).is_none() {
            return None;
        }
        let score: u32 = if staging {
            match self.staging_index(id) {
                Some(i) => dot_product(&self.math, query, self.staging[i].vector.as_slice()),
                None => {
                    return None;
                },
            }
        } else {
            match self.persistent_vector_at(id) {
                Some(row) => dot_product(&self.math, query, row.as_slice()),
                None => {
                    return None;
                },
            }
        };
        Some(Scored { id: id as u64, score })
    }

    /// The best hits with their records.
    fn collect_hits(
        &self,
        all: &Vec<Scored>,
        k: usize,
        Ghost(entries): Ghost<Seq<(VectorId, bool)>>,
    ) -> (r: Vec<SearchHit>)
        requires
            self.inv(),
            with_records(self@, entries, all@),
        ensures
            best_hits(self@, all@, k as nat, r@),
    {
        let top = top_candidates(all, k);
        let mut hits: Vec<SearchHit> = Vec::new();
        let mut i: usize = 0;
        while i < top.len()
            invariant
                i <= top@.len(),
                self.inv(),
                is_top(top@, all@, k as nat),
                with_records(self@, entries, all@),
                hit_scores(hits@) == top@.take(i as int),
                forall|j: int|
                    0 <= j < hits@.len() ==> self@.record_for((#[trigger] hits@[j]).id) == Some(
                        hits@[j].record,
                    ),
            decreases top@.len() - i,
        {
            let scored: Scored = top[i];
            proof {
                lemma_hit_is_candidate(top@, all@, k as nat, i as int);
                let p = choose|p: int| 0 <= p < all@.len() && all@[p] == scored;
                assert(all@[p].id == entries[p].0);
                assert(self@.record_for(scored.id as VectorId) is Some);
            }
            let id: VectorId = scored.id as VectorId;
            if let Some(record) = self.record_for_id(id) {
                let ghost before = hits@;
                hits.push(SearchHit { score: scored.score, id, record: record.clone() });
                assert(hit_scores(hits@) =~= hit_scores(before).push(scored));
            }
            assert(top@.take(i + 1) =~= top@.take(i as int).push(scored));
            i = i + 1;
        }
        assert(top@.take(top@.len() as int) =~= top@);
        hits
    }
}

/// Every scored entry has a record.
spec fn with_records(v: DbView, entries: Seq<(VectorId, bool)>, all: Seq<Scored>) -> bool {
    all.len() == entries.len() && forall|i: int|
        #![trigger all[i]]
        0 <= i < all.len() ==> all[i].id == entries[i].0 && v.record_for(entries[i].0) is Some
}

/// The candidates are those of the scope and the probed buckets, as far as their tier counts.
spec fn resolved(
    v: DbView,
    scope: SearchScope<'_>,
    near: Option<Seq<VectorId>>,
    candidates: CandidateSet,
) -> bool {
    match candidates {
        CandidateSet::All => scope.unrestricted() && near is None,
        CandidateSet::Ids(ids) => {
            &&& !(scope.unrestricted() && near is None)
            &&& ids@.no_duplicates()
            &&& forall|id: VectorId|
                #![trigger ids@.contains(id)]
                (staged(v.staging, id) is Some ==> scope.include_staging) ==> (ids@.contains(id)
                    <==> in_scope(v, scope, id) && (near matches Some(near) ==> near_enough(
                    v,
                    scope,
                    near,
                    id,
                )))
        },
    }
}

/// The id is staged before place `j`.
spec fn staged_before(v: DbView, j: int, id: VectorId) -> bool {
    exists|p: int| 0 <= p < j && (#[trigger] v.staging[p]).id == id
}

proof fn lemma_staged_before(v: DbView, j: int)
    requires
        v.staging_valid(),
        0 <= j < v.staging.len(),
    ensures
        forall|id: VectorId| #[trigger]
            staged_before(v, j + 1, id) <==> staged_before(v, j, id) || id == v.staging[j].id,
        !staged_before(v, j, v.staging[j].id),
{
    assert forall|id: VectorId| #[trigger]
        staged_before(v, j + 1, id) <==> staged_before(v, j, id) || id == v.staging[j].id by {
        if staged_before(v, j, id) {
            let p = choose|p: int| 0 <= p < j && (#[trigger] v.staging[p]).id == id;
            assert(v.staging[p].id == id);
        }
    }
}

proof fn lemma_staged_all(v: DbView)
    requires
        v.staging_valid(),
    ensures
        forall|id: VectorId| #[trigger]
            staged_before(v, v.staging.len() as int, id) <==> staged(v.staging, id) is Some,
{
    assert forall|id: VectorId| #[trigger]
        staged_before(v, v.staging.len() as int, id) <==> staged(v.staging, id) is Some by {
        if staged_before(v, v.staging.len() as int, id) {
            let p = choose|p: int|
                0 <= p < v.staging.len() && (#[trigger] v.staging[p]).id == id;
            super::lemma_staged_at(v.staging, id, p);
        } else {
            super::lemma_not_staged(v.staging, id);
        }
    }
}

proof fn lemma_push_entry(entries: Seq<(VectorId, bool)>, e: (VectorId, bool))
    requires
        entries.no_duplicates(),
        !entries.contains(e),
    ensures
        entries.push(e).no_duplicates(),
        forall|x: (VectorId, bool)| #[trigger]
            entries.push(e).contains(x) <==> entries.contains(x) || x == e,
{
    let more = entries.push(e);
    assert forall|x: (VectorId, bool)| #[trigger] more.contains(x) <==> entries.contains(x) || x
        == e by {
        if entries.contains(x) {
            let p = choose|p: int| 0 <= p < entries.len() && entries[p] == x;
            assert(more[p] == x);
        }
        if x == e {
            assert(more[entries.len() as int] == x);
        }
    }
    assert forall|i: int, j: int| 0 <= i < more.len() && 0 <= j < more.len() && i
        != j implies more[i] != more[j] by {
        if i < entries.len() {
            assert(entries.contains(entries[i]));
        }
        if j < entries.len() {
            assert(entries.contains(entries[j]));
        }
    }
}

} // verus!
