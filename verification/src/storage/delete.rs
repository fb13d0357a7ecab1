//! Taking rows out of the store, and putting others in their place.

use vstd::prelude::*;

use super::{staged_views, Rek0nDb};
use crate::ivf::VectorMath;
use crate::manifest::row_fits;
use crate::postings::list_of;
use crate::state::{
    chunk_inserted, chunks_inserted, delete_outcome, first_joins, maybe_compacted, of_other_files,
    refilled, replace_outcome, tombstone_list, tombstone_outcome, Chunk, DbView, Staged,
};
use crate::types::{ChunkRecord, DbError, VectorId, MAX_STAGING_VECTORS};
use crate::words::word_count;

verus! {

broadcast use vstd::std_specs::hash::group_hash_axioms;

/// The replacement rows behind a list of references.
pub open spec fn chunk_views(chunks: Seq<(&[u32], &ChunkRecord)>) -> Seq<Chunk> {
    Seq::new(chunks.len(), |i: int| Chunk { row: chunks[i].0@, record: *chunks[i].1 })
}

/// A tombstone leaves a store in order.
pub(crate) proof fn lemma_tombstone_inv(v: DbView, id: VectorId)
    requires
        v.inv(),
        v.records.contains_key(id),
    ensures
        v.with_tombstone(id).inv(),
        v.index_usable() ==> v.with_tombstone(id).index_usable(),
{
    let w = v.with_tombstone(id);
    assert forall|x: VectorId| w.live().contains(x) implies #[trigger] row_fits(
        w.dim as nat,
        w.offsets,
        w.bytes.len(),
        x,
    ) by {
        assert(v.live().contains(x));
        assert(row_fits(v.dim as nat, v.offsets, v.bytes.len(), x));
    }
}

/// Fewer staged rows leave a store in order.
pub(crate) proof fn lemma_fewer_staged_inv(v: DbView, path: Seq<char>)
    requires
        v.inv(),
    ensures
        (DbView { staging: of_other_files(v.staging, path), ..v }).inv(),
        of_other_files(v.staging, path).len() <= v.staging.len(),
{
    let w = DbView { staging: of_other_files(v.staging, path), ..v };
    lemma_other_files(v.staging, path);
    assert(w.live() =~= v.live());
    assert forall|x: VectorId| w.live().contains(x) implies #[trigger] row_fits(
        w.dim as nat,
        w.offsets,
        w.bytes.len(),
        x,
    ) by {
        assert(row_fits(v.dim as nat, v.offsets, v.bytes.len(), x));
    }
    assert forall|i: int| 0 <= i < w.staging.len() implies (#[trigger] w.staging[i]).row.len()
        == w.dim && w.staging[i].id < w.next_id by {
        let p = choose|p: int| i <= p < v.staging.len() && v.staging[p] == w.staging[i];
        assert(v.staging[p].row.len() == v.dim);
    }
}

/// What is left when the rows of a file are dropped: rows of other files, in their order.
pub(crate) proof fn lemma_other_files(staging: Seq<Staged>, path: Seq<char>)
    requires
        forall|a: int, b: int|
            0 <= a < b < staging.len() ==> (#[trigger] staging[a]).id < (#[trigger] staging[b]).id,
    ensures
        of_other_files(staging, path).len() <= staging.len(),
        forall|i: int|
            0 <= i < of_other_files(staging, path).len() ==> exists|p: int|
                i <= p < staging.len() && staging[p] == #[trigger] of_other_files(
                    staging,
                    path,
                )[i],
        forall|a: int, b: int|
            0 <= a < b < of_other_files(staging, path).len() ==> (#[trigger] of_other_files(
                staging,
                path,
            )[a]).id < (#[trigger] of_other_files(staging, path)[b]).id,
        forall|i: int|
            0 <= i < of_other_files(staging, path).len() ==> (#[trigger] of_other_files(
                staging,
                path,
            )[i]).record.file_path@ != path,
        forall|p: int|
            0 <= p < staging.len() && (#[trigger] staging[p]).record.file_path@ != path
                ==> of_other_files(staging, path).contains(staging[p]),
    decreases staging.len(),
{
    if staging.len() > 0 {
        let fewer = staging.drop_last();
        let last = staging.last();
        assert forall|a: int, b: int| 0 <= a < b < fewer.len() implies (#[trigger] fewer[a]).id < (
        #[trigger] fewer[b]).id by {
            assert(staging[a].id < staging[b].id);
        }
        lemma_other_files(fewer, path);
        let rest = of_other_files(fewer, path);
        let all = of_other_files(staging, path);
        assert(last == staging[staging.len() - 1]);
        assert forall|i: int| 0 <= i < all.len() implies exists|p: int|
            i <= p < staging.len() && staging[p] == #[trigger] all[i] by {
            if i < rest.len() {
                let p = choose|p: int| i <= p < fewer.len() && fewer[p] == rest[i];
                assert(staging[p] == all[i]);
            } else {
                assert(staging[staging.len() - 1] == all[i]);
            }
        }
        assert forall|a: int, b: int| 0 <= a < b < all.len() implies (#[trigger] all[a]).id < (
        #[trigger] all[b]).id by {
            if b == rest.len() {
                let p = choose|p: int| a <= p < fewer.len() && fewer[p] == rest[a];
                assert(staging[p].id < staging[staging.len() - 1].id);
            } else {
                assert(rest[a].id < rest[b].id);
            }
        }
        assert forall|p: int|
            0 <= p < staging.len() && (#[trigger] staging[p]).record.file_path@
                != path implies all.contains(staging[p]) by {
            if p < fewer.len() {
                assert(fewer[p] == staging[p]);
                assert(rest.contains(fewer[p]));
                let i = choose|i: int| 0 <= i < rest.len() && rest[i] == fewer[p];
                assert(all[i] == staging[p]);
            } else {
                assert(all[rest.len() as int] == last);
            }
        }
    }
}

/// Tombstones leave a store in order, whatever ids are listed.
pub(crate) proof fn lemma_tombstone_list_inv(v: DbView, ids: Seq<VectorId>)
    requires
        v.inv(),
    ensures
        tombstone_list(v, ids).0.inv(),
        v.index_usable() ==> tombstone_list(v, ids).0.index_usable(),
        tombstone_list(v, ids).1 <= ids.len(),
        tombstone_list(v, ids).0.staging == v.staging,
    decreases ids.len(),
{
    if ids.len() > 0 {
        lemma_tombstone_list_inv(v, ids.drop_last());
        let (m, n, stop) = tombstone_list(v, ids.drop_last());
        if stop is None && m.records.contains_key(ids.last()) {
            lemma_tombstone_inv(m, ids.last());
        }
    }
}

/// Once the list has stopped, further ids change nothing.
proof fn lemma_tombstone_stops(v: DbView, ids: Seq<VectorId>, n: int)
    requires
        0 <= n <= ids.len(),
        tombstone_list(v, ids.take(n)).2 is Some,
    ensures
        tombstone_list(v, ids) == tombstone_list(v, ids.take(n)),
    decreases ids.len(),
{
    if n < ids.len() {
        assert(ids.drop_last().take(n) =~= ids.take(n));
        lemma_tombstone_stops(v, ids.drop_last(), n);
    } else {
        assert(ids.take(n) =~= ids);
    }
}

impl<M: VectorMath> Rek0nDb<M> {
    /// Gives an id its tombstone, unless it has one.
    fn tombstone_id_inner(&mut self, id: VectorId) -> (r: Result<bool, DbError>)
        requires
            old(self).parts_ok(),
        ensures
            final(self).parts_ok(),
            final(self).math() == old(self).math(),
            if old(self)@.tombstones.contains(id) {
                r == Ok::<bool, DbError>(false) && final(self)@ == old(self)@
            } else if !old(self)@.records.contains_key(id) {
                r == Err::<bool, DbError>(DbError::MissingMetadata { id }) && final(self)@ == old(
                    self,
                )@
            } else {
                r == Ok::<bool, DbError>(true) && final(self)@ == old(self)@.with_tombstone(id)
            },
    {
        let ghost v = self@;
        if self.tombstones.contains(&id) {
            return Ok(false);
        }
        let record = match self.records.get(&id) {
            Some(record) => record.clone(),
            None => {
                return Err(DbError::MissingMetadata { id });
            },
        };
        self.tombstones.insert(id);
        self.postings.remove(id, &record);
        match &mut self.ivf {
            Some(index) => {
                index.assignments.remove(&id);
            },
            None => {},
        }
        assert(self@ =~= v.with_tombstone(id));
        Ok(true)
    }

    /// Drops the staged rows of a file and says how many there were.
    fn drop_staged(&mut self, path: &String) -> (r: usize)
        requires
            old(self).inv(),
        ensures
            final(self).inv(),
            final(self).math() == old(self).math(),
            final(self)@ == (DbView {
                staging: of_other_files(old(self)@.staging, path@),
                ..old(self)@
            }),
            r == old(self)@.staging.len() - final(self)@.staging.len(),
            r <= MAX_STAGING_VECTORS,
    {
        let ghost v = self@;
        let ghost before = *self;
        let total: usize = self.staging.len();
        let mut i: usize = 0;
        let mut dropped: usize = 0;
        proof {
            assert(v.staging.take(0) =~= Seq::<Staged>::empty());
            assert(self@.staging =~= of_other_files(v.staging.take(0), path@) + v.staging.skip(0));
        }
        while i < self.staging.len()
            invariant
                *self == (Rek0nDb { staging: self.staging, ..before }),
                v == before@,
                total == v.staging.len(),
                i + dropped <= total,
                self.staging@.len() == total - dropped,
                i == of_other_files(v.staging.take(i + dropped), path@).len(),
                staged_views(self.staging@) == of_other_files(
                    v.staging.take(i + dropped),
                    path@,
                ) + v.staging.skip(i + dropped),
            decreases total - dropped - i,
        {
            let ghost k = i + dropped;
            let ghost kept = of_other_files(v.staging.take(k), path@);
            let ghost views = staged_views(self.staging@);
            proof {
                assert(views[i as int] == v.staging.skip(k)[0]);
                assert(v.staging.take(k + 1).drop_last() =~= v.staging.take(k));
                assert(v.staging.take(k + 1).last() == v.staging[k]);
                assert(v.staging.skip(k).skip(1) =~= v.staging.skip(k + 1));
            }
            if self.staging[i].record.file_path == *path {
                self.staging.remove(i);
                dropped = dropped + 1;
                proof {
                    assert(staged_views(self.staging@) =~= views.remove(i as int));
                    assert(views.remove(i as int) =~= kept + v.staging.skip(k + 1));
                }
            } else {
                i = i + 1;
                proof {
                    assert(views =~= kept.push(v.staging[k]) + v.staging.skip(k + 1));
                }
            }
        }
        proof {
            assert(v.staging.take(total as int) =~= v.staging);
            assert(self@.staging =~= of_other_files(v.staging, path@));
            assert(self@ =~= (DbView { staging: of_other_files(v.staging, path@), ..v }));
            lemma_fewer_staged_inv(v, path@);
        }
        dropped
    }

    /// Takes all rows of a file out of the store and says how many there were.
    pub fn delete_by_file_path(&mut self, file_path: &str) -> (r: Result<usize, DbError>)
        requires
            old(self).inv(),
        ensures
            final(self).inv(),
            final(self).math() == old(self).math(),
            old(self)@.index_usable() ==> final(self)@.index_usable(),
            delete_outcome(old(self).math(), old(self)@, file_path@, final(self)@, r),
    {
        let ghost v = self@;
        if let Err(e) = self.ensure_writable() {
            return Err(e);
        }
        let path = file_path.to_owned();
        let ids: Vec<VectorId> = match self.postings.by_file.get(&path) {
            Some(ids) => ids.clone(),
            None => Vec::new(),
        };
        assert(ids@ =~= list_of(v.postings.by_file, file_path@));
        let count: usize = word_count(ids.as_slice());
        let mut removed: usize = 0;
        let mut i: usize = 0;
        proof {
            assert(ids@.take(0) =~= Seq::<VectorId>::empty());
        }
        while i < count
            invariant
                i <= count,
                count == ids@.len(),
                self.parts_ok(),
                self.math() == old(self).math(),
                v == old(self)@,
                v.inv(),
                !v.read_only,
                ids@ == list_of(v.postings.by_file, file_path@),
                removed <= i,
                tombstone_list(v, ids@.take(i as int)) == (
                    self@,
                    removed as nat,
                    None::<VectorId>,
                ),
            decreases count - i,
        {
            let id: VectorId = ids[i];
            proof {
                assert(ids@.take(i + 1).drop_last() =~= ids@.take(i as int));
                assert(ids@.take(i + 1).last() == id);
            }
            match self.tombstone_id_inner(id) {
                Ok(dirty) => {
                    if dirty {
                        removed = removed + 1;
                    }
                },
                Err(e) => {
                    proof {
                        lemma_tombstone_stops(v, ids@, i + 1);
                        lemma_tombstone_list_inv(v, ids@);
                    }
                    return Err(e);
                },
            }
            i = i + 1;
        }
        let ghost m = self@;
        proof {
            assert(ids@.take(ids@.len() as int) =~= ids@);
            lemma_tombstone_list_inv(v, ids@);
        }
        let dropped: usize = self.drop_staged(&path);
        let ghost d = self@;
        if removed > 0 {
            self.persist_manifest();
        }
        let ghost e = self@;
        proof {
            lemma_same_state_inv(d, e);
        }
        let done = self.maybe_compact();
        assert(maybe_compacted(self.math(), e, self@, done));
        match done {
            Ok(_) => Ok(removed + dropped),
            Err(e) => Err(e),
        }
    }

    /// Gives a single id its tombstone; says whether it had none before.
    pub fn tombstone(&mut self, id: VectorId) -> (r: Result<bool, DbError>)
        requires
            old(self).inv(),
        ensures
            final(self).inv(),
            final(self).math() == old(self).math(),
            old(self)@.index_usable() ==> final(self)@.index_usable(),
            tombstone_outcome(old(self).math(), old(self)@, id, final(self)@, r),
    {
        let ghost v = self@;
        if let Err(e) = self.ensure_writable() {
            return Err(e);
        }
        let dirty = match self.tombstone_id_inner(id) {
            Ok(dirty) => dirty,
            Err(e) => {
                return Err(e);
            },
        };
        if dirty {
            proof {
                lemma_tombstone_inv(v, id);
            }
            let ghost d = self@;
            self.persist_manifest();
            let ghost m = self@;
            proof {
                lemma_same_state_inv(d, m);
            }
            let done = self.maybe_compact();
            assert(maybe_compacted(self.math(), m, self@, done));
            if let Err(e) = done {
                return Err(e);
            }
        }
        Ok(dirty)
    }

    /// Puts other rows in the place of all rows of a file. Where a row joins, it needs a bucket
    /// of the index that is there once the old rows are gone.
    pub fn replace_file(&mut self, file_path: &str, chunks: &[(&[u32], &ChunkRecord)]) -> (r: Result<
        (),
        DbError,
    >)
        requires
            old(self).inv(),
            old(self)@.index_usable() || forall|m: DbView, removed: Result<usize, DbError>|
                #[trigger] delete_outcome(old(self).math(), old(self)@, file_path@, m, removed)
                    && removed is Ok && first_joins(m, file_path@, chunk_views(chunks@))
                    ==> m.index_usable(),
        ensures
            final(self).inv(),
            old(self)@.index_usable() ==> final(self)@.index_usable(),
            final(self).math() == old(self).math(),
            replace_outcome(
                old(self).math(),
                old(self)@,
                file_path@,
                chunk_views(chunks@),
                final(self)@,
                r,
            ),
    {
        let ghost v = self@;
        let removed = self.delete_by_file_path(file_path);
        let ghost m = self@;
        assert(delete_outcome(self.math(), v, file_path@, m, removed));
        if let Err(e) = removed {
            return Err(e);
        }
        let r = self.refill_file(file_path, chunks);
        assert(refilled(self.math(), m, file_path@, chunk_views(chunks@), self@, r));
        r
    }

    /// Whether the first of the rows that are to fill a file is not refused.
    pub fn first_joins(&self, file_path: &str, chunks: &[(&[u32], &ChunkRecord)]) -> (r: bool)
        ensures
            r == first_joins(self@, file_path@, chunk_views(chunks@)),
    {
        if chunks.len() == 0 {
            return false;
        }
        let vector: &[u32] = chunks[0].0;
        let record: &ChunkRecord = chunks[0].1;
        record.file_path == file_path.to_owned() && self.insert_refusal(vector, record).is_none()
    }

    /// Adds the rows of a file from which all earlier rows were taken.
    pub fn refill_file(&mut self, file_path: &str, chunks: &[(&[u32], &ChunkRecord)]) -> (r: Result<
        (),
        DbError,
    >)
        requires
            old(self).inv(),
            first_joins(old(self)@, file_path@, chunk_views(chunks@)) ==> old(
                self,
            )@.index_usable(),
        ensures
            final(self).inv(),
            old(self)@.index_usable() ==> final(self)@.index_usable(),
            final(self).math() == old(self).math(),
            refilled(
                old(self).math(),
                old(self)@,
                file_path@,
                chunk_views(chunks@),
                final(self)@,
                r,
            ),
    {
        let ghost v = self@;
        let ghost all = chunk_views(chunks@);
        let path = file_path.to_owned();
        let mut i: usize = 0;
        assert(all.take(0) =~= Seq::<Chunk>::empty());
        while i < chunks.len()
            invariant
                i <= chunks@.len(),
                all == chunk_views(chunks@),
                path@ == file_path@,
                v == old(self)@,
                self.inv(),
                i == 0 ==> self@ == v,
                i > 0 || first_joins(v, file_path@, all) ==> self@.index_usable(),
                old(self)@.index_usable() ==> self@.index_usable(),
                self.math() == old(self).math(),
                chunks_inserted(
                    self.math(),
                    v,
                    file_path@,
                    all.take(i as int),
                    self@,
                    None::<DbError>,
                ),
            decreases chunks@.len() - i,
        {
            let ghost m = self@;
            let vector: &[u32] = chunks[i].0;
            let record: &ChunkRecord = chunks[i].1;
            assert(all[i as int] == (Chunk { row: vector@, record: *record }));
            if record.file_path != path {
                let e = DbError::FilePathMismatch { expected: path, got: record.file_path.clone() };
                proof {
                    lemma_one_more_chunk(
                        self.math(),
                        v,
                        file_path@,
                        all,
                        i as int,
                        m,
                        None,
                        self@,
                        Some(e),
                    );
                    lemma_chunks_stop(self.math(), v, file_path@, all, i + 1, self@, e);
                }
                return Err(e);
            }
            match self.insert_persistent_inner(vector, record) {
                Ok(_) => {
                    proof {
                        lemma_one_more_chunk(
                            self.math(),
                            v,
                            file_path@,
                            all,
                            i as int,
                            m,
                            None,
                            self@,
                            None,
                        );
                    }
                },
                Err(e) => {
                    proof {
                        lemma_one_more_chunk(
                            self.math(),
                            v,
                            file_path@,
                            all,
                            i as int,
                            m,
                            None,
                            self@,
                            Some(e),
                        );
                        lemma_chunks_stop(self.math(), v, file_path@, all, i + 1, self@, e);
                    }
                    return Err(e);
                },
            }
            i = i + 1;
        }
        let ghost m = self@;
        assert(all.take(all.len() as int) =~= all);
        self.persist_manifest();
        let ghost n = self@;
        proof {
            lemma_same_state_inv(m, n);
        }
        let done = self.maybe_compact();
        assert(maybe_compacted(self.math(), n, self@, done));
        match done {
            Ok(_) => Ok(()),
            Err(e) => Err(e),
        }
    }
}

/// Queued changes do not count for the state itself.
pub(crate) proof fn lemma_same_state_inv(v: DbView, w: DbView)
    requires
        v.inv(),
        w == (DbView { ops: w.ops, ..v }),
    ensures
        w.inv(),
        v.index_usable() ==> w.index_usable(),
{
    assert(w.live() =~= v.live());
    assert forall|x: VectorId| w.live().contains(x) implies #[trigger] row_fits(
        w.dim as nat,
        w.offsets,
        w.bytes.len(),
        x,
    ) by {
        assert(row_fits(v.dim as nat, v.offsets, v.bytes.len(), x));
    }
}

proof fn lemma_one_more_chunk<M: VectorMath>(
    math: M,
    v: DbView,
    path: Seq<char>,
    chunks: Seq<Chunk>,
    i: int,
    m: DbView,
    before: Option<DbError>,
    w: DbView,
    stop: Option<DbError>,
)
    requires
        0 <= i < chunks.len(),
        chunks_inserted(math, v, path, chunks.take(i), m, before),
        chunk_inserted(math, m, before, path, chunks[i], w, stop),
    ensures
        chunks_inserted(math, v, path, chunks.take(i + 1), w, stop),
{
    let more = chunks.take(i + 1);
    assert(more.drop_last() =~= chunks.take(i));
    assert(more.last() == chunks[i]);
    assert(chunk_inserted(math, m, before, path, more.last(), w, stop));
}

/// After a refusal the remaining rows change nothing.
proof fn lemma_chunks_stop<M: VectorMath>(
    math: M,
    v: DbView,
    path: Seq<char>,
    chunks: Seq<Chunk>,
    i: int,
    w: DbView,
    e: DbError,
)
    requires
        0 <= i <= chunks.len(),
        chunks_inserted(math, v, path, chunks.take(i), w, Some(e)),
    ensures
        chunks_inserted(math, v, path, chunks, w, Some(e)),
    decreases chunks.len() - i,
{
    if i < chunks.len() {
        lemma_one_more_chunk(math, v, path, chunks, i, w, Some(e), w, Some(e));
        lemma_chunks_stop(math, v, path, chunks, i + 1, w, e);
    } else {
        assert(chunks.take(i) =~= chunks);
    }
}

} // verus!
