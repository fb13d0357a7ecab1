//! Compaction of the vector file and the bucketed index over its rows.

use vstd::prelude::*;

use super::{lemma_listed_len, DiskOp, Rek0nDb};
use crate::bits::bits_ge;
use crate::compact::{compact_vectors, compacted, row_lost};
use crate::ids::set_ids;
use crate::ivf::{
    build_ivf_index, default_ivf_buckets, default_ivf_probe, lemma_lacks_row, row_of,
    write_centroids, VectorMath,
};
use crate::manifest::row_fits;
use crate::state::{
    bucket_settings, compact_outcome, compaction_due, compaction_step, index_built, maybe_compacted,
    maybe_compacted_at, rebuilt, DbView, OpView,
};
use crate::types::{CompactionPolicy, CompactionStats, DbError, VectorId};
use crate::words::{bytes_from_words, bytes_of, law_words_of_bytes_of};

verus! {

broadcast use vstd::std_specs::hash::group_hash_axioms;

/// Every live row of an aligned vector file can be read.
pub(crate) proof fn lemma_live_rows(v: DbView)
    requires
        v.inv(),
        v.aligned(),
    ensures
        forall|id: VectorId| #[trigger] v.live().contains(id) ==> row_of(
            v.words(),
            v.dim as nat,
            v.offsets,
            id,
        ) is Some,
{
    assert forall|id: VectorId| #[trigger] v.live().contains(id) implies row_of(
        v.words(),
        v.dim as nat,
        v.offsets,
        id,
    ) is Some by {
        assert(row_fits(v.dim as nat, v.offsets, v.bytes.len(), id));
        assert(v.offsets.dom().contains(id));
    }
}

/// A compaction leaves a store in order.
pub(crate) proof fn lemma_compaction_inv(v: DbView, w: DbView, stats: CompactionStats)
    requires
        v.inv(),
        compaction_step(v, w, stats),
    ensures
        w.inv(),
        w.aligned(),
        w.live() == v.live(),
        v.index_usable() ==> w.index_usable(),
{
    let words = choose|words: Seq<u32>|
        {
            &&& #[trigger] compacted(
                v.dim as nat,
                v.live(),
                v.offsets,
                v.words(),
                w.offsets,
                words,
            )
            &&& w == (DbView {
                bytes: bytes_of(v.order, words),
                offsets: w.offsets,
                records: v.records.remove_keys(v.tombstones),
                tombstones: Set::empty(),
                ..v
            }).with_op(OpView::ReplaceVectors(bytes_of(v.order, words))).recorded()
        };
    let ids = choose|ids: Seq<VectorId>|
        #[trigger] crate::compact::ascending(ids, v.live()) && crate::compact::laid_out(
            v.dim as nat,
            ids,
            v.offsets,
            v.words(),
            w.offsets,
            words,
        );
    law_words_of_bytes_of(v.order, words);
    assert(w.records.dom() =~= v.live());
    assert(w.live() =~= v.live());
    assert(w.offsets.dom() =~= v.live()) by {
        assert forall|id: VectorId| w.offsets.dom().contains(id) <==> v.live().contains(id) by {
            assert(ids.to_set().contains(id) <==> ids.contains(id));
        }
    }
    assert forall|id: VectorId| w.live().contains(id) implies #[trigger] row_fits(
        w.dim as nat,
        w.offsets,
        w.bytes.len(),
        id,
    ) by {
        assert(ids.contains(id));
        let i = choose|i: int| 0 <= i < ids.len() && ids[i] == id;
        assert(row_of(words, v.dim as nat, w.offsets, ids[i]) is Some);
        assert(w.offsets[ids[i]] == 4 * (i * v.dim));
    }
}

impl<M: VectorMath> Rek0nDb<M> {
    /// Drops the records of all ids that carry a tombstone.
    fn forget_tombstoned(&mut self)
        requires
            old(self).parts_ok(),
        ensures
            final(self).parts_ok(),
            final(self).math() == old(self).math(),
            final(self)@ == (DbView {
                records: old(self)@.records.remove_keys(old(self)@.tombstones),
                tombstones: Set::empty(),
                ..old(self)@
            }),
    {
        let dead = set_ids(&self.tombstones);
        let ghost before = *self;
        let mut i: usize = 0;
        assert(self.records@ =~= before.records@.remove_keys(dead@.take(0).to_set())) by {
            assert forall|id: VectorId| !dead@.take(0).to_set().contains(id) by {
                assert(!dead@.take(0).contains(id));
            }
        }
        while i < dead.len()
            invariant
                i <= dead@.len(),
                *self == (Rek0nDb { records: self.records, ..before }),
                self.records@ == before.records@.remove_keys(dead@.take(i as int).to_set()),
            decreases dead@.len() - i,
        {
            let id: VectorId = dead[i];
            self.records.remove(&id);
            proof {
                let taken = dead@.take(i as int);
                assert(dead@.take(i + 1) =~= taken.push(id));
                crate::ids::lemma_push_has(taken, id);
                assert forall|x: VectorId| taken.push(id).to_set().contains(x)
                    <==> taken.to_set().contains(x) || x == id by {
                    assert(taken.push(id).contains(x) <==> taken.contains(x) || x == id);
                }
                assert(self.records@ =~= before.records@.remove_keys(taken.push(id).to_set()));
            }
            i = i + 1;
        }
        proof {
            assert(dead@.take(dead@.len() as int) =~= dead@);
            assert(dead@.to_set() =~= before.tombstones@) by {
                assert forall|x: VectorId| dead@.to_set().contains(x)
                    <==> before.tombstones@.contains(x) by {
                    assert(dead@.to_set().contains(x) <==> dead@.contains(x));
                }
            }
        }
        self.tombstones.clear();
    }

    /// Rewrites the vector file without dead rows, and builds the bucketed index again.
    pub fn compact(&mut self) -> (r: Result<CompactionStats, DbError>)
        requires
            old(self).inv(),
        ensures
            final(self).inv(),
            final(self).math() == old(self).math(),
            old(self)@.index_usable() ==> final(self)@.index_usable(),
            compact_outcome(old(self).math(), old(self)@, final(self)@, r),
    {
        let ghost v = self@;
        if let Err(e) = self.ensure_writable() {
            return Err(e);
        }
        let words = match self.persistent_vectors() {
            Ok(words) => words,
            Err(e) => {
                return Err(e);
            },
        };
        let (new_words, new_offsets, stats) = match compact_vectors(
            self.dim,
            &self.records,
            &self.id_offsets,
            &self.tombstones,
            words.as_slice(),
        ) {
            Ok(result) => result,
            Err(e) => {
                proof {
                    lemma_live_rows(v);
                    let id = choose|id: VectorId|
                        #[trigger] v.live().contains(id) && row_of(
                            words@,
                            v.dim as nat,
                            v.offsets,
                            id,
                        ) is None;
                    assert(row_lost(v.live(), v.dim as nat, v.offsets, words@, e));
                    assert(v.live().contains(id));
                }
                return Err(e);
            },
        };
        let (num_buckets, probe_buckets): (usize, usize) = match &self.ivf {
            Some(index) => (index.num_buckets, index.probe_buckets),
            None => (default_ivf_buckets(), default_ivf_probe()),
        };
        self.forget_tombstoned();
        self.id_offsets = new_offsets;
        self.vectors = bytes_from_words(self.order, new_words.as_slice());
        let bytes = self.vectors.clone();
        assert(bytes@ =~= self.vectors@);
        self.push_op(DiskOp::ReplaceVectors(bytes));
        self.persist_manifest();
        let ghost m = self@;
        proof {
            assert(compacted(
                v.dim as nat,
                v.live(),
                v.offsets,
                v.words(),
                m.offsets,
                new_words@,
            ));
            assert(m =~= (DbView {
                bytes: bytes_of(v.order, new_words@),
                offsets: m.offsets,
                records: v.records.remove_keys(v.tombstones),
                tombstones: Set::empty(),
                ..v
            }).with_op(OpView::ReplaceVectors(bytes_of(v.order, new_words@))).recorded());
            assert(compaction_step(v, m, stats));
            lemma_compaction_inv(v, m, stats);
        }
        let done = self.rebuild_ivf_index(num_buckets, probe_buckets);
        assert(rebuilt(
            self.math(),
            m,
            bucket_settings(v).0,
            bucket_settings(v).1,
            self@,
            done,
        ));
        match done {
            Ok(()) => Ok(stats),
            Err(e) => Err(e),
        }
    }

    /// Compacts where the share of dead rows has reached the threshold.
    pub fn maybe_compact(&mut self) -> (r: Result<Option<CompactionStats>, DbError>)
        requires
            old(self).inv(),
        ensures
            final(self).inv(),
            final(self).math() == old(self).math(),
            old(self)@.index_usable() ==> final(self)@.index_usable(),
            maybe_compacted(old(self).math(), old(self)@, final(self)@, r),
    {
        let ghost v = self@;
        let ratio: u32 = self.dead_ratio();
        if is_compaction_due(ratio, self.compaction_policy, self.tombstones.len()) {
            let done = self.compact();
            let r = match done {
                Ok(stats) => Ok(Some(stats)),
                Err(e) => Err(e),
            };
            assert(compact_outcome(self.math(), v, self@, done));
            assert(maybe_compacted_at(self.math(), ratio, v, self@, r));
            r
        } else {
            assert(maybe_compacted_at(
                self.math(),
                ratio,
                v,
                self@,
                Ok::<Option<CompactionStats>, DbError>(None),
            ));
            Ok(None)
        }
    }

    /// Builds or rebuilds the bucketed index over the live rows.
    pub fn build_ivf_index(&mut self, num_buckets: usize, probe_buckets: usize) -> (r: Result<
        (),
        DbError,
    >)
        requires
            old(self).inv(),
        ensures
            final(self).inv(),
            final(self).math() == old(self).math(),
            old(self)@.index_usable() ==> final(self)@.index_usable(),
            rebuilt(
                old(self).math(),
                old(self)@,
                num_buckets,
                probe_buckets,
                final(self)@,
                r,
            ),
    {
        self.rebuild_ivf_index(num_buckets, probe_buckets)
    }

    fn rebuild_ivf_index(&mut self, num_buckets: usize, probe_buckets: usize) -> (r: Result<
        (),
        DbError,
    >)
        requires
            old(self).inv(),
        ensures
            final(self).inv(),
            final(self).math() == old(self).math(),
            old(self)@.index_usable() ==> final(self)@.index_usable(),
            rebuilt(
                old(self).math(),
                old(self)@,
                num_buckets,
                probe_buckets,
                final(self)@,
                r,
            ),
    {
        let ghost v = self@;
        if let Err(e) = self.ensure_writable() {
            return Err(e);
        }
        let ids = self.live_persistent_ids();
        proof {
            lemma_listed_len(ids@, v.live());
        }
        if ids.len() < num_buckets {
            self.ivf = None;
            assert(self@ =~= (DbView { ivf: None, ..v }));
            self.push_op(DiskOp::RemoveCentroids);
            self.persist_manifest();
            return Ok(());
        }
        let words = match self.persistent_vectors() {
            Ok(words) => words,
            Err(e) => {
                return Err(e);
            },
        };
        match build_ivf_index(
            &self.math,
            num_buckets,
            probe_buckets,
            self.dim,
            &ids,
            words.as_slice(),
            &self.id_offsets,
        ) {
            Ok(index) => {
                let bytes = write_centroids(self.order, index.centroids.as_slice());
                let ghost view = index@;
                self.ivf = Some(index);
                assert(self@ =~= (DbView { ivf: Some(view), ..v }));
                self.push_op(DiskOp::WriteCentroids(bytes));
                self.persist_manifest();
                assert(index_built(self.math(), v, num_buckets, probe_buckets, self@));
                Ok(())
            },
            Err(e) => {
                proof {
                    if num_buckets > 0 {
                        lemma_live_rows(v);
                        lemma_lacks_row(
                            words@,
                            v.dim as nat,
                            v.offsets,
                            ids@,
                            num_buckets as nat,
                            e,
                        );
                        assert forall|i: int| 0 <= i < ids@.len() implies row_of(
                            words@,
                            v.dim as nat,
                            v.offsets,
                            #[trigger] ids@[i],
                        ) is Some by {
                            assert(ids@.contains(ids@[i]));
                        }
                    }
                }
                Err(e)
            },
        }
    }
}

/// Whether a store with this share of dead rows, `dead` of them, is due for compaction.
pub fn is_compaction_due(ratio: u32, policy: CompactionPolicy, dead: usize) -> (r: bool)
    ensures
        r == compaction_due(ratio, policy, dead as nat),
{
    bits_ge(ratio, policy.dead_ratio_threshold) && dead > 0
}

} // verus!
