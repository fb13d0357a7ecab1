//! Adding rows to both tiers, and moving staged rows to the persistent one.

use vstd::prelude::*;
use vstd::slice::slice_to_vec;

use super::{staged_views, DiskOp, Rek0nDb, StagedRow};
use crate::ivf::{wide_product, VectorMath};
use crate::manifest::row_fits;
use crate::state::{
    appended, clear_outcome, flush_outcome, flush_refusal, flushed, insert_outcome, inserted,
    maybe_compacted, rows_appended, stage_outcome, text_len, DbView, OpView, Staged,
};
use crate::types::{
    key_parts, record_from_metadata_id, ChunkRecord, DbError, VectorId, MAX_RECORD_TEXT_BYTES,
    MAX_STAGING_VECTORS, MAX_VECTORS_BYTES,
};
use crate::words::{byte_len, bytes_from_words, bytes_of};

verus! {

broadcast use vstd::std_specs::hash::group_hash_axioms;

/// A new row leaves a store in order.
pub(crate) proof fn lemma_appended_inv<M: VectorMath>(
    math: M,
    v: DbView,
    id: VectorId,
    row: Seq<u32>,
    record: ChunkRecord,
    w: DbView,
)
    requires
        v.inv(),
        v.bytes.len() <= u64::MAX,
        row.len() == v.dim,
        appended(math, v, id, row, record, w),
    ensures
        w.inv(),
        v.index_usable() ==> w.index_usable(),
{
    assert(w.records.dom() =~= w.offsets.dom());
    assert forall|x: VectorId| w.live().contains(x) implies #[trigger] row_fits(
        w.dim as nat,
        w.offsets,
        w.bytes.len(),
        x,
    ) by {
        if x != id {
            assert(v.live().contains(x));
            assert(row_fits(v.dim as nat, v.offsets, v.bytes.len(), x));
        }
    }
}

proof fn lemma_one_more_row<M: VectorMath>(
    math: M,
    v: DbView,
    rows: Seq<Staged>,
    i: int,
    m: DbView,
    w: DbView,
)
    requires
        0 <= i < rows.len(),
        rows_appended(math, v, rows.take(i), m),
        appended(math, m, rows[i].id, rows[i].row, rows[i].record, w),
    ensures
        rows_appended(math, v, rows.take(i + 1), w),
{
    let more = rows.take(i + 1);
    assert(more.drop_last() =~= rows.take(i));
    assert(more.last() == rows[i]);
    assert(appended(math, m, more.last().id, more.last().row, more.last().record, w));
}

impl<M: VectorMath> Rek0nDb<M> {
    fn validate_vector(&self, vector: &[u32]) -> (r: Result<(), DbError>)
        ensures
            r == (if vector@.len() != self@.dim {
                Err(
                    DbError::InvalidDimension {
                        expected: self@.dim,
                        got: vector@.len() as usize,
                    },
                )
            } else {
                Ok(())
            }),
    {
        if vector.len() != self.dim {
            return Err(DbError::InvalidDimension { expected: self.dim, got: vector.len() });
        }
        Ok(())
    }

    fn validate_record(&self, record: &ChunkRecord) -> (r: Result<(), DbError>)
        ensures
            r == (if text_len(*record) > MAX_RECORD_TEXT_BYTES {
                Err(
                    DbError::RecordTextTooLarge {
                        len: text_len(*record),
                        max: MAX_RECORD_TEXT_BYTES,
                    },
                )
            } else {
                Ok(())
            }),
    {
        let len: usize = record.text.as_str().len();
        if len > MAX_RECORD_TEXT_BYTES {
            return Err(DbError::RecordTextTooLarge { len, max: MAX_RECORD_TEXT_BYTES });
        }
        Ok(())
    }

    /// Checks that `more` bytes fit into the vector file.
    fn ensure_capacity(&self, more: u128) -> (r: Result<(), DbError>)
        requires
            more <= 0xffff_ffff_ffff_ffff_ffff_ffff,
        ensures
            r == (match self@.capacity_refusal(more as int) {
                Some(e) => Err(e),
                None => Ok(()),
            }),
    {
        let projected: u128 = self.vectors.len() as u128 + more;
        if projected > MAX_VECTORS_BYTES as u128 {
            let len: u64 = if projected > u64::MAX as u128 {
                u64::MAX
            } else {
                projected as u64
            };
            return Err(DbError::VectorsFileTooLarge { len, max: MAX_VECTORS_BYTES });
        }
        Ok(())
    }

    fn ensure_vector_capacity(&self, vector: &[u32]) -> (r: Result<(), DbError>)
        ensures
            r == (match self@.capacity_refusal(4 * vector@.len() as int) {
                Some(e) => Err(e),
                None => Ok(()),
            }),
    {
        self.ensure_capacity(byte_len(vector) as u128)
    }

    fn ensure_staging_flush_capacity(&self, row_count: usize) -> (r: Result<(), DbError>)
        requires
            row_count <= MAX_STAGING_VECTORS,
        ensures
            r == (match self@.capacity_refusal(row_count * self@.dim * 4) {
                Some(e) => Err(e),
                None => Ok(()),
            }),
    {
        let words: u128 = wide_product(row_count, self.dim);
        assert(words <= 16_384 * 0xffff_ffff_ffff_ffff) by (nonlinear_arith)
            requires
                words == row_count * self.dim,
                0 <= row_count <= 16_384,
                0 <= self.dim <= 0xffff_ffff_ffff_ffff,
        ;
        self.ensure_capacity(words * 4)
    }

    /// Takes the next id.
    fn allocate_id(&mut self) -> (r: Result<VectorId, DbError>)
        requires
            old(self).parts_ok(),
        ensures
            final(self).parts_ok(),
            final(self).math() == old(self).math(),
            match r {
                Ok(id) => id < VectorId::MAX && id == old(self)@.next_id && final(self)@ == (
                DbView { next_id: (id + 1) as VectorId, ..old(self)@ }),
                Err(e) => e == DbError::IdExhausted && old(self)@.next_id == VectorId::MAX
                    && final(self)@ == old(self)@,
            },
    {
        if self.next_id == VectorId::MAX {
            return Err(DbError::IdExhausted);
        }
        let id: VectorId = self.next_id;
        self.next_id = id + 1;
        Ok(id)
    }

    /// Adds a row to the staging tier.
    pub fn insert_staging(&mut self, vector: &[u32], record: &ChunkRecord) -> (r: Result<
        VectorId,
        DbError,
    >)
        requires
            old(self).inv(),
        ensures
            final(self).inv(),
            final(self).math() == old(self).math(),
            stage_outcome(old(self)@, vector@, *record, final(self)@, r),
    {
        let ghost v = self@;
        if let Err(e) = self.ensure_writable() {
            return Err(e);
        }
        if let Err(e) = self.validate_vector(vector) {
            return Err(e);
        }
        if let Err(e) = self.validate_record(record) {
            return Err(e);
        }
        if self.staging.len() >= MAX_STAGING_VECTORS {
            return Err(
                DbError::StagingCapacityExceeded {
                    count: self.staging.len() + 1,
                    max: MAX_STAGING_VECTORS,
                },
            );
        }
        let id: VectorId = match self.allocate_id() {
            Ok(id) => id,
            Err(e) => {
                return Err(e);
            },
        };
        let row = StagedRow { id, vector: slice_to_vec(vector), record: record.clone() };
        self.staging.push(row);
        proof {
            assert(self@.staging =~= v.staging.push(
                Staged { id, row: vector@, record: *record },
            ));
            assert(self@ =~= v.with_staged(vector@, *record));
            assert(self@.live() =~= v.live());
            assert forall|x: VectorId| self@.live().contains(x) implies #[trigger] row_fits(
                self@.dim as nat,
                self@.offsets,
                self@.bytes.len(),
                x,
            ) by {
                assert(row_fits(v.dim as nat, v.offsets, v.bytes.len(), x));
            }
        }
        Ok(id)
    }

    /// Adds a row to the staging tier that is known by its metadata key (`path:start:end`) only.
    pub fn insert_staging_metadata(&mut self, vector: &[u32], metadata_id: &str) -> (r: Result<
        VectorId,
        DbError,
    >)
        requires
            old(self).inv(),
        ensures
            final(self).inv(),
            final(self).math() == old(self).math(),
            exists|record: ChunkRecord|
                {
                    &&& record.text@ == Seq::<char>::empty()
                    &&& record.kind@ == "Unknown"@
                    &&& record.name is None
                    &&& (record.file_path@, record.start_line as nat, record.end_line as nat)
                        == key_parts(metadata_id@)
                    &&& #[trigger] stage_outcome(old(self)@, vector@, record, final(self)@, r)
                },
    {
        let record = record_from_metadata_id(metadata_id);
        self.insert_staging(vector, &record)
    }

    /// Why the persistent tier refuses a row, where it does.
    pub fn insert_refusal(&self, vector: &[u32], record: &ChunkRecord) -> (r: Option<DbError>)
        ensures
            r == self@.persistent_refusal(vector@.len(), *record),
    {
        if let Err(e) = self.ensure_writable() {
            return Some(e);
        }
        if let Err(e) = self.validate_vector(vector) {
            return Some(e);
        }
        if let Err(e) = self.validate_record(record) {
            return Some(e);
        }
        if let Err(e) = self.ensure_vector_capacity(vector) {
            return Some(e);
        }
        if self.next_id == VectorId::MAX {
            return Some(DbError::IdExhausted);
        }
        None
    }

    /// Adds a row to the persistent tier.
    pub fn insert_persistent(&mut self, vector: &[u32], record: &ChunkRecord) -> (r: Result<
        VectorId,
        DbError,
    >)
        requires
            old(self).inv(),
            old(self)@.persistent_refusal(vector@.len(), *record) is None ==> old(
                self,
            )@.index_usable(),
        ensures
            final(self).inv(),
            old(self)@.index_usable() ==> final(self)@.index_usable(),
            final(self).math() == old(self).math(),
            insert_outcome(old(self).math(), old(self)@, vector@, *record, final(self)@, r),
    {
        match self.insert_persistent_inner(vector, record) {
            Ok(id) => {
                self.persist_manifest();
                Ok(id)
            },
            Err(e) => Err(e),
        }
    }

    /// Adds a row to the persistent tier without writing the manifest.
    pub(super) fn insert_persistent_inner(
        &mut self,
        vector: &[u32],
        record: &ChunkRecord,
    ) -> (r: Result<VectorId, DbError>)
        requires
            old(self).inv(),
            old(self)@.persistent_refusal(vector@.len(), *record) is None ==> old(
                self,
            )@.index_usable(),
        ensures
            final(self).inv(),
            old(self)@.index_usable() ==> final(self)@.index_usable(),
            final(self).math() == old(self).math(),
            match old(self)@.persistent_refusal(vector@.len(), *record) {
                Some(e) => r == Err::<VectorId, DbError>(e) && final(self)@ == old(self)@,
                None => r == Ok::<VectorId, DbError>(old(self)@.next_id) && inserted(
                    old(self).math(),
                    old(self)@,
                    vector@,
                    *record,
                    final(self)@,
                ),
            },
    {
        let ghost v = self@;
        if let Some(e) = self.insert_refusal(vector, record) {
            return Err(e);
        }
        let id: VectorId = match self.allocate_id() {
            Ok(id) => id,
            Err(e) => {
                return Err(e);
            },
        };
        self.push_op(DiskOp::AppendVectors(bytes_from_words(self.order, vector)));
        let ghost m = self@;
        self.append_row(id, vector, record);
        proof {
            assert(m =~= (DbView {
                next_id: (v.next_id + 1) as VectorId,
                ops: v.ops.push(OpView::AppendVectors(bytes_of(v.order, vector@))),
                ..v
            }));
            assert(m.live() =~= v.live());
            assert forall|x: VectorId| m.live().contains(x) implies #[trigger] row_fits(
                m.dim as nat,
                m.offsets,
                m.bytes.len(),
                x,
            ) by {
                assert(row_fits(v.dim as nat, v.offsets, v.bytes.len(), x));
            }
            lemma_appended_inv(self.math(), m, id, vector@, *record, self@);
        }
        Ok(id)
    }

    /// Puts a row behind all others, with its record, its posting lists and its bucket.
    fn append_row(&mut self, id: VectorId, vector: &[u32], record: &ChunkRecord)
        requires
            old(self).parts_ok(),
            old(self)@.index_usable(),
        ensures
            final(self).parts_ok(),
            final(self).math() == old(self).math(),
            appended(old(self).math(), old(self)@, id, vector@, *record, final(self)@),
    {
        let ghost v = self@;
        let byte_offset: u64 = self.vectors.len() as u64;
        self.id_offsets.insert(id, byte_offset);
        self.records.insert(id, record.clone());
        self.postings.insert(id, record);
        self.assign_ivf_bucket(id, vector);
        let mut bytes = bytes_from_words(self.order, vector);
        self.vectors.append(&mut bytes);
        assert(self@ =~= (DbView {
            bytes: v.bytes + bytes_of(v.order, vector@),
            offsets: v.offsets.insert(id, v.bytes.len() as u64),
            records: v.records.insert(id, *record),
            postings: v.postings.insert(id, *record),
            ivf: self@.ivf,
            ..v
        }));
    }

    /// Assigns a row to the nearest bucket of the index, where there is one.
    fn assign_ivf_bucket(&mut self, id: VectorId, vector: &[u32])
        requires
            old(self).parts_ok(),
            old(self)@.index_usable(),
        ensures
            final(self).parts_ok(),
            *final(self) == (Rek0nDb { ivf: final(self).ivf, ..*old(self) }),
            crate::state::bucket_added(
                old(self).math(),
                old(self)@.dim as nat,
                id,
                vector@,
                old(self)@.ivf,
                final(self)@.ivf,
            ),
    {
        match &mut self.ivf {
            Some(index) => {
                let bucket: usize = index.nearest_bucket(&self.math, vector, self.dim);
                index.assignments.insert(id, bucket);
            },
            None => {},
        }
    }

    /// Drops all staged rows.
    pub fn clear_staging(&mut self) -> (r: Result<(), DbError>)
        requires
            old(self).inv(),
        ensures
            final(self).inv(),
            final(self).math() == old(self).math(),
            clear_outcome(old(self)@, final(self)@, r),
    {
        let ghost v = self@;
        if let Err(e) = self.ensure_writable() {
            return Err(e);
        }
        self.staging.clear();
        proof {
            assert(staged_views(self.staging@) =~= Seq::<Staged>::empty());
            lemma_without_staging(v, self@);
        }
        Ok(())
    }

    /// Why a flush is refused, where it is.
    pub fn flush_refusal(&self) -> (r: Option<DbError>)
        requires
            self.inv(),
        ensures
            r == flush_refusal(self@),
    {
        if let Err(e) = self.ensure_writable() {
            return Some(e);
        }
        let count: usize = self.staging.len();
        if count == 0 {
            return None;
        }
        match self.ensure_staging_flush_capacity(count) {
            Ok(()) => None,
            Err(e) => Some(e),
        }
    }

    /// Moves all staged rows to the persistent tier.
    pub fn flush_to_disk(&mut self) -> (r: Result<(), DbError>)
        requires
            old(self).inv(),
            flush_refusal(old(self)@) is None && old(self)@.staging.len() > 0 ==> old(
                self,
            )@.index_usable(),
        ensures
            final(self).inv(),
            old(self)@.index_usable() ==> final(self)@.index_usable(),
            final(self).math() == old(self).math(),
            flush_outcome(old(self).math(), old(self)@, final(self)@, r),
    {
        let ghost v = self@;
        if let Some(e) = self.flush_refusal() {
            return Err(e);
        }
        let count: usize = self.staging.len();
        if count == 0 {
            return Ok(());
        }
        let mut added: Vec<u8> = Vec::new();
        let mut i: usize = 0;
        proof {
            assert(v.staging.take(0) =~= Seq::<Staged>::empty());
        }
        while i < count
            invariant
                i <= count,
                count == v.staging.len(),
                self.parts_ok(),
                self.math() == old(self).math(),
                self@.inv(),
                self@.index_usable(),
                self@.staging == v.staging,
                self@.ops == v.ops,
                self@.dim == v.dim,
                self@.bytes == v.bytes + added@,
                rows_appended(self.math(), v, v.staging.take(i as int), self@),
            decreases count - i,
        {
            let ghost m = self@;
            let id: VectorId = self.staging[i].id;
            let vector = self.staging[i].vector.clone();
            let record = self.staging[i].record.clone();
            assert(vector@ =~= v.staging[i as int].row);
            assert(self.vectors.len() == m.bytes.len());
            self.append_row(id, vector.as_slice(), &record);
            let mut bytes = bytes_from_words(self.order, vector.as_slice());
            added.append(&mut bytes);
            proof {
                lemma_appended_inv(self.math(), m, id, vector@, record, self@);
                lemma_one_more_row(self.math(), v, v.staging, i as int, m, self@);
                assert(self@.bytes =~= v.bytes + added@);
            }
            i = i + 1;
        }
        let ghost m = self@;
        proof {
            assert(v.staging.take(count as int) =~= v.staging);
            assert(m.bytes.skip(v.bytes.len() as int) =~= added@);
        }
        self.staging.clear();
        proof {
            assert(staged_views(self.staging@) =~= Seq::<Staged>::empty());
            assert(self@ =~= (DbView { staging: Seq::empty(), ..m }));
            lemma_without_staging(m, self@);
        }
        self.push_op(DiskOp::AppendVectors(added));
        self.persist_manifest();
        let ghost w = self@;
        proof {
            assert(w =~= (DbView {
                staging: Seq::empty(),
                ops: v.ops.push(OpView::AppendVectors(m.bytes.skip(v.bytes.len() as int))),
                ..m
            }).recorded());
            assert(flushed(self.math(), v, w));
        }
        let done = self.maybe_compact();
        assert(maybe_compacted(self.math(), w, self@, done));
        match done {
            Ok(_) => Ok(()),
            Err(e) => Err(e),
        }
    }
}

pub(crate) proof fn lemma_without_staging(v: DbView, w: DbView)
    requires
        v.inv(),
        w == (DbView { staging: Seq::empty(), ..v }),
    ensures
        w.inv(),
{
    assert(w.live() =~= v.live());
    assert forall|x: VectorId| w.live().contains(x) implies #[trigger] row_fits(
        w.dim as nat,
        w.offsets,
        w.bytes.len(),
        x,
    ) by {
        assert(row_fits(v.dim as nat, v.offsets, v.bytes.len(), x));
    }
}

} // verus!
