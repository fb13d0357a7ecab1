//! Opening a store from the contents of its files.

use std::collections::HashSet;

use vstd::prelude::*;

use super::{op_views, staged_views, DiskOp, Rek0nDb};
use crate::ivf::VectorMath;
use crate::lock::{DbLockOptions, DEFAULT_LOCK_TIMEOUT};
use crate::manifest::{
    bad_key, decode_offset_map, decode_record_map, keys_sound, load_ivf, loaded, open_state_error,
    open_state_valid, row_fits, validate_open_state, Manifest, Persisted, MANIFEST_VERSION,
};
use crate::postings::PostingIndex;
use crate::state::{capped, reset_outcome, DbView, OpView, Staged};
use crate::types::{CompactionPolicy, DbError, VectorId, MAX_VECTORS_BYTES};
use crate::words::ByteOrder;

verus! {

broadcast use vstd::std_specs::hash::group_hash_axioms;

/// The contents of the files of a store, and the order in which its host lays out the bytes of a
/// word; a new store has no manifest yet.
#[derive(Debug)]
pub struct DiskImage {
    pub order: ByteOrder,
    pub manifest: Option<Manifest>,
    pub vectors: Vec<u8>,
    pub centroids: Option<Vec<u8>>,
}

impl DiskImage {
    pub open spec fn wf(self) -> bool {
        self.manifest matches Some(manifest) ==> manifest.postings.wf()
    }

    /// The bytes of the centroid file.
    pub open spec fn centroid_bytes(self) -> Option<Seq<u8>> {
        match self.centroids {
            Some(bytes) => Some(bytes@),
            None => None,
        }
    }
}

/// The state of a store that was opened with this manifest and these files.
pub open spec fn opened(
    order: ByteOrder,
    manifest: Persisted,
    vectors: Seq<u8>,
    centroids: Option<Seq<u8>>,
    read_only: bool,
) -> DbView {
    DbView {
        dim: manifest.dim,
        order,
        bytes: vectors,
        next_id: manifest.next_id,
        records: manifest.records,
        offsets: manifest.offsets,
        tombstones: manifest.tombstones,
        postings: manifest.postings,
        ivf: loaded(manifest.dim as nat, manifest.ivf, centroids),
        policy: manifest.policy,
        staging: Seq::empty(),
        read_only,
        ops: Seq::empty(),
    }
}

/// What is persisted agrees with itself and with the length of the vector file.
pub open spec fn consistent(manifest: Persisted, len: nat) -> bool {
    &&& len <= MAX_VECTORS_BYTES
    &&& open_state_valid(
        manifest.dim as nat,
        manifest.records.dom(),
        manifest.offsets,
        manifest.tombstones,
        len,
    )
    &&& manifest.policy.valid()
}

/// Why a store with this manifest is refused.
pub open spec fn open_refusal(manifest: Manifest, len: nat, e: DbError) -> bool {
    if manifest.version != MANIFEST_VERSION {
        e == (DbError::UnsupportedManifestVersion {
            got: manifest.version,
            expected: MANIFEST_VERSION,
        })
    } else if len > MAX_VECTORS_BYTES {
        e == (DbError::VectorsFileTooLarge { len: capped(len as int), max: MAX_VECTORS_BYTES })
    } else if !keys_sound(manifest.records@) {
        bad_key(manifest.records@, e)
    } else if !keys_sound(manifest.offsets@) {
        bad_key(manifest.offsets@, e)
    } else if !open_state_valid(
        manifest@.dim as nat,
        manifest@.records.dom(),
        manifest@.offsets,
        manifest@.tombstones,
        len,
    ) {
        open_state_error(
            manifest@.dim as nat,
            manifest@.records.dom(),
            manifest@.offsets,
            manifest@.tombstones,
            len,
            e,
        )
    } else {
        !manifest@.policy.valid() && e == (DbError::InvalidCompactionPolicy {
            threshold: manifest@.policy.dead_ratio_threshold,
        })
    }
}

/// The outcome of opening a store: a store without a manifest is opened with the one of a new
/// store.
pub open spec fn open_outcome<M: VectorMath>(
    math: M,
    image: DiskImage,
    read_only: bool,
    r: Result<Rek0nDb<M>, DbError>,
) -> bool {
    match r {
        Ok(db) => {
            &&& db.inv()
            &&& db.math() == math
            &&& match image.manifest {
                Some(manifest) => manifest.sound() && consistent(manifest@, image.vectors@.len())
                    && db@ == opened(
                    image.order,
                    manifest@,
                    image.vectors@,
                    image.centroid_bytes(),
                    read_only,
                ),
                None => image.vectors@.len() <= MAX_VECTORS_BYTES && db@ == opened(
                    image.order,
                    Persisted::initial(),
                    image.vectors@,
                    image.centroid_bytes(),
                    read_only,
                ),
            }
        },
        Err(e) => match image.manifest {
            Some(manifest) => open_refusal(manifest, image.vectors@.len(), e),
            None => image.vectors@.len() > MAX_VECTORS_BYTES && e == (
            DbError::VectorsFileTooLarge {
                len: capped(image.vectors@.len() as int),
                max: MAX_VECTORS_BYTES,
            }),
        },
    }
}

proof fn lemma_open_state_error(
    dim: nat,
    records: Set<VectorId>,
    offsets: Map<VectorId, u64>,
    tombstones: Set<VectorId>,
    len: nat,
    e: DbError,
)
    requires
        open_state_error(dim, records, offsets, tombstones, len, e),
    ensures
        !open_state_valid(dim, records, offsets, tombstones, len),
{
    if open_state_valid(dim, records, offsets, tombstones, len) {
        match e {
            DbError::DuplicateVectorOffset { offset, first, second } => {
                assert(offsets[first] != offsets[second]);
            },
            DbError::CorruptVectorOffset { id } => {
                assert(row_fits(dim, offsets, len, id));
            },
            _ => {},
        }
    }
}

/// Collects ids into a set.
fn id_set(ids: &Vec<VectorId>) -> (r: HashSet<VectorId>)
    ensures
        r@ == ids@.to_set(),
{
    let mut set: HashSet<VectorId> = HashSet::new();
    let mut i: usize = 0;
    assert(ids@.take(0).to_set() =~= Set::empty());
    while i < ids.len()
        invariant
            i <= ids@.len(),
            set@ == ids@.take(i as int).to_set(),
        decreases ids@.len() - i,
    {
        set.insert(ids[i]);
        proof {
            let id = ids@[i as int];
            let taken = ids@.take(i as int);
            assert(ids@.take(i + 1) =~= taken.push(id));
            crate::ids::lemma_push_has(taken, id);
            assert(ids@.take(i + 1).to_set() =~= taken.to_set().insert(id)) by {
                assert forall|x: VectorId| taken.push(id).to_set().contains(x)
                    <==> taken.to_set().insert(id).contains(x) by {
                    assert(taken.push(id).contains(x) <==> taken.contains(x) || x == id);
                }
            }
        }
        i = i + 1;
    }
    assert(ids@.take(ids@.len() as int) =~= ids@);
    set
}

/// What opening a store writes before it looks at anything else, and so whether it succeeds or
/// not: a store without a manifest gets the one of a new store.
pub open spec fn opening_writes(manifest: Option<Manifest>) -> Seq<OpView> {
    if manifest is None {
        seq![OpView::WriteManifest(Persisted::initial())]
    } else {
        Seq::empty()
    }
}

/// The changes to the files that have to be made before the store is opened.
pub fn opening_ops(manifest: &Option<Manifest>) -> (r: Vec<DiskOp>)
    ensures
        op_views(r@) == opening_writes(*manifest),
        forall|i: int| 0 <= i < r@.len() ==> (#[trigger] r@[i]).sound(),
{
    let mut ops: Vec<DiskOp> = Vec::new();
    if manifest.is_none() {
        ops.push(DiskOp::WriteManifest(Manifest::default()));
    }
    assert(op_views(ops@) =~= opening_writes(*manifest));
    ops
}

impl<M: VectorMath> Rek0nDb<M> {
    /// Opens a store for reading and writing.
    pub fn open(math: M, image: DiskImage) -> (r: Result<Self, DbError>)
        requires
            image.wf(),
        ensures
            open_outcome(math, image, false, r),
    {
        Rek0nDb::open_with_options(math, image, DbLockOptions::default())
    }

    /// Opens a store for reading.
    pub fn open_read_only(math: M, image: DiskImage) -> (r: Result<Self, DbError>)
        requires
            image.wf(),
        ensures
            open_outcome(math, image, true, r),
    {
        Rek0nDb::open_with_options(math, image, DbLockOptions::shared(DEFAULT_LOCK_TIMEOUT))
    }

    /// Opens a store whose lock is held: for reading where it is shared.
    pub fn open_with_options(math: M, image: DiskImage, lock: DbLockOptions) -> (r: Result<
        Self,
        DbError,
    >)
        requires
            image.wf(),
        ensures
            open_outcome(math, image, lock.spec_shared(), r),
    {
        let read_only = lock.read_only();
        Rek0nDb::open_locked(math, image, read_only)
    }

    fn open_locked(math: M, image: DiskImage, read_only: bool) -> (r: Result<Self, DbError>)
        requires
            image.wf(),
        ensures
            open_outcome(math, image, read_only, r),
    {
        let manifest = match image.manifest {
            Some(manifest) => {
                if manifest.version != MANIFEST_VERSION {
                    return Err(
                        DbError::UnsupportedManifestVersion {
                            got: manifest.version,
                            expected: MANIFEST_VERSION,
                        },
                    );
                }
                manifest
            },
            None => Manifest::default(),
        };
        let ghost said = manifest;
        let len: usize = image.vectors.len();
        if len as u64 > MAX_VECTORS_BYTES {
            return Err(
                DbError::VectorsFileTooLarge { len: len as u64, max: MAX_VECTORS_BYTES },
            );
        }
        let records = match decode_record_map(&manifest.records) {
            Ok(records) => records,
            Err(e) => {
                return Err(e);
            },
        };
        let id_offsets = match decode_offset_map(&manifest.offsets) {
            Ok(id_offsets) => id_offsets,
            Err(e) => {
                return Err(e);
            },
        };
        let tombstones = id_set(&manifest.tombstones);
        match validate_open_state(manifest.dim, &records, &id_offsets, &tombstones, len) {
            Ok(()) => {},
            Err(e) => {
                proof {
                    lemma_open_state_error(
                        manifest.dim as nat,
                        records@.dom(),
                        id_offsets@,
                        tombstones@,
                        len as nat,
                        e,
                    );
                }
                return Err(e);
            },
        }
        let ivf = load_ivf(manifest.dim, &manifest.ivf, &image.centroids);
        let compaction_policy = match manifest.compaction.validate() {
            Ok(policy) => policy,
            Err(e) => {
                return Err(e);
            },
        };
        let dim: usize = manifest.dim;
        let next_id: VectorId = manifest.next_id;
        let db = Rek0nDb {
            math,
            dim,
            order: image.order,
            vectors: image.vectors,
            next_id,
            records,
            id_offsets,
            tombstones,
            postings: manifest.postings,
            ivf,
            compaction_policy,
            staging: Vec::new(),
            read_only,
            pending: Vec::new(),
        };
        assert(db@ =~= opened(image.order, said@, image.vectors@, image.centroid_bytes(), read_only));
        Ok(db)
    }

    /// Brings the store back to that of a new directory.
    pub fn reset(&mut self) -> (r: Result<(), DbError>)
        requires
            old(self).inv(),
        ensures
            final(self).inv(),
            final(self).math() == old(self).math(),
            reset_outcome(old(self)@, final(self)@, r),
    {
        if let Err(e) = self.ensure_writable() {
            return Err(e);
        }
        let manifest = Manifest::default();
        self.dim = manifest.dim;
        self.next_id = 0;
        self.records.clear();
        self.id_offsets.clear();
        self.tombstones.clear();
        self.postings = PostingIndex::default();
        self.ivf = None;
        self.compaction_policy = CompactionPolicy::default();
        self.staging.clear();
        self.vectors.clear();
        assert(staged_views(self.staging@) =~= Seq::<Staged>::empty());
        assert(self@ =~= old(self)@.fresh());
        self.push_op(DiskOp::ReplaceVectors(Vec::new()));
        self.push_op(DiskOp::WriteManifest(manifest));
        self.push_op(DiskOp::RemoveCentroids);
        Ok(())
    }
}

} // verus!
