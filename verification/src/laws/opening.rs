//! Which directories can be opened, and what an opened store knows.

use vstd::prelude::*;

use crate::ivf::VectorMath;
use crate::manifest::{
    key_id, keys_sound, law_keys_are_numerals, open_state_valid, row_fits, Entry, Manifest,
};
use crate::state::OpView;
use crate::storage::open::{open_outcome, open_refusal, opening_writes, DiskImage};
use crate::storage::Rek0nDb;
use crate::text::parsed;
use crate::types::{
    law_valid_thresholds, DbError, VectorId, DEFAULT_COMPACT_THRESHOLD, EMBEDDING_DIM,
    MAX_VECTORS_BYTES,
};

verus! {

/// Every key is the numeral of an id.
pub open spec fn keyed_by_numerals<V>(entries: Seq<Entry<V>>) -> bool {
    forall|i: int|
        0 <= i < entries.len() ==> parsed((#[trigger] entries[i]).key@, 0xffff_ffff) is Some
}

proof fn lemma_keyed<V>(entries: Seq<Entry<V>>)
    ensures
        keyed_by_numerals(entries) <==> keys_sound(entries),
{
    assert forall|i: int| 0 <= i < entries.len() implies (key_id((#[trigger] entries[i]).key@)
        is Some <==> parsed(entries[i].key@, 0xffff_ffff) is Some) by {
        law_keys_are_numerals(entries[i].key@, 0);
    }
    if keyed_by_numerals(entries) {
        assert forall|i: int| 0 <= i < entries.len() implies key_id(
            (#[trigger] entries[i]).key@,
        ) is Some by {
            assert(parsed(entries[i].key@, 0xffff_ffff) is Some);
        }
    }
    if keys_sound(entries) {
        assert forall|i: int| 0 <= i < entries.len() implies parsed(
            (#[trigger] entries[i]).key@,
            0xffff_ffff,
        ) is Some by {
            assert(key_id(entries[i].key@) is Some);
        }
    }
}

/// The manifest can be opened with a vector file of this length: its format is known, every key is
/// the numeral of an id, the width is not zero, the same ids have a record and an offset, only such
/// ids carry a tombstone, no two rows begin at the same place, every row ends within the vector
/// file, and the threshold is a number between zero and one.
pub open spec fn in_order(manifest: Manifest, len: nat) -> bool {
    &&& manifest.version == 1
    &&& len <= MAX_VECTORS_BYTES
    &&& keyed_by_numerals(manifest.records@)
    &&& keyed_by_numerals(manifest.offsets@)
    &&& manifest.dim > 0
    &&& forall|id: VectorId| #[trigger]
        manifest@.records.contains_key(id) <==> manifest@.offsets.contains_key(id)
    &&& forall|i: int|
        0 <= i < manifest.tombstones@.len() ==> manifest@.records.contains_key(
            #[trigger] manifest.tombstones@[i],
        )
    &&& forall|a: VectorId, b: VectorId|
        manifest@.offsets.contains_key(a) && manifest@.offsets.contains_key(b) && a != b
            ==> #[trigger] manifest@.offsets[a] != #[trigger] manifest@.offsets[b]
    &&& forall|id: VectorId|
        manifest@.offsets.contains_key(id) ==> #[trigger] manifest@.offsets[id] + 4 * manifest.dim
            <= len
    &&& manifest.compaction.dead_ratio_threshold <= 0x3f80_0000
        || manifest.compaction.dead_ratio_threshold == 0x8000_0000
}

proof fn lemma_in_order(manifest: Manifest, len: nat)
    ensures
        in_order(manifest, len) <==> {
            &&& manifest.version == 1
            &&& len <= MAX_VECTORS_BYTES
            &&& keys_sound(manifest.records@)
            &&& keys_sound(manifest.offsets@)
            &&& open_state_valid(
                manifest.dim as nat,
                manifest@.records.dom(),
                manifest@.offsets,
                manifest@.tombstones,
                len,
            )
            &&& manifest.compaction.valid()
        },
{
    lemma_keyed(manifest.records@);
    lemma_keyed(manifest.offsets@);
    law_valid_thresholds(manifest.compaction);
    let said = manifest@;
    if in_order(manifest, len) {
        assert(said.records.dom() =~= said.offsets.dom()) by {
            assert forall|id: VectorId| said.records.dom().contains(id)
                <==> said.offsets.dom().contains(id) by {
                assert(said.records.contains_key(id) <==> said.offsets.contains_key(id));
            }
        }
        assert forall|id: VectorId| said.tombstones.contains(id) implies said.records.dom().contains(
            id,
        ) by {
            let i = choose|i: int|
                0 <= i < manifest.tombstones@.len() && manifest.tombstones@[i] == id;
            assert(said.records.contains_key(manifest.tombstones@[i]));
        }
        assert forall|id: VectorId| said.offsets.contains_key(id) implies #[trigger] row_fits(
            manifest.dim as nat,
            said.offsets,
            len,
            id,
        ) by {
            assert(said.offsets[id] + 4 * manifest.dim <= len);
        }
    }
    if open_state_valid(
        manifest.dim as nat,
        said.records.dom(),
        said.offsets,
        said.tombstones,
        len,
    ) {
        assert forall|i: int|
            0 <= i < manifest.tombstones@.len() implies said.records.contains_key(
            #[trigger] manifest.tombstones@[i],
        ) by {
            assert(manifest.tombstones@.contains(manifest.tombstones@[i]));
            assert(said.tombstones.contains(manifest.tombstones@[i]));
        }
        assert forall|id: VectorId| #[trigger] said.records.contains_key(id)
            <==> said.offsets.contains_key(id) by {
            assert(said.records.dom().contains(id) <==> said.offsets.dom().contains(id));
        }
        assert forall|id: VectorId| said.offsets.contains_key(id) implies #[trigger] said.offsets[id]
            + 4 * manifest.dim <= len by {
            assert(row_fits(manifest.dim as nat, said.offsets, len, id));
        }
    }
}

/// A directory with a manifest can be opened exactly where manifest and vector file are in order,
/// and the store then knows what the manifest says and holds the bytes of the vector file. Nothing
/// is staged, and the store takes changes exactly where it was not opened for reading.
pub proof fn law_opening_a_directory<M: VectorMath>(
    math: M,
    image: DiskImage,
    manifest: Manifest,
    read_only: bool,
    r: Result<Rek0nDb<M>, DbError>,
    id: VectorId,
)
    requires
        image.wf(),
        image.manifest == Some(manifest),
        open_outcome(math, image, read_only, r),
    ensures
        r is Ok <==> in_order(manifest, image.vectors@.len()),
        r matches Ok(db) ==> {
            &&& db@.dim == manifest.dim
            &&& db@.next_id == manifest.next_id
            &&& db@.policy == manifest.compaction
            &&& db@.bytes == image.vectors@
            &&& db@.order == image.order
            &&& db@.records == manifest@.records
            &&& db@.offsets == manifest@.offsets
            &&& db@.tombstones.contains(id) <==> manifest.tombstones@.contains(id)
            &&& db@.postings == manifest.postings@
            &&& db@.staging.len() == 0
            &&& db@.read_only == read_only
            &&& db@.ops.len() == 0
            &&& db.math() == math
        },
{
    lemma_in_order(manifest, image.vectors@.len());
    if r is Err {
        let e = r->Err_0;
        let len = image.vectors@.len();
        assert(open_refusal(manifest, len, e));
        if in_order(manifest, len) {
            assert(false);
        }
    }
}

/// With which error a directory is refused that has a manifest: an unknown format first, then a
/// vector file that is too long, then a key that is no numeral, the first one of the records before
/// those of the offsets, then a width of zero, then ids with a record and no offset or the other way
/// round, then a tombstone without a record, then a row that begins where another one does or ends
/// behind the vector file, and last a threshold that is no ratio.
pub proof fn law_refused_directories<M: VectorMath>(
    math: M,
    image: DiskImage,
    manifest: Manifest,
    read_only: bool,
    e: DbError,
)
    requires
        image.manifest == Some(manifest),
        open_outcome(math, image, read_only, Err::<Rek0nDb<M>, DbError>(e)),
    ensures
        ({
            let len = image.vectors@.len();
            let said = manifest@;
            let same_ids = forall|id: VectorId| #[trigger]
                said.records.contains_key(id) <==> said.offsets.contains_key(id);
            if manifest.version != 1 {
                e == (DbError::UnsupportedManifestVersion { got: manifest.version, expected: 1 })
            } else if len > MAX_VECTORS_BYTES {
                e matches DbError::VectorsFileTooLarge { len: told, max } && max
                    == MAX_VECTORS_BYTES && (len <= u64::MAX ==> told == len)
            } else if !keyed_by_numerals(manifest.records@) {
                first_other_key(manifest.records@, e)
            } else if !keyed_by_numerals(manifest.offsets@) {
                first_other_key(manifest.offsets@, e)
            } else if manifest.dim == 0 {
                e == (DbError::InvalidDimension { expected: 1, got: 0 })
            } else if !same_ids {
                e == DbError::CorruptManifestKeyMismatch
            } else if exists|i: int|
                0 <= i < manifest.tombstones@.len() && !said.records.contains_key(
                    #[trigger] manifest.tombstones@[i],
                ) {
                e matches DbError::CorruptManifestTombstone { id } && manifest.tombstones@.contains(
                    id,
                ) && !said.records.contains_key(id)
            } else {
                match e {
                    DbError::DuplicateVectorOffset { offset, first, second } => first != second
                        && said.offsets.contains_key(first) && said.offsets.contains_key(second)
                        && said.offsets[first] == offset && said.offsets[second] == offset,
                    DbError::CorruptVectorOffset { id } => said.offsets.contains_key(id)
                        && said.offsets[id] + 4 * manifest.dim > len,
                    DbError::InvalidCompactionPolicy { threshold } => threshold
                        == manifest.compaction.dead_ratio_threshold && threshold > 0x3f80_0000
                        && threshold != 0x8000_0000 && (forall|id: VectorId|
                        said.offsets.contains_key(id) ==> #[trigger] said.offsets[id] + 4
                            * manifest.dim <= len) && forall|a: VectorId, b: VectorId|
                        said.offsets.contains_key(a) && said.offsets.contains_key(b) && a != b
                            ==> #[trigger] said.offsets[a] != #[trigger] said.offsets[b],
                    _ => false,
                }
            }
        }),
{
    let len = image.vectors@.len();
    let said = manifest@;
    lemma_in_order(manifest, len);
    lemma_keyed(manifest.records@);
    lemma_keyed(manifest.offsets@);
    law_valid_thresholds(manifest.compaction);
    assert(open_refusal(manifest, len, e));
    if manifest.version == 1 && len <= MAX_VECTORS_BYTES {
        if !keyed_by_numerals(manifest.records@) {
            lemma_first_other_key(manifest.records@, e);
        } else if !keyed_by_numerals(manifest.offsets@) {
            lemma_first_other_key(manifest.offsets@, e);
        } else if manifest.dim > 0 {
            if forall|id: VectorId| #[trigger]
                said.records.contains_key(id) <==> said.offsets.contains_key(id) {
                assert(said.records.dom() =~= said.offsets.dom());
                if exists|i: int|
                    0 <= i < manifest.tombstones@.len() && !said.records.contains_key(
                        #[trigger] manifest.tombstones@[i],
                    ) {
                    let i = choose|i: int|
                        0 <= i < manifest.tombstones@.len() && !said.records.contains_key(
                            #[trigger] manifest.tombstones@[i],
                        );
                    assert(said.tombstones.contains(manifest.tombstones@[i]));
                } else {
                    assert forall|id: VectorId| said.tombstones.contains(
                        id,
                    ) implies said.records.dom().contains(id) by {
                        let i = choose|i: int|
                            0 <= i < manifest.tombstones@.len() && manifest.tombstones@[i] == id;
                        assert(said.records.contains_key(manifest.tombstones@[i]));
                    }
                    assert(said.tombstones.subset_of(said.records.dom()));
                    if e is InvalidCompactionPolicy {
                        assert forall|id: VectorId| said.offsets.contains_key(
                            id,
                        ) implies #[trigger] said.offsets[id] + 4 * manifest.dim <= len by {
                            assert(row_fits(manifest.dim as nat, said.offsets, len, id));
                        }
                    }
                }
            } else {
                assert(said.records.dom() != said.offsets.dom()) by {
                    let id = choose|id: VectorId|
                        !(#[trigger] said.records.contains_key(id) <==> said.offsets.contains_key(
                            id,
                        ));
                    assert(said.records.dom().contains(id) != said.offsets.dom().contains(id));
                }
            }
        }
    }
}

/// The error names the first key that is no numeral of an id.
pub open spec fn first_other_key<V>(entries: Seq<Entry<V>>, e: DbError) -> bool {
    exists|i: int|
        {
            &&& 0 <= i < entries.len()
            &&& parsed((#[trigger] entries[i]).key@, 0xffff_ffff) is None
            &&& keyed_by_numerals(entries.take(i))
            &&& e matches DbError::InvalidManifestId { value }
            &&& value@ == entries[i].key@
        }
}

proof fn lemma_first_other_key<V>(entries: Seq<Entry<V>>, e: DbError)
    requires
        crate::manifest::bad_key(entries, e),
    ensures
        first_other_key(entries, e),
{
    let i = choose|i: int|
        {
            &&& 0 <= i < entries.len()
            &&& key_id((#[trigger] entries[i]).key@) is None
            &&& keys_sound(entries.take(i))
            &&& e matches DbError::InvalidManifestId { value }
            &&& value@ == entries[i].key@
        };
    law_keys_are_numerals(entries[i].key@, 0);
    lemma_keyed(entries.take(i));
    assert(parsed(entries[i].key@, 0xffff_ffff) is None);
}

/// A directory without a manifest gets the one of a new store, which is written before anything
/// else; any other directory is left alone. The new store has the default width and policy, knows
/// no row, and its next id is 0. Only a vector file that is too long is refused.
pub proof fn law_opening_a_new_directory<M: VectorMath>(
    math: M,
    image: DiskImage,
    read_only: bool,
    r: Result<Rek0nDb<M>, DbError>,
    id: VectorId,
)
    requires
        open_outcome(math, image, read_only, r),
    ensures
        image.manifest is Some ==> opening_writes(image.manifest).len() == 0,
        image.manifest is None ==> {
            &&& opening_writes(image.manifest).len() == 1
            &&& opening_writes(image.manifest)[0] matches OpView::WriteManifest(said) && {
                &&& said.dim == EMBEDDING_DIM
                &&& said.next_id == 0
                &&& said.policy.dead_ratio_threshold == DEFAULT_COMPACT_THRESHOLD
                &&& !said.records.contains_key(id)
                &&& !said.offsets.contains_key(id)
                &&& !said.tombstones.contains(id)
                &&& said.ivf is None
            }
            &&& r is Ok <==> image.vectors@.len() <= MAX_VECTORS_BYTES
            &&& r matches Err(e) ==> (e matches DbError::VectorsFileTooLarge { len, max } && max
                == MAX_VECTORS_BYTES && (image.vectors@.len() <= u64::MAX ==> len
                == image.vectors@.len()))
            &&& r matches Ok(db) ==> {
                &&& db@.dim == EMBEDDING_DIM
                &&& db@.next_id == 0
                &&& db@.policy.dead_ratio_threshold == DEFAULT_COMPACT_THRESHOLD
                &&& db@.bytes == image.vectors@
                &&& db@.order == image.order
                &&& !db@.records.contains_key(id)
                &&& !db@.offsets.contains_key(id)
                &&& !db@.tombstones.contains(id)
                &&& db@.ivf is None
                &&& db@.staging.len() == 0
                &&& db@.read_only == read_only
                &&& db@.ops.len() == 0
            }
        },
{
}

} // verus!
