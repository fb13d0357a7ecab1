//! What the store writes down about itself, and the checks on it when a store is opened.

use std::collections::{HashMap, HashSet};

use vstd::prelude::*;

use crate::ids::{lemma_push_has, lists_set, map_ids, set_ids};
use crate::ivf::{read_centroids, IvfIndex, IvfView};
use crate::postings::{PostingIndex, PostingsView};
use crate::text::{decimal, law_parse_decimal, parse_decimal, parsed, to_decimal};
use crate::types::{
    ChunkRecord, CompactionPolicy, DbError, VectorId, EMBEDDING_DIM, MAX_MANIFEST_BYTES,
};
use crate::words::{words_of, ByteOrder};

verus! {

broadcast use vstd::std_specs::hash::group_hash_axioms;

/// The only manifest format there is.
pub const MANIFEST_VERSION: u32 = 1;

/// One entry of a map whose keys are written as decimal numerals.
#[derive(Debug)]
pub struct Entry<V> {
    pub key: String,
    pub value: V,
}

/// The bucketed index as a manifest keeps it; its centroids stand in a file of their own.
#[derive(Debug)]
pub struct IvfManifest {
    pub num_buckets: usize,
    pub probe_buckets: usize,
    pub assignments: Vec<Entry<usize>>,
}

/// Everything the store knows, except the vectors and the centroids.
#[derive(Debug)]
pub struct Manifest {
    pub version: u32,
    pub dim: usize,
    pub next_id: VectorId,
    pub compaction: CompactionPolicy,
    pub records: Vec<Entry<ChunkRecord>>,
    pub offsets: Vec<Entry<u64>>,
    pub tombstones: Vec<VectorId>,
    pub postings: PostingIndex,
    pub ivf: Option<IvfManifest>,
}

/// The id that a key stands for.
pub open spec fn key_id(key: Seq<char>) -> Option<VectorId> {
    match parsed(key, VectorId::MAX as nat) {
        Some(n) => Some(n as VectorId),
        None => None,
    }
}

/// Every key stands for an id.
pub open spec fn keys_sound<V>(entries: Seq<Entry<V>>) -> bool {
    forall|i: int| 0 <= i < entries.len() ==> key_id((#[trigger] entries[i]).key@) is Some
}

/// What a list of entries says: a later entry takes precedence over an earlier one, and an entry
/// whose key stands for no id says nothing.
pub open spec fn decoded<V>(entries: Seq<Entry<V>>) -> Map<VectorId, V>
    decreases entries.len(),
{
    if entries.len() == 0 {
        Map::empty()
    } else {
        let before = decoded(entries.drop_last());
        match key_id(entries.last().key@) {
            Some(id) => before.insert(id, entries.last().value),
            None => before,
        }
    }
}

/// A key stands for the id whose numeral it is, and one that is no numeral, or whose number is too
/// large, stands for none.
pub proof fn law_keys_are_numerals(key: Seq<char>, id: VectorId)
    ensures
        key_id(decimal(id as nat)) == Some(id),
        key_id(key) is Some <==> parsed(key, 0xffff_ffff) is Some,
        key_id(key) == Some(id) <==> parsed(key, 0xffff_ffff) == Some(id as nat),
{
    law_parse_decimal(id as nat, VectorId::MAX as nat);
}

/// What a list of entries says of an id: something exactly where the key of some entry is its
/// numeral, and then the value of the last such entry.
pub proof fn law_last_entry_counts<V>(entries: Seq<Entry<V>>, id: VectorId, i: int)
    ensures
        decoded(entries).contains_key(id) <==> exists|j: int|
            0 <= j < entries.len() && parsed((#[trigger] entries[j]).key@, 0xffff_ffff) == Some(
                id as nat,
            ),
        0 <= i < entries.len() && parsed(entries[i].key@, 0xffff_ffff) == Some(id as nat) && (
        forall|j: int|
            i < j < entries.len() ==> parsed((#[trigger] entries[j]).key@, 0xffff_ffff) != Some(
                id as nat,
            )) ==> decoded(entries)[id] == entries[i].value,
    decreases entries.len(),
{
    if entries.len() > 0 {
        let fewer = entries.drop_last();
        let last = entries.last();
        law_last_entry_counts(fewer, id, i);
        law_keys_are_numerals(last.key@, id);
        if parsed(last.key@, 0xffff_ffff) == Some(id as nat) {
            assert(entries[entries.len() - 1] == last);
            assert(decoded(entries).contains_key(id));
        } else {
            assert(decoded(entries).contains_key(id) <==> decoded(fewer).contains_key(id));
            if decoded(fewer).contains_key(id) {
                let j = choose|j: int|
                    0 <= j < fewer.len() && parsed((#[trigger] fewer[j]).key@, 0xffff_ffff) == Some(
                        id as nat,
                    );
                assert(entries[j] == fewer[j]);
            }
            if exists|j: int|
                0 <= j < entries.len() && parsed((#[trigger] entries[j]).key@, 0xffff_ffff) == Some(
                    id as nat,
                ) {
                let j = choose|j: int|
                    0 <= j < entries.len() && parsed((#[trigger] entries[j]).key@, 0xffff_ffff)
                        == Some(id as nat);
                assert(fewer[j] == entries[j]);
            }
        }
        if 0 <= i < entries.len() && parsed(entries[i].key@, 0xffff_ffff) == Some(id as nat) && (
        forall|j: int|
            i < j < entries.len() ==> parsed((#[trigger] entries[j]).key@, 0xffff_ffff) != Some(
                id as nat,
            )) {
            if i < fewer.len() {
                assert(parsed(entries[entries.len() - 1].key@, 0xffff_ffff) != Some(id as nat));
                assert(fewer[i] == entries[i]);
                assert forall|j: int| i < j < fewer.len() implies parsed(
                    (#[trigger] fewer[j]).key@,
                    0xffff_ffff,
                ) != Some(id as nat) by {
                    assert(fewer[j] == entries[j]);
                }
                assert(decoded(fewer).contains_key(id)) by {
                    assert(fewer[i].key@ == entries[i].key@);
                }
            }
        }
    }
}

/// The entries of a map: every key once, as the numeral of its id.
pub open spec fn encodes<V>(entries: Seq<Entry<V>>, map: Map<VectorId, V>) -> bool {
    exists|ids: Seq<VectorId>|
        #[trigger] lists_set(ids, map.dom()) && entries_for(entries, ids, map)
}

pub open spec fn entries_for<V>(
    entries: Seq<Entry<V>>,
    ids: Seq<VectorId>,
    map: Map<VectorId, V>,
) -> bool {
    entries.len() == ids.len() && forall|i: int|
        0 <= i < entries.len() ==> (#[trigger] entries[i]).key@ == decimal(ids[i] as nat)
            && entries[i].value == map[ids[i]]
}

/// The entries of a map say what the map says.
pub proof fn law_decode_encoded<V>(entries: Seq<Entry<V>>, map: Map<VectorId, V>)
    requires
        encodes(entries, map),
    ensures
        keys_sound(entries),
        decoded(entries) == map,
{
    let ids = choose|ids: Seq<VectorId>|
        #[trigger] lists_set(ids, map.dom()) && entries_for(entries, ids, map);
    lemma_decode_entries(entries, ids, map);
    assert(decoded(entries) =~= map);
}

proof fn lemma_decode_entries<V>(
    entries: Seq<Entry<V>>,
    ids: Seq<VectorId>,
    map: Map<VectorId, V>,
)
    requires
        entries_for(entries, ids, map),
    ensures
        keys_sound(entries),
        forall|id: VectorId| #[trigger] decoded(entries).contains_key(id) <==> ids.contains(id),
        forall|id: VectorId| ids.contains(id) ==> #[trigger] decoded(entries)[id] == map[id],
    decreases entries.len(),
{
    if entries.len() > 0 {
        let fewer = ids.drop_last();
        let last = ids.last();
        lemma_decode_entries(entries.drop_last(), fewer, map);
        assert forall|i: int| 0 <= i < entries.len() implies key_id(
            (#[trigger] entries[i]).key@,
        ) is Some by {
            law_parse_decimal(ids[i] as nat, VectorId::MAX as nat);
        }
        law_parse_decimal(last as nat, VectorId::MAX as nat);
        assert(entries.last() == entries[entries.len() - 1]);
        assert(key_id(entries.last().key@) == Some(last));
        assert(ids =~= fewer.push(last));
        lemma_push_has(fewer, last);
        let before = decoded(entries.drop_last());
        assert(decoded(entries) == before.insert(last, entries.last().value));
        assert forall|id: VectorId| #[trigger]
            decoded(entries).contains_key(id) <==> ids.contains(id) by {
            assert(fewer.push(last).contains(id) <==> fewer.contains(id) || id == last);
            assert(before.contains_key(id) <==> fewer.contains(id));
        }
        assert forall|id: VectorId| ids.contains(id) implies #[trigger] decoded(entries)[id]
            == map[id] by {
            assert(fewer.push(last).contains(id) <==> fewer.contains(id) || id == last);
            if id != last {
                assert(before[id] == map[id]);
            }
        }
    }
}

fn parse_id(key: &String) -> (r: Option<VectorId>)
    ensures
        r == key_id(key@),
{
    match parse_decimal(key.as_str(), VectorId::MAX as u64) {
        Some(n) => Some(n as VectorId),
        None => None,
    }
}

/// The error of a list of entries with a key that stands for no id: it names the first such key.
pub open spec fn bad_key<V>(entries: Seq<Entry<V>>, e: DbError) -> bool {
    exists|i: int|
        {
            &&& 0 <= i < entries.len()
            &&& key_id((#[trigger] entries[i]).key@) is None
            &&& keys_sound(entries.take(i))
            &&& e matches DbError::InvalidManifestId { value }
            &&& value@ == entries[i].key@
        }
}

/// A copy of a value is the value.
spec fn copies_exactly<V: Clone>() -> bool {
    forall|a: V, b: V| #[trigger] cloned::<V>(a, b) ==> a == b
}

/// Entries for a map.
fn encode_map<V: Clone>(map: &HashMap<VectorId, V>) -> (r: Vec<Entry<V>>)
    requires
        copies_exactly::<V>(),
    ensures
        encodes(r@, map@),
{
    let ids = map_ids(map);
    let mut entries: Vec<Entry<V>> = Vec::new();
    let mut i: usize = 0;
    while i < ids.len()
        invariant
            i <= ids@.len(),
            copies_exactly::<V>(),
            lists_set(ids@, map@.dom()),
            entries_for(entries@, ids@.take(i as int), map@),
        decreases ids@.len() - i,
    {
        let id: VectorId = ids[i];
        assert(ids@.contains(id));
        if let Some(value) = map.get(&id) {
            let copy = value.clone();
            assert(cloned::<V>(*value, copy));
            entries.push(Entry { key: to_decimal(id as u64), value: copy });
        }
        i = i + 1;
    }
    assert(ids@.take(ids@.len() as int) =~= ids@);
    entries
}

/// The first entry whose key stands for no id.
fn first_bad_key<V>(entries: &Vec<Entry<V>>) -> (r: Option<usize>)
    ensures
        match r {
            Some(i) => i < entries@.len() && key_id(entries@[i as int].key@) is None
                && keys_sound(entries@.take(i as int)),
            None => keys_sound(entries@),
        },
{
    let mut i: usize = 0;
    while i < entries.len()
        invariant
            i <= entries@.len(),
            forall|j: int| 0 <= j < i ==> key_id((#[trigger] entries@[j]).key@) is Some,
        decreases entries@.len() - i,
    {
        if parse_id(&entries[i].key).is_none() {
            return Some(i);
        }
        i = i + 1;
    }
    None
}

/// What a list of entries says; an entry whose key stands for no id is skipped.
fn collect_entries<V: Clone>(entries: &Vec<Entry<V>>) -> (r: HashMap<VectorId, V>)
    requires
        copies_exactly::<V>(),
    ensures
        r@ == decoded(entries@),
{
    let mut map: HashMap<VectorId, V> = HashMap::new();
    let mut i: usize = 0;
    assert(entries@.take(0) =~= Seq::<Entry<V>>::empty());
    while i < entries.len()
        invariant
            i <= entries@.len(),
            copies_exactly::<V>(),
            map@ == decoded(entries@.take(i as int)),
        decreases entries@.len() - i,
    {
        assert(entries@.take(i + 1).drop_last() =~= entries@.take(i as int));
        assert(entries@.take(i + 1).last() == entries@[i as int]);
        if let Some(id) = parse_id(&entries[i].key) {
            let copy = entries[i].value.clone();
            assert(cloned::<V>(entries@[i as int].value, copy));
            map.insert(id, copy);
        }
        i = i + 1;
    }
    assert(entries@.take(entries@.len() as int) =~= entries@);
    map
}

/// What a list of entries says, if every key stands for an id.
fn decode_map<V: Clone>(entries: &Vec<Entry<V>>) -> (r: Result<HashMap<VectorId, V>, DbError>)
    requires
        copies_exactly::<V>(),
    ensures
        match r {
            Ok(map) => keys_sound(entries@) && map@ == decoded(entries@),
            Err(e) => bad_key(entries@, e),
        },
{
    if let Some(i) = first_bad_key(entries) {
        assert(key_id(entries@[i as int].key@) is None);
        return Err(DbError::InvalidManifestId { value: entries[i].key.clone() });
    }
    Ok(collect_entries(entries))
}

/// Entries for the records of the store.
pub fn encode_record_map(map: &HashMap<VectorId, ChunkRecord>) -> (r: Vec<Entry<ChunkRecord>>)
    ensures
        encodes(r@, map@),
{
    encode_map(map)
}

/// The records that a manifest lists.
pub fn decode_record_map(entries: &Vec<Entry<ChunkRecord>>) -> (r: Result<
    HashMap<VectorId, ChunkRecord>,
    DbError,
>)
    ensures
        match r {
            Ok(map) => keys_sound(entries@) && map@ == decoded(entries@),
            Err(e) => bad_key(entries@, e),
        },
{
    decode_map(entries)
}

/// Entries for the offsets of the store.
pub fn encode_offset_map(map: &HashMap<VectorId, u64>) -> (r: Vec<Entry<u64>>)
    ensures
        encodes(r@, map@),
{
    encode_map(map)
}

/// The offsets that a manifest lists.
pub fn decode_offset_map(entries: &Vec<Entry<u64>>) -> (r: Result<
    HashMap<VectorId, u64>,
    DbError,
>)
    ensures
        match r {
            Ok(map) => keys_sound(entries@) && map@ == decoded(entries@),
            Err(e) => bad_key(entries@, e),
        },
{
    decode_map(entries)
}

/// What a manifest says about the bucketed index.
#[verifier::ext_equal]
pub struct Buckets {
    pub num_buckets: usize,
    pub probe_buckets: usize,
    pub assignments: Map<VectorId, usize>,
}

/// What a manifest says.
#[verifier::ext_equal]
pub struct Persisted {
    pub dim: usize,
    pub next_id: VectorId,
    pub policy: CompactionPolicy,
    pub records: Map<VectorId, ChunkRecord>,
    pub offsets: Map<VectorId, u64>,
    pub tombstones: Set<VectorId>,
    pub postings: PostingsView,
    pub ivf: Option<Buckets>,
}

impl Persisted {
    /// What the manifest of a new store says.
    pub open spec fn initial() -> Persisted {
        Persisted {
            dim: EMBEDDING_DIM,
            next_id: 0,
            policy: CompactionPolicy {
                dead_ratio_threshold: crate::types::DEFAULT_COMPACT_THRESHOLD,
            },
            records: Map::empty(),
            offsets: Map::empty(),
            tombstones: Set::empty(),
            postings: PostingsView::empty(),
            ivf: None,
        }
    }
}

impl View for IvfManifest {
    type V = Buckets;

    open spec fn view(&self) -> Buckets {
        Buckets {
            num_buckets: self.num_buckets,
            probe_buckets: self.probe_buckets,
            assignments: decoded(self.assignments@),
        }
    }
}

impl View for Manifest {
    type V = Persisted;

    open spec fn view(&self) -> Persisted {
        Persisted {
            dim: self.dim,
            next_id: self.next_id,
            policy: self.compaction,
            records: decoded(self.records@),
            offsets: decoded(self.offsets@),
            tombstones: self.tombstones@.to_set(),
            postings: self.postings@,
            ivf: match self.ivf {
                Some(ivf) => Some(ivf@),
                None => None,
            },
        }
    }
}

impl Manifest {
    /// The format is known and every key stands for an id.
    pub open spec fn sound(self) -> bool {
        &&& self.version == MANIFEST_VERSION
        &&& keys_sound(self.records@)
        &&& keys_sound(self.offsets@)
        &&& self.postings.wf()
    }

    /// Every id occurs once among the records, the offsets, the tombstones and the assignments of
    /// the index, written as its numeral, so that nothing is lost where entries become a map.
    pub open spec fn canonical(self) -> bool {
        &&& self.sound()
        &&& encodes(self.records@, self@.records)
        &&& encodes(self.offsets@, self@.offsets)
        &&& self.tombstones@.no_duplicates()
        &&& self.ivf matches Some(ivf) ==> encodes(ivf.assignments@, decoded(ivf.assignments@))
    }
}

impl Default for Manifest {
    fn default() -> (r: Self)
        ensures
            r.canonical(),
            r@ == Persisted::initial(),
    {
        let manifest = Manifest {
            version: MANIFEST_VERSION,
            dim: EMBEDDING_DIM,
            next_id: 0,
            compaction: CompactionPolicy::default(),
            records: Vec::new(),
            offsets: Vec::new(),
            tombstones: Vec::new(),
            postings: PostingIndex::default(),
            ivf: None,
        };
        proof {
            assert(manifest.tombstones@.to_set() =~= Set::<VectorId>::empty());
            let none = Seq::<VectorId>::empty();
            assert(lists_set(none, manifest@.records.dom()));
            assert(lists_set(none, manifest@.offsets.dom()));
        }
        manifest
    }
}

/// The manifest for what the store knows.
pub(crate) fn make_manifest(
    dim: usize,
    next_id: VectorId,
    compaction: CompactionPolicy,
    records: &HashMap<VectorId, ChunkRecord>,
    offsets: &HashMap<VectorId, u64>,
    tombstones: &HashSet<VectorId>,
    postings: &PostingIndex,
    ivf: &Option<IvfIndex>,
) -> (r: Manifest)
    requires
        postings.wf(),
    ensures
        r.canonical(),
        r@ == (Persisted {
            dim,
            next_id,
            policy: compaction,
            records: records@,
            offsets: offsets@,
            tombstones: tombstones@,
            postings: postings@,
            ivf: buckets_of(match *ivf {
                Some(index) => Some(index@),
                None => None,
            }),
        }),
{
    let records_out = encode_record_map(records);
    let offsets_out = encode_offset_map(offsets);
    let ids = set_ids(tombstones);
    let ivf_out = match ivf {
        Some(index) => {
            let assignments = encode_map(&index.assignments);
            proof {
                law_decode_encoded(assignments@, index.assignments@);
            }
            Some(
                IvfManifest {
                    num_buckets: index.num_buckets,
                    probe_buckets: index.probe_buckets,
                    assignments,
                },
            )
        },
        None => None,
    };
    proof {
        law_decode_encoded(records_out@, records@);
        law_decode_encoded(offsets_out@, offsets@);
        assert(ids@.to_set() =~= tombstones@) by {
            assert forall|id: VectorId| ids@.to_set().contains(id) <==> tombstones@.contains(id) by {
                assert(ids@.to_set().contains(id) <==> ids@.contains(id));
            }
        }
    }
    Manifest {
        version: MANIFEST_VERSION,
        dim,
        next_id,
        compaction,
        records: records_out,
        offsets: offsets_out,
        tombstones: ids,
        postings: postings.clone(),
        ivf: ivf_out,
    }
}

/// What a manifest says about an index.
pub open spec fn buckets_of(index: Option<IvfView>) -> Option<Buckets> {
    match index {
        Some(index) => Some(
            Buckets {
                num_buckets: index.num_buckets,
                probe_buckets: index.probe_buckets,
                assignments: index.assignments,
            },
        ),
        None => None,
    }
}

/// Refuses a manifest above the size limit.
pub fn check_manifest_len(len: usize) -> (r: Result<(), DbError>)
    ensures
        r == (if len > MAX_MANIFEST_BYTES {
            Err(DbError::ManifestTooLarge { len, max: MAX_MANIFEST_BYTES })
        } else {
            Ok(())
        }),
{
    if len > MAX_MANIFEST_BYTES {
        return Err(DbError::ManifestTooLarge { len, max: MAX_MANIFEST_BYTES });
    }
    Ok(())
}

/// The index that a manifest and the bytes of the centroid file give. Without the file, or with
/// one of the wrong length, there is no index; it can be built again.
pub open spec fn loaded(
    dim: nat,
    buckets: Option<Buckets>,
    centroids: Option<Seq<u8>>,
) -> Option<IvfView> {
    match (buckets, centroids) {
        (Some(buckets), Some(bytes)) => if bytes.len() == buckets.num_buckets * dim * 4 {
            Some(
                IvfView {
                    num_buckets: buckets.num_buckets,
                    probe_buckets: buckets.probe_buckets,
                    assignments: buckets.assignments,
                    centroids: words_of(ByteOrder::Little, bytes),
                },
            )
        } else {
            None
        },
        _ => None,
    }
}

/// An index is loaded exactly where the manifest has one and there is a centroid file of exactly
/// four bytes for each component of each centroid. It then has the buckets and assignments of the
/// manifest, and its centroids are the words of that file, the least significant byte first.
pub proof fn law_loaded_index(
    dim: nat,
    buckets: Option<Buckets>,
    centroids: Option<Seq<u8>>,
    i: int,
)
    ensures
        buckets is None || centroids is None ==> loaded(dim, buckets, centroids) is None,
        buckets matches Some(said) ==> (centroids matches Some(bytes) ==> {
            &&& loaded(dim, buckets, centroids) is Some <==> bytes.len() == 4 * (said.num_buckets
                * dim)
            &&& loaded(dim, buckets, centroids) matches Some(index) ==> {
                &&& index.num_buckets == said.num_buckets
                &&& index.probe_buckets == said.probe_buckets
                &&& index.assignments == said.assignments
                &&& index.centroids.len() == said.num_buckets * dim
                &&& 0 <= i < index.centroids.len() ==> index.centroids[i] == bytes[4 * i] + 256
                    * bytes[4 * i + 1] + 65_536 * bytes[4 * i + 2] + 16_777_216 * bytes[4 * i + 3]
            }
        }),
{
    if let (Some(said), Some(bytes)) = (buckets, centroids) {
        let n = said.num_buckets as int;
        let d = dim as int;
        assert(n * d * 4 == 4 * (n * d)) by (nonlinear_arith);
        if 0 <= i && 4 * i + 4 <= bytes.len() {
            crate::words::law_words_in_place(ByteOrder::Little, Seq::empty(), bytes, i, 0);
            crate::words::law_value_of_bytes(
                seq![bytes[4 * i], bytes[4 * i + 1], bytes[4 * i + 2], bytes[4 * i + 3]],
            );
        }
    }
}

/// Loads the bucketed index.
pub fn load_ivf(
    dim: usize,
    manifest: &Option<IvfManifest>,
    centroids: &Option<Vec<u8>>,
) -> (r: Option<IvfIndex>)
    ensures
        (match r {
            Some(index) => Some(index@),
            None => None,
        }) == loaded(
            dim as nat,
            match *manifest {
                Some(ivf) => Some(ivf@),
                None => None,
            },
            match *centroids {
                Some(bytes) => Some(bytes@),
                None => None,
            },
        ),
{
    match (manifest, centroids) {
        (Some(meta), Some(bytes)) => {
            match read_centroids(bytes.as_slice(), meta.num_buckets, dim) {
                Ok(centroids) => Some(
                    IvfIndex {
                        num_buckets: meta.num_buckets,
                        probe_buckets: meta.probe_buckets,
                        assignments: collect_entries(&meta.assignments),
                        centroids,
                    },
                ),
                Err(_) => None,
            }
        },
        _ => None,
    }
}

/// The row of `id` ends within `len` bytes.
pub open spec fn row_fits(dim: nat, offsets: Map<VectorId, u64>, len: nat, id: VectorId) -> bool {
    offsets[id] + 4 * dim <= len
}

/// What the records, offsets and tombstones of an opened store have to satisfy: the width is not
/// zero, records and offsets name the same ids, only recorded rows carry a tombstone, no two rows
/// share an offset, and every row ends within the vector file.
pub open spec fn open_state_valid(
    dim: nat,
    records: Set<VectorId>,
    offsets: Map<VectorId, u64>,
    tombstones: Set<VectorId>,
    len: nat,
) -> bool {
    &&& dim > 0
    &&& records == offsets.dom()
    &&& tombstones.subset_of(records)
    &&& rows_distinct(offsets)
    &&& forall|id: VectorId| offsets.contains_key(id) ==> #[trigger] row_fits(dim, offsets, len, id)
}

/// No two rows share an offset.
pub open spec fn rows_distinct(offsets: Map<VectorId, u64>) -> bool {
    forall|a: VectorId, b: VectorId|
        offsets.contains_key(a) && offsets.contains_key(b) && a != b ==> #[trigger] offsets[a]
            != #[trigger] offsets[b]
}

/// Why a store cannot be opened. Where rows break several rules, any of them may be reported.
pub open spec fn open_state_error(
    dim: nat,
    records: Set<VectorId>,
    offsets: Map<VectorId, u64>,
    tombstones: Set<VectorId>,
    len: nat,
    e: DbError,
) -> bool {
    if dim == 0 {
        e == (DbError::InvalidDimension { expected: 1, got: 0 })
    } else if records != offsets.dom() {
        e == DbError::CorruptManifestKeyMismatch
    } else if !tombstones.subset_of(records) {
        e matches DbError::CorruptManifestTombstone { id } && tombstones.contains(id)
            && !records.contains(id)
    } else {
        match e {
            DbError::DuplicateVectorOffset { offset, first, second } => first != second
                && offsets.contains_key(first) && offsets.contains_key(second) && offsets[first]
                == offset && offsets[second] == offset,
            DbError::CorruptVectorOffset { id } => offsets.contains_key(id) && !row_fits(
                dim,
                offsets,
                len,
                id,
            ),
            _ => false,
        }
    }
}

fn holds_keys<A, B>(map: &HashMap<VectorId, A>, other: &HashMap<VectorId, B>) -> (r: bool)
    ensures
        r == other@.dom().subset_of(map@.dom()),
{
    let ids = map_ids(other);
    let mut i: usize = 0;
    while i < ids.len()
        invariant
            i <= ids@.len(),
            lists_set(ids@, other@.dom()),
            forall|j: int| 0 <= j < i ==> map@.contains_key(#[trigger] ids@[j]),
        decreases ids@.len() - i,
    {
        if !map.contains_key(&ids[i]) {
            assert(ids@.contains(ids@[i as int]));
            return false;
        }
        i = i + 1;
    }
    assert forall|id: VectorId| other@.dom().contains(id) implies map@.dom().contains(id) by {
        assert(ids@.contains(id));
    }
    true
}

/// Checks what an opened store says of itself against the length of its vector file.
pub fn validate_open_state(
    dim: usize,
    records: &HashMap<VectorId, ChunkRecord>,
    id_offsets: &HashMap<VectorId, u64>,
    tombstones: &HashSet<VectorId>,
    file_len: usize,
) -> (r: Result<(), DbError>)
    ensures
        match r {
            Ok(()) => open_state_valid(
                dim as nat,
                records@.dom(),
                id_offsets@,
                tombstones@,
                file_len as nat,
            ),
            Err(e) => open_state_error(
                dim as nat,
                records@.dom(),
                id_offsets@,
                tombstones@,
                file_len as nat,
                e,
            ),
        },
{
    if dim == 0 {
        return Err(DbError::InvalidDimension { expected: 1, got: 0 });
    }
    if !holds_keys(records, id_offsets) || !holds_keys(id_offsets, records) {
        return Err(DbError::CorruptManifestKeyMismatch);
    }
    assert(records@.dom() =~= id_offsets@.dom());
    let dead = set_ids(tombstones);
    let mut i: usize = 0;
    while i < dead.len()
        invariant
            i <= dead@.len(),
            dim > 0,
            records@.dom() == id_offsets@.dom(),
            lists_set(dead@, tombstones@),
            forall|j: int| 0 <= j < i ==> records@.contains_key(#[trigger] dead@[j]),
        decreases dead@.len() - i,
    {
        let id: VectorId = dead[i];
        if !records.contains_key(&id) {
            assert(dead@.contains(id));
            assert(tombstones@.contains(id));
            return Err(DbError::CorruptManifestTombstone { id });
        }
        i = i + 1;
    }
    assert(tombstones@.subset_of(records@.dom())) by {
        assert forall|id: VectorId| tombstones@.contains(id) implies records@.dom().contains(id) by {
            assert(dead@.contains(id));
        }
    }
    let ids = map_ids(id_offsets);
    let vector_bytes: u128 = 4 * (dim as u128);
    let mut seen: HashMap<u64, VectorId> = HashMap::new();
    let mut k: usize = 0;
    while k < ids.len()
        invariant
            k <= ids@.len(),
            dim > 0,
            vector_bytes == 4 * dim,
            records@.dom() == id_offsets@.dom(),
            tombstones@.subset_of(records@.dom()),
            lists_set(ids@, id_offsets@.dom()),
            forall|j: int|
                0 <= j < k ==> row_fits(
                    dim as nat,
                    id_offsets@,
                    file_len as nat,
                    #[trigger] ids@[j],
                ),
            forall|j: int|
                0 <= j < k ==> seen@.contains_key(id_offsets@[#[trigger] ids@[j]])
                    && seen@[id_offsets@[ids@[j]]] == ids@[j],
            forall|offset: u64| #[trigger]
                seen@.contains_key(offset) ==> exists|j: int|
                    0 <= j < k && #[trigger] ids@[j] == seen@[offset] && id_offsets@[ids@[j]]
                        == offset,
        decreases ids@.len() - k,
    {
        let id: VectorId = ids[k];
        assert(ids@.contains(id));
        if let Some(offset) = id_offsets.get(&id) {
            let offset: u64 = *offset;
            if let Some(first) = seen.get(&offset) {
                proof {
                    let j = choose|j: int|
                        0 <= j < k && #[trigger] ids@[j] == seen@[offset] && id_offsets@[ids@[j]]
                            == offset;
                    assert(ids@.contains(ids@[j]));
                    assert(ids@[j] != ids@[k as int]);
                }
                return Err(
                    DbError::DuplicateVectorOffset { offset, first: *first, second: id },
                );
            }
            let ghost before = seen@;
            seen.insert(offset, id);
            if offset as u128 + vector_bytes > file_len as u128 {
                assert(!row_fits(dim as nat, id_offsets@, file_len as nat, id));
                return Err(DbError::CorruptVectorOffset { id });
            }
            proof {
                assert forall|o: u64| #[trigger] seen@.contains_key(o) implies exists|j: int|
                    0 <= j < k + 1 && #[trigger] ids@[j] == seen@[o] && id_offsets@[ids@[j]]
                        == o by {
                    if o == offset {
                        assert(ids@[k as int] == id);
                    } else {
                        assert(before.contains_key(o));
                        let j = choose|j: int|
                            0 <= j < k && #[trigger] ids@[j] == before[o] && id_offsets@[ids@[j]]
                                == o;
                        assert(ids@[j] == seen@[o]);
                    }
                }
            }
        }
        k = k + 1;
    }
    proof {
        assert forall|id: VectorId| id_offsets@.contains_key(id) implies #[trigger] row_fits(
            dim as nat,
            id_offsets@,
            file_len as nat,
            id,
        ) by {
            assert(ids@.contains(id));
        }
        assert forall|a: VectorId, b: VectorId|
            id_offsets@.contains_key(a) && id_offsets@.contains_key(b) && a
                != b implies #[trigger] id_offsets@[a] != #[trigger] id_offsets@[b] by {
            assert(ids@.contains(a) && ids@.contains(b));
            let i = choose|i: int| 0 <= i < ids@.len() && ids@[i] == a;
            let j = choose|j: int| 0 <= j < ids@.len() && ids@[j] == b;
            assert(seen@[id_offsets@[ids@[i]]] == ids@[i]);
            assert(seen@[id_offsets@[ids@[j]]] == ids@[j]);
        }
    }
    Ok(())
}

} // verus!
