use std::collections::{HashMap, HashSet};

use rek0n_db::bits::{bits_ge, bits_gt, is_nan, NEG_INFINITY};
use rek0n_db::compact::{compact_vectors, dead_ratio};
use rek0n_db::ivf::{
    build_ivf_index, choose_bucket, default_ivf_buckets, default_ivf_probe, rank_buckets,
    read_centroids, write_centroids, IvfIndex,
};
use rek0n_db::manifest::{
    decode_offset_map, decode_record_map, encode_offset_map, encode_record_map, load_ivf,
    validate_open_state, Entry,
};
use rek0n_db::postings::{Posting, PostingIndex, PostingMap};
use rek0n_db::ranking::{push_candidate, top_candidates, Scored};
use rek0n_db::storage::compaction::is_compaction_due;
use rek0n_db::testing::{chunk_record, chunk_record_with_kind, unit_vector};
use rek0n_db::text::{parse_decimal, to_decimal};
use rek0n_db::types::record_from_metadata_id;
use rek0n_db::words::{byte_len, bytes_from_words, read_words, ByteOrder};
use rek0n_db::{ChunkRecord, CompactionPolicy, DbError, VectorMath, EMBEDDING_DIM};

struct F32Math;

impl VectorMath for F32Math {
    fn dot(&self, a: &[u32], b: &[u32]) -> u32 {
        let mut sum = 0.0_f32;
        for (x, y) in a.iter().zip(b.iter()) {
            sum += f32::from_bits(*x) * f32::from_bits(*y);
        }
        sum.to_bits()
    }

    fn mean(&self, values: &[u32]) -> u32 {
        let mut sum = 0.0_f32;
        for value in values {
            sum += f32::from_bits(*value);
        }
        (sum * (1.0 / values.len() as f32)).to_bits()
    }

    fn ratio(&self, dead: usize, allocated: usize) -> u32 {
        (dead as f32 / allocated as f32).to_bits()
    }
}

fn bits(values: &[f32]) -> Vec<u32> {
    values.iter().map(|value| value.to_bits()).collect()
}

fn record(file: &str, kind: &str) -> ChunkRecord {
    ChunkRecord {
        text: "fn main() {}".into(),
        kind: kind.into(),
        name: None,
        file_path: file.into(),
        start_line: 1,
        end_line: 1,
    }
}

#[test]
fn resolves_file_and_kind_filters_with_and_semantics() {
    let mut postings = PostingIndex::default();
    postings.insert(0, &record("src/a.rs", "Function"));
    postings.insert(1, &record("src/b.rs", "Struct"));

    let paths = vec!["src/a.rs".into()];
    let kinds = vec!["Function".into()];
    let empty = HashSet::new();

    let ids = postings
        .resolve(Some(&paths), None, Some(&kinds), None, &empty)
        .expect("filtered");
    assert_eq!(ids, vec![0]);

    let kinds = vec!["Struct".into()];
    let ids = postings
        .resolve(Some(&paths), None, Some(&kinds), None, &empty)
        .expect("filtered");
    assert!(ids.is_empty());
}

#[test]
fn mmap_round_trip_preserves_dot_product() {
    let vector = {
        let mut values = vec![0.0_f32; EMBEDDING_DIM];
        values[7] = 1.0;
        bits(&values)
    };
    let bytes = bytes_from_words(ByteOrder::Little, &vector);
    assert_eq!(bytes.len(), byte_len(&vector));
    let slice = read_words(ByteOrder::Little, &bytes, 0, bytes.len() / 4);
    assert_eq!(slice.len(), EMBEDDING_DIM);
    assert!((f32::from_bits(F32Math.dot(&slice, &vector)) - 1.0).abs() < f32::EPSILON);
}

#[test]
fn postings_resolve_nothing_without_filters() {
    let postings = PostingIndex::default();
    let empty = HashSet::new();
    assert!(postings.resolve(None, None, None, None, &empty).is_none());
    let none: Vec<String> = Vec::new();
    assert_eq!(
        postings.resolve(Some(&none), None, None, None, &empty),
        Some(Vec::new())
    );
}

#[test]
fn postings_drop_removed_rows_and_empty_lists() {
    let mut postings = PostingIndex::default();
    let record = chunk_record("src/a.rs", 1);
    postings.insert(3, &record);
    postings.insert(4, &record);
    let mut ids = postings
        .resolve(None, Some("src/"), None, None, &HashSet::new())
        .expect("prefix");
    ids.sort();
    assert_eq!(ids, vec![3, 4]);
    let dead: HashSet<u32> = [3].into_iter().collect();
    assert_eq!(
        postings.resolve(None, Some("src/"), None, None, &dead),
        Some(vec![4])
    );
    postings.remove(3, &record);
    assert_eq!(postings.by_file.entries().len(), 1);
    postings.remove(4, &record);
    assert!(postings.by_file.entries().is_empty());
    assert!(postings.by_kind.entries().is_empty());
    postings.remove(4, &record);
    assert!(postings.by_file.entries().is_empty());
}

#[test]
fn posting_map_keeps_the_later_list() {
    let map = PostingMap::from_entries(vec![
        Posting {
            key: "a".into(),
            ids: vec![1],
        },
        Posting {
            key: "b".into(),
            ids: vec![2],
        },
        Posting {
            key: "a".into(),
            ids: vec![3, 3],
        },
    ]);
    assert_eq!(map.get(&"a".to_string()), Some(&vec![3, 3]));
    assert_eq!(map.get(&"b".to_string()), Some(&vec![2]));
    assert_eq!(map.get(&"c".to_string()), None);
    assert_eq!(map.entries().len(), 2);
}

#[test]
fn bit_patterns_order_like_numbers() {
    let numbers = [
        f32::NEG_INFINITY,
        -2.5,
        -1.0e-40,
        -0.0,
        0.0,
        1.0e-40,
        1.0,
        f32::INFINITY,
    ];
    for a in numbers {
        for b in numbers {
            assert_eq!(bits_gt(a.to_bits(), b.to_bits()), a > b);
            assert_eq!(bits_ge(a.to_bits(), b.to_bits()), a >= b);
        }
        assert!(!bits_gt(f32::NAN.to_bits(), a.to_bits()));
        assert!(!bits_ge(a.to_bits(), f32::NAN.to_bits()));
        assert!(!bits_gt(a.to_bits(), f32::NAN.to_bits()));
        assert!(!is_nan(a.to_bits()));
    }
    assert!(is_nan(f32::NAN.to_bits()));
    assert_eq!(NEG_INFINITY, f32::NEG_INFINITY.to_bits());
}

#[test]
fn words_round_trip_through_bytes_of_either_order() {
    let words = vec![0x0403_0201, 0, u32::MAX];
    for order in [ByteOrder::Little, ByteOrder::Big] {
        let bytes = bytes_from_words(order, &words);
        assert_eq!(
            bytes[..4],
            match order {
                ByteOrder::Little => 0x0403_0201_u32.to_le_bytes(),
                ByteOrder::Big => 0x0403_0201_u32.to_be_bytes(),
            }
        );
        assert_eq!(read_words(order, &bytes, 0, 3), words);
        assert_eq!(read_words(order, &bytes, 1, 1), vec![0]);
    }
    assert_eq!(bytes_from_words(ByteOrder::Little, &words)[..4], [1, 2, 3, 4]);
}

#[test]
fn numerals_round_trip() {
    for n in [0_u64, 9, 10, 4_294_967_295, u64::MAX] {
        assert_eq!(to_decimal(n), n.to_string());
        assert_eq!(parse_decimal(&to_decimal(n), u64::MAX), Some(n));
    }
    assert_eq!(parse_decimal("+07", 7), Some(7));
    assert_eq!(parse_decimal("8", 7), None);
    assert_eq!(parse_decimal("", 7), None);
    assert_eq!(parse_decimal("+", 7), None);
    assert_eq!(parse_decimal("18446744073709551616", u64::MAX), None);
}

#[test]
fn metadata_keys_are_split_from_the_right() {
    let record = record_from_metadata_id("C:\\a.rs:3:4");
    assert_eq!(record.file_path, "C:\\a.rs");
    assert_eq!((record.start_line, record.end_line), (3, 4));
    let record = record_from_metadata_id("a.rs:5");
    assert_eq!(record.file_path, "a.rs");
    assert_eq!((record.start_line, record.end_line), (5, 5));
    let record = record_from_metadata_id("a.rs");
    assert_eq!(record.file_path, "a.rs");
    assert_eq!((record.start_line, record.end_line), (0, 0));
    let record = record_from_metadata_id("a.rs:x:9");
    assert_eq!((record.start_line, record.end_line), (0, 9));
}

#[test]
fn ranking_keeps_the_best_candidates() {
    let all: Vec<Scored> = [1.0_f32, 3.0, -1.0, 3.0, 2.0]
        .iter()
        .enumerate()
        .map(|(id, score)| Scored {
            id: id as u64,
            score: score.to_bits(),
        })
        .collect();
    let ids: Vec<u64> = top_candidates(&all, 3).iter().map(|hit| hit.id).collect();
    assert_eq!(ids, vec![1, 3, 4]);
    let ids: Vec<u64> = top_candidates(&all, 9).iter().map(|hit| hit.id).collect();
    assert_eq!(ids, vec![1, 3, 4, 0, 2]);
    let mut reversed = all.clone();
    reversed.reverse();
    assert_eq!(top_candidates(&reversed, 3), top_candidates(&all, 3));
    let mut heap = top_candidates(&all, 2);
    push_candidate(
        &mut heap,
        2,
        Scored {
            id: 9,
            score: 2.5_f32.to_bits(),
        },
    );
    assert_eq!(heap, top_candidates(&all, 2));
    assert!(top_candidates(&all, 0).is_empty());
}

#[test]
fn buckets_are_ranked_and_chosen_by_score() {
    let scores = bits(&[0.5, -2.0, 2.0, 2.0, -1.0]);
    assert_eq!(rank_buckets(&scores, 3), vec![2, 3, 0]);
    assert_eq!(rank_buckets(&scores, 9), vec![2, 3, 0, 4, 1]);
    assert_eq!(choose_bucket(&scores), 2);
    assert_eq!(choose_bucket(&bits(&[f32::NAN, -3.0])), 1);
    assert_eq!(choose_bucket(&bits(&[f32::NAN, f32::NEG_INFINITY])), 0);
    assert_eq!(rank_buckets(&scores, 99).len(), 5);
}

#[test]
fn what_is_not_a_number_keeps_its_place() {
    assert_eq!(rank_buckets(&bits(&[f32::NAN, 1.0]), 1), vec![0]);
    assert_eq!(rank_buckets(&bits(&[1.0, f32::NAN]), 1), vec![0]);
    assert_eq!(rank_buckets(&bits(&[1.0, 2.0, f32::NAN]), 3), vec![1, 0, 2]);
    assert_eq!(rank_buckets(&bits(&[1.0, f32::NAN, 2.0]), 3), vec![0, 1, 2]);
    let all: Vec<Scored> = [(4, 1.0_f32), (2, f32::NAN), (7, 1.0)]
        .iter()
        .map(|(id, score)| Scored {
            id: *id,
            score: score.to_bits(),
        })
        .collect();
    let ids: Vec<u64> = top_candidates(&all, 3).iter().map(|hit| hit.id).collect();
    assert_eq!(ids, vec![2, 4, 7]);
}

fn rows(values: &[[f32; 2]]) -> (Vec<u32>, HashMap<u32, u64>) {
    let mut words = Vec::new();
    let mut offsets = HashMap::new();
    for (id, row) in values.iter().enumerate() {
        offsets.insert(id as u32, (words.len() * 4) as u64);
        words.extend_from_slice(&bits(row));
    }
    (words, offsets)
}

#[test]
fn training_takes_spaced_seeds_and_means() {
    let (words, offsets) = rows(&[[1.0, 0.0], [3.0, 0.0], [0.0, 1.0], [0.0, 3.0]]);
    let ids = vec![0, 1, 2, 3];
    let index = build_ivf_index(&F32Math, 2, 1, 2, &ids, &words, &offsets).expect("index");
    assert_eq!(index.centroids, bits(&[2.0, 0.0, 0.0, 2.0]));
    assert_eq!(index.assignments[&0], 0);
    assert_eq!(index.assignments[&1], 0);
    assert_eq!(index.assignments[&2], 1);
    assert_eq!(index.assignments[&3], 1);
    let mut first = index.bucket_ids(0);
    first.sort();
    assert_eq!(first, vec![0, 1]);
    assert_eq!(index.probe(&F32Math, &bits(&[0.0, 1.0]), 2, 1), vec![1]);
    assert_eq!(index.probe(&F32Math, &bits(&[0.0, 1.0]), 2, 7), vec![1, 0]);
    assert_eq!(index.nearest_bucket(&F32Math, &bits(&[5.0, 1.0]), 2), 0);
    let dead: HashSet<u32> = [2].into_iter().collect();
    assert_eq!(
        index.candidates(&F32Math, &bits(&[0.0, 1.0]), 2, 1, &dead),
        vec![3]
    );
}

#[test]
fn training_refines_its_seeds_once() {
    let (words, offsets) = rows(&[[2.0, 0.0], [1.0, 1.5], [0.0, 1.0], [0.0, 4.0]]);
    assert_eq!(offsets[&3], 24);
    let ids = vec![0, 1, 2, 3];
    let index = build_ivf_index(&F32Math, 2, 1, 2, &ids, &words, &offsets).expect("index");
    assert_eq!(index.centroids, bits(&[1.5, 0.75, 0.0, 2.5]));
    assert_eq!(index.assignments[&0], 0);
    assert_eq!(index.assignments[&1], 1);
    assert_eq!(index.assignments[&2], 1);
    assert_eq!(index.assignments[&3], 1);
}

#[test]
fn training_names_the_first_seed_without_a_row() {
    let values = [[1.0, 0.0], [3.0, 0.0], [0.0, 1.0], [0.0, 3.0]];
    let ids = vec![0, 1, 2, 3];
    for (lost, named) in [([1, 2], 2), ([1, 3], 1), ([0, 2], 0), ([3, 3], 3)] {
        let (words, mut offsets) = rows(&values);
        for id in lost {
            offsets.remove(&id);
        }
        let err = build_ivf_index(&F32Math, 2, 1, 2, &ids, &words, &offsets).expect_err("lost");
        assert!(matches!(err, DbError::MissingOffset { id } if id == named));
    }
}

#[test]
fn candidates_are_the_live_rows_of_the_probed_buckets() {
    let (words, offsets) = rows(&[[1.0, 0.0], [3.0, 0.0], [0.0, 1.0], [0.0, 3.0]]);
    let index =
        build_ivf_index(&F32Math, 2, 1, 2, &vec![0, 1, 2, 3], &words, &offsets).expect("index");
    let dead: HashSet<u32> = [0].into_iter().collect();
    for query in [[1.0, 0.5], [0.5, 1.0], [-1.0, 0.0]] {
        for n in 1..3_usize {
            let query = bits(&query);
            let mut wanted: Vec<u32> = Vec::new();
            let buckets = index.probe(&F32Math, &query, 2, n);
            let mut listed = index.live_ids_in(&buckets, &dead);
            listed.sort();
            for bucket in buckets {
                wanted.extend(index.bucket_ids(bucket));
            }
            wanted.retain(|id| !dead.contains(id));
            wanted.sort();
            let mut got = index.candidates(&F32Math, &query, 2, n, &dead);
            got.sort();
            assert_eq!(got, wanted);
            assert_eq!(listed, wanted);
        }
    }
}

#[test]
fn empty_bucket_keeps_its_centroid() {
    let (words, offsets) = rows(&[[1.0, 0.0], [4.0, 0.0]]);
    let index =
        build_ivf_index(&F32Math, 2, 1, 2, &vec![0, 1], &words, &offsets).expect("index");
    assert_eq!(index.centroids, bits(&[1.0, 0.0, 2.5, 0.0]));
    assert!(index.bucket_ids(0).is_empty());
}

#[test]
fn training_refuses_what_it_cannot_use() {
    let (words, mut offsets) = rows(&[[1.0, 0.0], [4.0, 0.0]]);
    let ids = vec![0, 1];
    assert!(matches!(
        build_ivf_index(&F32Math, 0, 1, 2, &ids, &words, &offsets),
        Err(DbError::InvalidIvfBucketCount)
    ));
    assert!(matches!(
        build_ivf_index(&F32Math, 3, 1, 2, &ids, &words, &offsets),
        Err(DbError::InsufficientVectorsForIvf { live: 2, buckets: 3 })
    ));
    offsets.insert(1, 12);
    assert!(matches!(
        build_ivf_index(&F32Math, 1, 1, 2, &ids, &words, &offsets),
        Err(DbError::MissingOffset { id: 1 })
    ));
    assert_eq!((default_ivf_buckets(), default_ivf_probe()), (256, 3));
}

#[test]
fn centroids_round_trip() {
    let table = bits(&[1.0, -2.0, 0.5, 0.0]);
    let bytes = write_centroids(ByteOrder::Little, &table);
    let swapped = write_centroids(ByteOrder::Big, &table);
    assert_eq!(swapped[..4], 1.0_f32.to_be_bytes());
    assert_eq!(
        read_centroids(&swapped, 2, 2).expect("table")[0],
        1.0_f32.to_bits().swap_bytes()
    );
    assert_eq!(read_centroids(&bytes, 2, 2).expect("table"), table);
    assert!(matches!(
        read_centroids(&bytes, 2, 3),
        Err(DbError::InvalidVectorBytes { len: 16 })
    ));
    assert!(matches!(
        read_centroids(&bytes[..15], 2, 2),
        Err(DbError::InvalidVectorBytes { len: 15 })
    ));
    assert!(read_centroids(&bytes, usize::MAX, usize::MAX).is_err());
}

#[test]
fn compaction_lays_live_rows_out_in_ascending_order() {
    let (words, offsets) = rows(&[[1.0, 2.0], [3.0, 4.0], [5.0, 6.0], [7.0, 8.0]]);
    let mut records = HashMap::new();
    for id in 0..4_u32 {
        records.insert(id, chunk_record_with_kind("src/a.rs", "Struct", id as u64));
    }
    let dead: HashSet<u32> = [1].into_iter().collect();
    let (new_words, new_offsets, stats) =
        compact_vectors(2, &records, &offsets, &dead, &words).expect("compaction");
    assert_eq!(new_words, bits(&[1.0, 2.0, 5.0, 6.0, 7.0, 8.0]));
    assert_eq!(new_offsets.len(), 3);
    assert_eq!((new_offsets[&0], new_offsets[&2], new_offsets[&3]), (0, 8, 16));
    assert_eq!((stats.vectors_before, stats.vectors_after), (4, 3));
    assert_eq!(stats.bytes_reclaimed, 8);

    let lost: HashMap<u32, u64> = HashMap::new();
    assert!(matches!(
        compact_vectors(2, &records, &lost, &dead, &words),
        Err(DbError::MissingOffset { id: 0 })
    ));
    let mut some: HashMap<u32, u64> = offsets.clone();
    some.remove(&3);
    some.remove(&2);
    some.remove(&1);
    assert!(matches!(
        compact_vectors(2, &records, &some, &dead, &words),
        Err(DbError::MissingOffset { id: 2 })
    ));
}

#[test]
fn dead_ratio_is_the_share_of_allocated_ids() {
    let dead: HashSet<u32> = [1, 2, 3].into_iter().collect();
    assert_eq!(f32::from_bits(dead_ratio(&F32Math, &dead, 12)), 0.25);
    assert_eq!(f32::from_bits(dead_ratio(&F32Math, &dead, 0)), 0.0);
    let policy = CompactionPolicy::default();
    assert!(is_compaction_due(0.25_f32.to_bits(), policy, 3));
    assert!(!is_compaction_due(0.24_f32.to_bits(), policy, 3));
    assert!(!is_compaction_due(1.0_f32.to_bits(), policy, 0));
}

#[test]
fn manifest_maps_round_trip() {
    let mut records = HashMap::new();
    records.insert(0_u32, chunk_record("src/a.rs", 1));
    records.insert(u32::MAX, chunk_record("src/b.rs", 2));
    let entries = encode_record_map(&records);
    let mut keys: Vec<String> = entries.iter().map(|entry| entry.key.clone()).collect();
    keys.sort();
    assert_eq!(keys, vec!["0", "4294967295"]);
    assert_eq!(decode_record_map(&entries).expect("records"), records);

    let mut offsets = HashMap::new();
    offsets.insert(7_u32, 1_536_u64);
    let entries = encode_offset_map(&offsets);
    assert_eq!(decode_offset_map(&entries).expect("offsets"), offsets);
    let twice = vec![
        Entry {
            key: "1".to_string(),
            value: 4_u64,
        },
        Entry {
            key: "01".to_string(),
            value: 8_u64,
        },
    ];
    assert_eq!(decode_offset_map(&twice).expect("offsets")[&1], 8);
    let bad = vec![
        Entry {
            key: "1".to_string(),
            value: 4_u64,
        },
        Entry {
            key: "one".to_string(),
            value: 8_u64,
        },
    ];
    assert!(matches!(
        decode_offset_map(&bad),
        Err(DbError::InvalidManifestId { value }) if value == "one"
    ));
}

#[test]
fn open_state_is_checked_against_the_file() {
    let mut records = HashMap::new();
    records.insert(1_u32, chunk_record("src/a.rs", 1));
    let mut offsets = HashMap::new();
    offsets.insert(1_u32, 4_u64);
    let none = HashSet::new();
    assert!(validate_open_state(2, &records, &offsets, &none, 12).is_ok());
    assert!(matches!(
        validate_open_state(2, &records, &offsets, &none, 11),
        Err(DbError::CorruptVectorOffset { id: 1 })
    ));
    assert!(load_ivf(2, &None, &None).is_none());
    let index = IvfIndex {
        num_buckets: 0,
        probe_buckets: 0,
        assignments: HashMap::new(),
        centroids: Vec::new(),
    };
    assert!(index.probe(&F32Math, &bits(&[1.0]), 1, 3).is_empty());
}

#[test]
fn unit_vectors_wrap_around() {
    let vector = unit_vector(EMBEDDING_DIM + 2);
    assert_eq!(vector.len(), EMBEDDING_DIM);
    assert_eq!(f32::from_bits(vector[2]), 1.0);
    assert_eq!(vector.iter().filter(|word| **word != 0).count(), 1);
    assert_eq!(chunk_record("src/a.rs", 7).text, "chunk at 7");
}
