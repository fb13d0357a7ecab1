use rek0n_db::manifest::Manifest;
use rek0n_db::testing::{chunk_record, chunk_record_with_kind, unit_vector};
use rek0n_db::{
    AnnStrategy, ByteOrder, DbError, DiskImage, DiskOp, Rek0nDb, SearchScope, VectorMath,
    EMBEDDING_DIM,
};

struct F32Math;

impl VectorMath for F32Math {
    fn dot(&self, a: &[u32], b: &[u32]) -> u32 {
        let mut sum = 0.0_f32;
        for (x, y) in a.iter().zip(b.iter()) {
            sum += f32::from_bits(*x) * f32::from_bits(*y);
        }
        sum.to_bits()
    }

    fn mean(&self, values: &[u32]) -> u32 {
        let mut sum = 0.0_f32;
        for value in values {
            sum += f32::from_bits(*value);
        }
        (sum * (1.0 / values.len() as f32)).to_bits()
    }

    fn ratio(&self, dead: usize, allocated: usize) -> u32 {
        (dead as f32 / allocated as f32).to_bits()
    }
}

#[derive(Default)]
struct Files {
    vectors: Vec<u8>,
    manifest: Option<Manifest>,
    centroids: Option<Vec<u8>>,
}

impl Files {
    fn sync(&mut self, db: &mut Rek0nDb<F32Math>) {
        for op in db.take_ops() {
            match op {
                DiskOp::AppendVectors(bytes) => self.vectors.extend_from_slice(&bytes),
                DiskOp::ReplaceVectors(bytes) => self.vectors = bytes,
                DiskOp::WriteManifest(manifest) => self.manifest = Some(manifest),
                DiskOp::WriteCentroids(bytes) => self.centroids = Some(bytes),
                DiskOp::RemoveCentroids => self.centroids = None,
            }
        }
    }

    fn image(self) -> DiskImage {
        DiskImage {
            order: ByteOrder::Little,
            manifest: self.manifest,
            vectors: self.vectors,
            centroids: self.centroids,
        }
    }
}

fn open_new() -> Result<Rek0nDb<F32Math>, DbError> {
    Rek0nDb::open(F32Math, Files::default().image())
}

#[test]
fn scoped_search_filters_by_file_path() -> Result<(), DbError> {
    let mut db = open_new()?;

    db.insert_persistent(&unit_vector(0), &chunk_record("src/a.rs", 1))?;
    db.insert_persistent(&unit_vector(1), &chunk_record("src/b.rs", 1))?;

    let paths = vec!["src/a.rs".into()];
    let scope = SearchScope {
        file_paths: Some(&paths),
        include_staging: false,
        ..Default::default()
    };

    let hits = db.search_scoped(&unit_vector(0), 5, scope, AnnStrategy::Exact)?;
    assert_eq!(hits.len(), 1);
    assert_eq!(hits[0].record.file_path, "src/a.rs");

    Ok(())
}

#[test]
fn scoped_search_filters_by_kind() -> Result<(), DbError> {
    let mut db = open_new()?;

    db.insert_persistent(
        &unit_vector(0),
        &chunk_record_with_kind("src/a.rs", "Function", 1),
    )?;
    db.insert_persistent(
        &unit_vector(1),
        &chunk_record_with_kind("src/a.rs", "Struct", 2),
    )?;

    let kinds = vec!["Struct".into()];
    let scope = SearchScope {
        kinds: Some(&kinds),
        include_staging: false,
        ..Default::default()
    };

    let hits = db.search_scoped(&unit_vector(1), 5, scope, AnnStrategy::Exact)?;
    assert_eq!(hits.len(), 1);
    assert_eq!(hits[0].record.kind, "Struct");

    Ok(())
}

#[test]
fn ivf_search_returns_ranked_hits() -> Result<(), DbError> {
    let mut db = open_new()?;

    for index in 0..8 {
        db.insert_persistent(
            &unit_vector(index),
            &chunk_record(&format!("src/f{index}.rs"), index as u64),
        )?;
    }

    db.build_ivf_index(4, 1)?;

    let hits = db.search_scoped(
        &unit_vector(0),
        5,
        SearchScope::all(),
        AnnStrategy::Ivf { probe_buckets: 1 },
    )?;
    assert!(!hits.is_empty());
    assert!(hits.len() <= 5);
    assert_eq!(hits[0].record.file_path, "src/f0.rs");

    Ok(())
}

#[test]
fn rejects_wrong_query_dimension() {
    let db = open_new().expect("open");
    let err = db.search(&[0.0_f32.to_bits(); 3], 1).expect_err("bad dim");
    assert!(matches!(err, DbError::InvalidQuery { .. }));
}

#[test]
fn rejects_zero_search_limit() {
    let db = open_new().expect("open");
    let err = db.search(&unit_vector(0), 0).expect_err("zero limit");
    assert!(matches!(err, DbError::InvalidSearchLimit));
}

#[test]
fn rejects_ivf_before_index_is_built() {
    let mut db = open_new().expect("open");
    db.insert_persistent(&unit_vector(0), &chunk_record("src/a.rs", 1))
        .expect("insert");

    let err = db
        .search_scoped(
            &unit_vector(0),
            1,
            SearchScope::all(),
            AnnStrategy::Ivf { probe_buckets: 1 },
        )
        .expect_err("ivf missing");
    assert!(matches!(err, DbError::IvfNotBuilt));
}

#[test]
fn rejects_hnsw_until_rek0n_search_exists() {
    let db = open_new().expect("open");
    let err = db
        .search_scoped(
            &vec![0.0_f32.to_bits(); EMBEDDING_DIM],
            1,
            SearchScope::all(),
            AnnStrategy::Hnsw { ef_search: 64 },
        )
        .expect_err("hnsw reserved");
    assert!(matches!(err, DbError::HnswNotBuilt));
}

#[test]
fn staging_only_hits_respect_include_staging_flag() -> Result<(), DbError> {
    let mut db = open_new()?;

    db.insert_staging(&unit_vector(0), &chunk_record("src/a.rs", 1))?;

    let scope = SearchScope {
        include_staging: false,
        ..Default::default()
    };
    let hits = db.search_scoped(&unit_vector(0), 5, scope, AnnStrategy::Exact)?;
    assert!(hits.is_empty());

    let hits = db.search(&unit_vector(0), 5)?;
    assert_eq!(hits.len(), 1);

    Ok(())
}

/// A vector with the given first components and zeroes behind them.
fn vector(head: &[f32]) -> Vec<u32> {
    let mut row = vec![0.0_f32.to_bits(); EMBEDDING_DIM];
    for (index, value) in head.iter().enumerate() {
        row[index] = value.to_bits();
    }
    row
}

#[test]
fn search_returns_the_best_rows_of_many() -> Result<(), DbError> {
    let mut db = open_new()?;
    for (line, score) in [0.25_f32, 1.0, -2.0, 0.5, 0.75].iter().enumerate() {
        db.insert_persistent(&vector(&[*score]), &chunk_record("src/a.rs", line as u64))?;
    }
    let hits = db.search(&vector(&[1.0]), 3)?;
    let ids: Vec<u32> = hits.iter().map(|hit| hit.id).collect();
    assert_eq!(ids, vec![1, 4, 3]);
    let scores: Vec<f32> = hits.iter().map(|hit| f32::from_bits(hit.score)).collect();
    assert_eq!(scores, vec![1.0, 0.75, 0.5]);
    assert_eq!(hits[1].record.start_line, 4);

    let all = db.search(&vector(&[1.0]), 100)?;
    let ids: Vec<u32> = all.iter().map(|hit| hit.id).collect();
    assert_eq!(ids, vec![1, 4, 3, 0, 2]);
    Ok(())
}

#[test]
fn equal_scores_rank_by_id() -> Result<(), DbError> {
    let mut db = open_new()?;
    for line in 0..4 {
        db.insert_persistent(&unit_vector(0), &chunk_record("src/a.rs", line))?;
    }
    let ids: Vec<u32> = db
        .search(&unit_vector(0), 3)?
        .iter()
        .map(|hit| hit.id)
        .collect();
    assert_eq!(ids, vec![0, 1, 2]);
    Ok(())
}

#[test]
fn search_spans_both_tiers() -> Result<(), DbError> {
    let mut db = open_new()?;
    db.insert_persistent(&vector(&[0.5]), &chunk_record("src/a.rs", 1))?;
    db.insert_staging(&vector(&[0.75]), &chunk_record("src/b.rs", 2))?;
    db.insert_persistent(&vector(&[1.0]), &chunk_record("src/c.rs", 3))?;
    let ids: Vec<u32> = db
        .search(&vector(&[1.0]), 10)?
        .iter()
        .map(|hit| hit.id)
        .collect();
    assert_eq!(ids, vec![2, 1, 0]);
    Ok(())
}

#[test]
fn tombstoned_rows_are_never_found() -> Result<(), DbError> {
    let mut db = open_new()?;
    for line in 0..8 {
        db.insert_persistent(&unit_vector(0), &chunk_record("src/a.rs", line))?;
    }
    assert!(db.tombstone(3)?);
    let ids: Vec<u32> = db
        .search(&unit_vector(0), 10)?
        .iter()
        .map(|hit| hit.id)
        .collect();
    assert_eq!(ids, vec![0, 1, 2, 4, 5, 6, 7]);
    let scope = SearchScope {
        candidate_ids: Some(&[3, 4, 99]),
        ..Default::default()
    };
    let hits = db.search_scoped(&unit_vector(0), 10, scope, AnnStrategy::Exact)?;
    assert_eq!(hits.len(), 1);
    assert_eq!(hits[0].id, 4);
    Ok(())
}

#[test]
fn scope_combines_prefix_kind_and_ids() -> Result<(), DbError> {
    let mut db = open_new()?;
    db.insert_persistent(
        &unit_vector(0),
        &chunk_record_with_kind("src/auth/a.rs", "Function", 1),
    )?;
    db.insert_persistent(
        &unit_vector(0),
        &chunk_record_with_kind("src/auth/b.rs", "Struct", 2),
    )?;
    db.insert_persistent(
        &unit_vector(0),
        &chunk_record_with_kind("src/authority.rs", "Function", 3),
    )?;
    let scope = SearchScope {
        file_path_prefix: Some("src/auth/"),
        ..Default::default()
    };
    let ids: Vec<u32> = db
        .search_scoped(&unit_vector(0), 10, scope, AnnStrategy::Exact)?
        .iter()
        .map(|hit| hit.id)
        .collect();
    assert_eq!(ids, vec![0, 1]);

    let kinds: Vec<String> = vec!["Function".into()];
    let scope = SearchScope {
        file_path_prefix: Some("src/auth"),
        kinds: Some(&kinds),
        candidate_ids: Some(&[1, 2]),
        ..Default::default()
    };
    let ids: Vec<u32> = db
        .search_scoped(&unit_vector(0), 10, scope, AnnStrategy::Exact)?
        .iter()
        .map(|hit| hit.id)
        .collect();
    assert_eq!(ids, vec![2]);
    Ok(())
}

#[test]
fn candidate_ids_reach_the_staging_tier() -> Result<(), DbError> {
    let mut db = open_new()?;
    db.insert_persistent(&unit_vector(0), &chunk_record("src/a.rs", 1))?;
    let staged = db.insert_staging(&unit_vector(0), &chunk_record("src/b.rs", 2))?;
    let scope = SearchScope {
        candidate_ids: Some(&[staged]),
        ..Default::default()
    };
    let hits = db.search_scoped(&unit_vector(0), 10, scope, AnnStrategy::Exact)?;
    assert_eq!(hits.len(), 1);
    assert_eq!(hits[0].id, staged);
    let scope = SearchScope {
        candidate_ids: Some(&[staged]),
        include_staging: false,
        ..Default::default()
    };
    let hits = db.search_scoped(&unit_vector(0), 10, scope, AnnStrategy::Exact)?;
    assert!(hits.is_empty());
    Ok(())
}

#[test]
fn filters_admit_staged_rows_by_their_own_records() -> Result<(), DbError> {
    let mut db = open_new()?;
    for index in 0..4_usize {
        db.insert_persistent(&unit_vector(index), &chunk_record("src/other.rs", 1))?;
    }
    db.build_ivf_index(2, 1)?;
    let staged = db.insert_staging(
        &unit_vector(0),
        &chunk_record_with_kind("src/a.rs", "Struct", 1),
    )?;
    let paths: Vec<String> = vec!["src/a.rs".into()];
    let kinds: Vec<String> = vec!["Struct".into()];
    let ids = [staged];
    let scopes = [
        SearchScope {
            file_paths: Some(&paths),
            ..Default::default()
        },
        SearchScope {
            file_path_prefix: Some("src/a"),
            ..Default::default()
        },
        SearchScope {
            kinds: Some(&kinds),
            ..Default::default()
        },
        SearchScope {
            file_paths: Some(&paths),
            file_path_prefix: Some("src/"),
            kinds: Some(&kinds),
            candidate_ids: Some(&ids),
            ..Default::default()
        },
    ];
    for scope in scopes {
        for strategy in [AnnStrategy::Exact, AnnStrategy::Ivf { probe_buckets: 1 }] {
            let hits = db.search_scoped(&unit_vector(0), 5, scope, strategy)?;
            assert_eq!(hits.len(), 1);
            assert_eq!(hits[0].id, staged);
            assert_eq!(hits[0].record.file_path, "src/a.rs");
            let without = SearchScope {
                include_staging: false,
                ..scope
            };
            assert!(db
                .search_scoped(&unit_vector(0), 5, without, strategy)?
                .is_empty());
        }
    }
    db.flush_to_disk()?;
    for scope in scopes {
        let hits = db.search_scoped(&unit_vector(0), 5, scope, AnnStrategy::Exact)?;
        assert_eq!(hits.len(), 1);
        assert_eq!(hits[0].id, staged);
    }
    Ok(())
}

#[test]
fn filters_leave_out_staged_rows_that_do_not_meet_them() -> Result<(), DbError> {
    let mut db = open_new()?;
    let staged = db.insert_staging(
        &unit_vector(0),
        &chunk_record_with_kind("src/a.rs", "Struct", 1),
    )?;
    let paths: Vec<String> = vec!["src/a.rs".into()];
    let other_paths: Vec<String> = vec!["src/b.rs".into()];
    let other_kinds: Vec<String> = vec!["Function".into()];
    let other_ids = [staged + 1];
    let scopes = [
        SearchScope {
            file_paths: Some(&other_paths),
            ..Default::default()
        },
        SearchScope {
            file_path_prefix: Some("src/ab"),
            ..Default::default()
        },
        SearchScope {
            file_paths: Some(&paths),
            kinds: Some(&other_kinds),
            ..Default::default()
        },
        SearchScope {
            file_paths: Some(&paths),
            candidate_ids: Some(&other_ids),
            ..Default::default()
        },
    ];
    for scope in scopes {
        assert!(db
            .search_scoped(&unit_vector(0), 5, scope, AnnStrategy::Exact)?
            .is_empty());
    }
    Ok(())
}

#[test]
fn refused_searches_are_refused_before_the_index_is_looked_at() -> Result<(), DbError> {
    let mut db = open_new()?;
    for index in 0..2_usize {
        db.insert_persistent(&unit_vector(index), &chunk_record("src/a.rs", 1))?;
    }
    let strategy = AnnStrategy::Ivf { probe_buckets: 1 };
    assert!(matches!(
        db.search_refusal(&unit_vector(0), 1, strategy),
        Some(DbError::IvfNotBuilt)
    ));
    db.build_ivf_index(1, 1)?;
    assert!(db.search_refusal(&unit_vector(0), 1, strategy).is_none());
    assert!(matches!(
        db.search_refusal(&unit_vector(0), 0, strategy),
        Some(DbError::InvalidSearchLimit)
    ));
    assert!(matches!(
        db.search_refusal(&unit_vector(0)[1..], 0, strategy),
        Some(DbError::InvalidQuery { .. })
    ));
    Ok(())
}

#[test]
fn a_probe_finds_hits_of_the_exact_search_only() -> Result<(), DbError> {
    let mut db = open_new()?;
    for index in 0..12_usize {
        let row = vector(&[index as f32, 12.0 - index as f32, 1.0]);
        db.insert_persistent(&row, &chunk_record("src/a.rs", index as u64))?;
    }
    db.build_ivf_index(4, 2)?;
    db.insert_staging(&vector(&[9.0, 9.0]), &chunk_record("src/c.rs", 1))?;
    let query = vector(&[0.5, 0.25, 2.0]);
    let exact: Vec<(u32, u32, u64)> = db
        .search(&query, db.len())?
        .iter()
        .map(|hit| (hit.id, hit.score, hit.record.start_line))
        .collect();
    assert_eq!(exact.len(), 13);
    for probe_buckets in 0..5_usize {
        let hits = db.search_scoped(
            &query,
            db.len(),
            SearchScope::all(),
            AnnStrategy::Ivf { probe_buckets },
        )?;
        for hit in &hits {
            assert!(exact.contains(&(hit.id, hit.score, hit.record.start_line)));
        }
        assert_eq!(hits.len() == exact.len(), probe_buckets >= 4);
    }
    Ok(())
}

#[test]
fn probing_every_bucket_equals_exact_search() -> Result<(), DbError> {
    let mut db = open_new()?;
    for index in 0..12_usize {
        let row = vector(&[index as f32, 12.0 - index as f32, 1.0]);
        db.insert_persistent(&row, &chunk_record("src/a.rs", index as u64))?;
    }
    db.build_ivf_index(4, 2)?;
    db.insert_persistent(&vector(&[3.0, 3.0]), &chunk_record("src/b.rs", 1))?;
    db.insert_staging(&vector(&[9.0, 9.0]), &chunk_record("src/c.rs", 1))?;
    db.tombstone(2)?;
    let query = vector(&[0.5, 0.25, 2.0]);
    let exact: Vec<(u32, u32)> = db
        .search(&query, 20)?
        .iter()
        .map(|hit| (hit.id, hit.score))
        .collect();
    assert_eq!(exact.len(), 13);
    let probed: Vec<(u32, u32)> = db
        .search_scoped(
            &query,
            20,
            SearchScope::all(),
            AnnStrategy::Ivf { probe_buckets: 4 },
        )?
        .iter()
        .map(|hit| (hit.id, hit.score))
        .collect();
    assert_eq!(exact, probed);
    let some = db.search_scoped(
        &query,
        20,
        SearchScope::all(),
        AnnStrategy::Ivf { probe_buckets: 0 },
    )?;
    assert!(!some.is_empty() && some.len() < 13);
    Ok(())
}

#[test]
fn search_refuses_a_torn_vector_file() -> Result<(), DbError> {
    let mut files = Files::default();
    files.vectors = vec![1, 2, 3];
    let db = Rek0nDb::open(F32Math, files.image())?;
    let err = db.search(&unit_vector(0), 1).expect_err("torn file");
    assert!(matches!(err, DbError::InvalidVectorBytes { len: 3 }));
    Ok(())
}

#[test]
fn synced_files_give_the_same_hits() -> Result<(), DbError> {
    let mut files = Files::default();
    let mut db = open_new()?;
    for index in 0..6_usize {
        db.insert_persistent(&unit_vector(index), &chunk_record("src/a.rs", index as u64))?;
    }
    db.build_ivf_index(3, 1)?;
    files.sync(&mut db);
    assert_eq!(
        files.centroids.as_ref().map(|bytes| bytes.len()),
        Some(3 * EMBEDDING_DIM * 4)
    );
    let reopened = Rek0nDb::open(F32Math, files.image())?;
    assert!(reopened.has_ivf_index());
    let strategy = AnnStrategy::Ivf { probe_buckets: 3 };
    let before: Vec<u32> = db
        .search_scoped(&unit_vector(5), 6, SearchScope::all(), strategy)?
        .iter()
        .map(|hit| hit.id)
        .collect();
    let after: Vec<u32> = reopened
        .search_scoped(&unit_vector(5), 6, SearchScope::all(), strategy)?
        .iter()
        .map(|hit| hit.id)
        .collect();
    assert_eq!(before, after);
    assert_eq!(before[0], 5);
    Ok(())
}
