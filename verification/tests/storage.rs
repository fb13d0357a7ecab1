use rek0n_db::manifest::Manifest;
use rek0n_db::testing::{chunk_record, unit_vector};
use rek0n_db::{
    opening_ops, ByteOrder, CompactionPolicy, DbError, DiskImage, DiskOp, Rek0nDb, VectorMath,
    EMBEDDING_DIM,
};

struct F32Math;

impl VectorMath for F32Math {
    fn dot(&self, a: &[u32], b: &[u32]) -> u32 {
        let mut sum = 0.0_f32;
        for (x, y) in a.iter().zip(b.iter()) {
            sum += f32::from_bits(*x) * f32::from_bits(*y);
        }
        sum.to_bits()
    }

    fn mean(&self, values: &[u32]) -> u32 {
        let mut sum = 0.0_f32;
        for value in values {
            sum += f32::from_bits(*value);
        }
        (sum * (1.0 / values.len() as f32)).to_bits()
    }

    fn ratio(&self, dead: usize, allocated: usize) -> u32 {
        (dead as f32 / allocated as f32).to_bits()
    }
}

#[derive(Default)]
struct Files {
    vectors: Vec<u8>,
    manifest: Option<Manifest>,
    centroids: Option<Vec<u8>>,
}

impl Files {
    fn sync(&mut self, db: &mut Rek0nDb<F32Math>) {
        for op in db.take_ops() {
            match op {
                DiskOp::AppendVectors(bytes) => self.vectors.extend_from_slice(&bytes),
                DiskOp::ReplaceVectors(bytes) => self.vectors = bytes,
                DiskOp::WriteManifest(manifest) => self.manifest = Some(manifest),
                DiskOp::WriteCentroids(bytes) => self.centroids = Some(bytes),
                DiskOp::RemoveCentroids => self.centroids = None,
            }
        }
    }

    fn image(self) -> DiskImage {
        DiskImage {
            order: ByteOrder::Little,
            manifest: self.manifest,
            vectors: self.vectors,
            centroids: self.centroids,
        }
    }
}

fn open_new() -> Result<Rek0nDb<F32Math>, DbError> {
    Rek0nDb::open(F32Math, Files::default().image())
}

#[test]
fn open_creates_empty_database() {
    let ops = opening_ops(&None);
    let db = open_new().expect("open");
    assert!(db.is_empty());
    assert_eq!(db.dim(), EMBEDDING_DIM);
    assert_eq!(ops.len(), 1);
    assert!(matches!(ops[0], DiskOp::WriteManifest(_)));
}

#[test]
fn indexes_searches_deletes_replaces_and_reopens() -> Result<(), DbError> {
    let mut files = Files::default();
    let mut db = open_new()?;

    assert!(db.is_empty());

    let auth_a = unit_vector(0);
    let auth_b = unit_vector(1);
    let models = unit_vector(2);

    db.insert_persistent(&auth_a, &chunk_record("src/auth.rs", 10))?;
    db.insert_persistent(&auth_b, &chunk_record("src/auth.rs", 20))?;
    db.insert_persistent(&models, &chunk_record("src/models.rs", 1))?;

    assert_eq!(db.live_persistent_count(), 3);

    let hits = db.search(&auth_a, 2)?;
    assert_eq!(hits.len(), 2);
    assert_eq!(hits[0].record.file_path, "src/auth.rs");
    assert!((f32::from_bits(hits[0].score) - 1.0).abs() < f32::EPSILON);

    let removed = db.delete_by_file_path("src/auth.rs")?;
    assert_eq!(removed, 2);
    assert_eq!(db.len(), 1);

    let hits = db.search(&models, 1)?;
    assert_eq!(hits.len(), 1);
    assert_eq!(hits[0].record.file_path, "src/models.rs");

    db.replace_file(
        "src/auth.rs",
        &[(&unit_vector(40), &chunk_record("src/auth.rs", 40))],
    )?;
    assert_eq!(db.live_persistent_count(), 2);

    let hits = db.search(&unit_vector(40), 1)?;
    assert_eq!(hits.len(), 1);
    assert_eq!(hits[0].record.start_line, 40);

    files.sync(&mut db);
    let reopened = Rek0nDb::open(F32Math, files.image())?;
    assert_eq!(reopened.live_persistent_count(), 2);
    let hits = reopened.search(&unit_vector(40), 1)?;
    assert_eq!(hits[0].record.start_line, 40);

    Ok(())
}

#[test]
fn staging_flush_survives_reopen() -> Result<(), DbError> {
    let mut files = Files::default();
    let mut db = open_new()?;

    let v0 = unit_vector(0);
    let v1 = unit_vector(1);
    db.insert_staging(&v0, &chunk_record("src/a.rs", 1))?;
    db.insert_staging(&v1, &chunk_record("src/b.rs", 2))?;

    let hits = db.search(&v0, 1)?;
    assert_eq!(hits.len(), 1);
    assert!((f32::from_bits(hits[0].score) - 1.0).abs() < f32::EPSILON);

    db.flush_to_disk()?;
    assert_eq!(db.staging_count(), 0);
    assert_eq!(db.live_persistent_count(), 2);

    files.sync(&mut db);
    let reopened = Rek0nDb::open(F32Math, files.image())?;
    let hits = reopened.search(&v1, 1)?;
    assert_eq!(hits[0].record.file_path, "src/b.rs");

    Ok(())
}

#[test]
fn compact_reclaims_tombstoned_space() -> Result<(), DbError> {
    let mut db = open_new()?.with_compaction_policy(CompactionPolicy {
        dead_ratio_threshold: 0.0_f32.to_bits(),
    })?;

    db.insert_persistent(&unit_vector(0), &chunk_record("src/a.rs", 1))?;
    db.insert_persistent(&unit_vector(1), &chunk_record("src/b.rs", 1))?;
    db.delete_by_file_path("src/a.rs")?;

    let stats = db.compact()?;
    assert_eq!(stats.vectors_after, 1);
    assert_eq!(db.tombstone_count(), 0);
    assert_eq!(db.live_persistent_count(), 1);

    Ok(())
}

#[test]
fn reset_clears_persistent_and_staging_state() -> Result<(), DbError> {
    let mut files = Files::default();
    let mut db = open_new()?;

    db.insert_staging(&unit_vector(0), &chunk_record("src/a.rs", 1))?;
    db.insert_persistent(&unit_vector(1), &chunk_record("src/b.rs", 2))?;
    db.reset()?;

    assert!(db.is_empty());
    assert_eq!(db.staging_count(), 0);
    assert_eq!(db.tombstone_count(), 0);

    files.sync(&mut db);
    let reopened = Rek0nDb::open(F32Math, files.image())?;
    assert!(reopened.is_empty());

    Ok(())
}

#[test]
fn rejects_mismatched_vector_dimension_on_insert() {
    let mut db = open_new().expect("open");
    let err = db
        .insert_persistent(
            &vec![0.0_f32.to_bits(); EMBEDDING_DIM - 1],
            &chunk_record("src/a.rs", 1),
        )
        .expect_err("bad dim");

    assert!(matches!(
        err,
        DbError::InvalidDimension { expected, got }
        if expected == EMBEDDING_DIM && got == EMBEDDING_DIM - 1
    ));
}

#[test]
fn delete_by_file_path_removes_staging_rows() -> Result<(), DbError> {
    let mut db = open_new()?;

    db.insert_staging(&unit_vector(0), &chunk_record("src/a.rs", 1))?;
    db.insert_staging(&unit_vector(1), &chunk_record("src/b.rs", 2))?;

    let removed = db.delete_by_file_path("src/a.rs")?;
    assert_eq!(removed, 1);
    assert_eq!(db.staging_count(), 1);

    let hits = db.search(&unit_vector(1), 1)?;
    assert_eq!(hits.len(), 1);
    assert_eq!(hits[0].record.file_path, "src/b.rs");

    Ok(())
}

/// Names of the queued changes, in order.
fn queued(db: &mut Rek0nDb<F32Math>) -> Vec<&'static str> {
    db.take_ops()
        .iter()
        .map(|op| match op {
            DiskOp::AppendVectors(_) => "append",
            DiskOp::ReplaceVectors(_) => "replace",
            DiskOp::WriteManifest(_) => "manifest",
            DiskOp::WriteCentroids(_) => "centroids",
            DiskOp::RemoveCentroids => "no centroids",
        })
        .collect()
}

#[test]
fn rows_are_written_before_the_manifest_that_names_them() -> Result<(), DbError> {
    let mut db = open_new()?;
    assert!(queued(&mut db).is_empty());
    db.insert_persistent(&unit_vector(0), &chunk_record("src/a.rs", 1))?;
    assert_eq!(queued(&mut db), vec!["append", "manifest"]);
    db.insert_staging(&unit_vector(1), &chunk_record("src/a.rs", 2))?;
    assert!(queued(&mut db).is_empty());
    db.flush_to_disk()?;
    assert_eq!(queued(&mut db), vec!["append", "manifest"]);
    db.flush_to_disk()?;
    assert!(queued(&mut db).is_empty());
    db.reset()?;
    assert_eq!(queued(&mut db), vec!["replace", "manifest", "no centroids"]);
    Ok(())
}

#[test]
fn compaction_writes_the_manifest_before_the_index() -> Result<(), DbError> {
    let mut db = open_new()?;
    for line in 0..8 {
        db.insert_persistent(&unit_vector(line as usize), &chunk_record("src/a.rs", line))?;
    }
    db.build_ivf_index(2, 1)?;
    queued(&mut db);
    db.compact()?;
    assert_eq!(
        queued(&mut db),
        vec!["replace", "manifest", "centroids", "manifest"]
    );
    assert!(db.has_ivf_index());
    Ok(())
}

#[test]
fn compaction_without_an_index_stays_without_one() -> Result<(), DbError> {
    let mut db = open_new()?;
    db.insert_persistent(&unit_vector(0), &chunk_record("src/a.rs", 1))?;
    queued(&mut db);
    let stats = db.compact()?;
    assert_eq!((stats.vectors_before, stats.vectors_after), (1, 1));
    assert_eq!(stats.bytes_reclaimed, 0);
    assert!(!db.has_ivf_index());
    assert_eq!(
        queued(&mut db),
        vec!["replace", "manifest", "no centroids", "manifest"]
    );
    Ok(())
}

#[test]
fn compaction_keeps_rows_and_bucket_settings() -> Result<(), DbError> {
    let mut files = Files::default();
    let mut db = open_new()?.with_compaction_policy(CompactionPolicy {
        dead_ratio_threshold: 1.0_f32.to_bits(),
    })?;
    for line in 0..6 {
        db.insert_persistent(&unit_vector(line as usize), &chunk_record("src/a.rs", line))?;
    }
    db.build_ivf_index(2, 1)?;
    db.tombstone(1)?;
    db.tombstone(4)?;
    assert_eq!(db.tombstone_count(), 2);
    assert_eq!(f32::from_bits(db.dead_ratio()), 2.0 / 6.0);
    let stats = db.compact()?;
    assert_eq!((stats.vectors_before, stats.vectors_after), (6, 4));
    assert_eq!(stats.bytes_reclaimed, 2 * 4 * EMBEDDING_DIM as u64);
    assert_eq!(db.tombstone_count(), 0);
    for id in [0_u32, 2, 3, 5] {
        let point = db.get(id)?;
        assert_eq!(point.vector, unit_vector(id as usize));
        assert_eq!(point.record.start_line, id as u64);
    }
    for id in [1_u32, 4] {
        assert!(matches!(db.get(id), Err(DbError::MissingMetadata { id: missing }) if missing == id));
    }
    files.sync(&mut db);
    assert_eq!(files.vectors.len(), 4 * 4 * EMBEDDING_DIM);
    let manifest = files.manifest.as_ref().expect("manifest");
    let ivf = manifest.ivf.as_ref().expect("index");
    assert_eq!((ivf.num_buckets, ivf.probe_buckets), (2, 1));
    assert_eq!(ivf.assignments.len(), 4);
    Ok(())
}

#[test]
fn lazy_compaction_waits_for_the_threshold() -> Result<(), DbError> {
    let mut db = open_new()?;
    assert_eq!(f32::from_bits(db.dead_ratio()), 0.0);
    for line in 0..8 {
        db.insert_persistent(&unit_vector(line as usize), &chunk_record("src/a.rs", line))?;
    }
    assert!(db.maybe_compact()?.is_none());
    assert!(db.tombstone(0)?);
    assert_eq!(db.tombstone_count(), 1);
    assert!(!db.tombstone(0)?);
    assert!(db.tombstone(1)?);
    assert_eq!(db.tombstone_count(), 0);
    assert_eq!(db.live_persistent_count(), 6);
    assert_eq!(db.get(7)?.vector, unit_vector(7));
    Ok(())
}

#[test]
fn delete_then_reopen_keeps_the_other_files() -> Result<(), DbError> {
    let mut files = Files::default();
    let mut db = open_new()?;
    for line in 0..9 {
        let path = if line % 9 == 4 { "src/b.rs" } else { "src/a.rs" };
        db.insert_persistent(&unit_vector(line as usize), &chunk_record(path, line))?;
    }
    assert_eq!(db.delete_by_file_path("src/b.rs")?, 1);
    assert_eq!(db.delete_by_file_path("src/b.rs")?, 0);
    assert_eq!(db.delete_by_file_path("src/none.rs")?, 0);
    files.sync(&mut db);
    let reopened = Rek0nDb::open(F32Math, files.image())?;
    assert_eq!(reopened.len(), 8);
    assert_eq!(reopened.tombstone_count(), 1);
    assert!(matches!(reopened.get(4), Err(DbError::MissingMetadata { id: 4 })));
    assert_eq!(reopened.get(8)?.vector, unit_vector(8));
    Ok(())
}

#[test]
fn opening_writes_the_manifest_of_a_new_store_first() -> Result<(), DbError> {
    let ops = opening_ops(&None);
    assert_eq!(ops.len(), 1);
    let mut files = Files::default();
    for op in ops {
        if let DiskOp::WriteManifest(manifest) = op {
            assert_eq!(manifest.dim, EMBEDDING_DIM);
            assert!(manifest.records.is_empty());
            files.manifest = Some(manifest);
        }
    }
    assert!(opening_ops(&files.manifest).is_empty());
    let db = Rek0nDb::open(F32Math, files.image())?;
    assert!(db.is_empty());
    Ok(())
}

#[test]
fn words_are_laid_out_in_the_order_of_the_host() -> Result<(), DbError> {
    let open = |files: Files| {
        Rek0nDb::open(
            F32Math,
            DiskImage {
                order: ByteOrder::Big,
                ..files.image()
            },
        )
    };
    let mut files = Files::default();
    let mut db = open(Files::default())?.with_dim(2)?;
    let row = vec![1.0_f32.to_bits(), (-2.0_f32).to_bits()];
    db.insert_persistent(&row, &chunk_record("src/a.rs", 1))?;
    db.insert_persistent(&row, &chunk_record("src/b.rs", 2))?;
    db.tombstone(0)?;
    db.compact()?;
    files.sync(&mut db);
    assert_eq!(files.vectors[..4], 1.0_f32.to_be_bytes());
    assert_eq!(files.vectors[4..], (-2.0_f32).to_be_bytes());
    let reopened = open(files)?;
    assert_eq!(reopened.get(1)?.vector, row);
    Ok(())
}

#[test]
fn emptied_store_takes_another_width() -> Result<(), DbError> {
    let mut db = open_new()?
        .with_dim(2)?
        .with_compaction_policy(CompactionPolicy {
            dead_ratio_threshold: 1.0_f32.to_bits(),
        })?;
    let short = vec![1.0_f32.to_bits(); 2];
    let long = vec![2.0_f32.to_bits(); 3];
    db.insert_persistent(&short, &chunk_record("src/a.rs", 1))?;
    db.insert_staging(&short, &chunk_record("src/a.rs", 2))?;
    assert_eq!(db.delete_by_file_path("src/a.rs")?, 2);
    assert_eq!(db.tombstone_count(), 1);
    let mut db = db.with_dim(3)?;
    assert!(db.is_empty());
    let id = db.insert_persistent(&long, &chunk_record("src/a.rs", 3))?;
    assert_eq!(id, 2);
    assert_eq!(db.get(id)?.vector, long);
    assert!(matches!(db.get(0), Err(DbError::MissingMetadata { id: 0 })));
    assert!(matches!(
        db.insert_staging(&short, &chunk_record("src/a.rs", 4)),
        Err(DbError::InvalidDimension { expected: 3, got: 2 })
    ));
    Ok(())
}

#[test]
fn replacement_needs_an_index_only_where_a_row_joins() -> Result<(), DbError> {
    let mut db = open_new()?
        .with_dim(2)?
        .with_compaction_policy(CompactionPolicy {
            dead_ratio_threshold: 1.0_f32.to_bits(),
        })?;
    let short = vec![1.0_f32.to_bits(); 2];
    let long = vec![2.0_f32.to_bits(); 3];
    db.insert_persistent(&short, &chunk_record("src/a.rs", 1))?;
    db.build_ivf_index(1, 1)?;
    db.insert_staging(&short, &chunk_record("src/a.rs", 2))?;
    db.delete_by_file_path("src/a.rs")?;
    let mut db = db.with_dim(3)?;
    assert!(db.has_ivf_index());
    assert!(!db.index_usable());
    let stray = chunk_record("src/b.rs", 3);
    assert!(!db.first_joins("src/a.rs", &[(&long[..], &stray)]));
    assert!(matches!(
        db.replace_file("src/a.rs", &[(&long[..], &stray)]),
        Err(DbError::FilePathMismatch { .. })
    ));
    let own = chunk_record("src/a.rs", 4);
    assert!(!db.first_joins("src/a.rs", &[(&short[..], &own)]));
    assert!(matches!(
        db.replace_file("src/a.rs", &[(&short[..], &own)]),
        Err(DbError::InvalidDimension { .. })
    ));
    assert!(db.first_joins("src/a.rs", &[(&long[..], &own)]));
    db.replace_file("src/a.rs", &[])?;
    db.compact()?;
    assert!(db.index_usable());
    db.replace_file("src/a.rs", &[(&long[..], &own)])?;
    assert_eq!(db.get(2)?.vector, long);
    let more = chunk_record("src/a.rs", 5);
    db.refill_file("src/a.rs", &[(&long[..], &more)])?;
    assert_eq!(db.get(3)?.record.start_line, 5);
    assert_eq!(db.len(), 2);
    Ok(())
}

#[test]
fn delete_counts_the_rows_of_both_tiers() -> Result<(), DbError> {
    let mut db = open_new()?;
    db.insert_persistent(&unit_vector(0), &chunk_record("src/a.rs", 1))?;
    db.insert_persistent(&unit_vector(1), &chunk_record("src/b.rs", 2))?;
    db.insert_staging(&unit_vector(2), &chunk_record("src/a.rs", 3))?;
    db.insert_staging(&unit_vector(3), &chunk_record("src/b.rs", 4))?;
    assert_eq!(db.delete_by_file_path("src/a.rs")?, 2);
    assert_eq!(db.len(), 2);
    assert!(db.get(0).is_err());
    assert_eq!(db.get(1)?.vector, unit_vector(1));
    assert!(db.get(2).is_err());
    assert_eq!(db.get(3)?.vector, unit_vector(3));
    assert_eq!(db.delete_by_file_path("src/a.rs")?, 0);
    assert_eq!(db.len(), 2);
    Ok(())
}

#[test]
fn flush_moves_every_staged_row() -> Result<(), DbError> {
    let mut db = open_new()?;
    db.insert_persistent(&unit_vector(0), &chunk_record("src/a.rs", 1))?;
    for line in 1..4_u64 {
        db.insert_staging(&unit_vector(line as usize), &chunk_record("src/b.rs", line))?;
    }
    db.flush_to_disk()?;
    assert_eq!((db.live_persistent_count(), db.staging_count()), (4, 0));
    for id in 0..4_u32 {
        assert_eq!(db.get(id)?.vector, unit_vector(id as usize));
    }
    db.take_ops();
    db.flush_to_disk()?;
    assert!(db.take_ops().is_empty());
    assert_eq!((db.live_persistent_count(), db.staging_count()), (4, 0));
    Ok(())
}

#[test]
fn insert_appends_exactly_its_row() -> Result<(), DbError> {
    let mut files = Files::default();
    let mut db = open_new()?;
    db.insert_persistent(&unit_vector(0), &chunk_record("src/a.rs", 1))?;
    db.insert_staging(&unit_vector(1), &chunk_record("src/b.rs", 2))?;
    files.sync(&mut db);
    let before = files.vectors.clone();
    let id = db.insert_persistent(&unit_vector(2), &chunk_record("src/c.rs", 3))?;
    files.sync(&mut db);
    assert_eq!(id, 2);
    assert_eq!(files.vectors[..before.len()], before[..]);
    let row: Vec<u8> = unit_vector(2)
        .iter()
        .flat_map(|word| word.to_le_bytes())
        .collect();
    assert_eq!(files.vectors[before.len()..], row[..]);
    assert_eq!((db.live_persistent_count(), db.staging_count()), (2, 1));
    Ok(())
}

#[test]
fn every_saving_call_survives_reopening() -> Result<(), DbError> {
    let mut files = Files::default();
    let mut db = open_new()?;
    for line in 0..9_u64 {
        let path = if line < 6 { "src/a.rs" } else { "src/b.rs" };
        db.insert_persistent(&unit_vector(line as usize), &chunk_record(path, line))?;
    }
    files.sync(&mut db);
    let mut db = Rek0nDb::open(F32Math, files.image())?;
    assert_eq!(db.len(), 9);

    let mut files = Files::default();
    for line in 0..9_u32 {
        assert_eq!(db.get(line)?.vector, unit_vector(line as usize));
    }
    db.tombstone(7)?;
    db.compact()?;
    assert_eq!(db.tombstone_count(), 0);
    let new = unit_vector(20);
    db.replace_file("src/b.rs", &[(&new, &chunk_record("src/b.rs", 20))])?;
    db.insert_staging(&unit_vector(21), &chunk_record("src/c.rs", 21))?;
    db.flush_to_disk()?;
    db.insert_staging(&unit_vector(22), &chunk_record("src/d.rs", 22))?;
    files.sync(&mut db);
    let reopened = Rek0nDb::open(F32Math, files.image())?;
    assert_eq!(reopened.dim(), db.dim());
    assert_eq!(reopened.compaction_policy(), db.compaction_policy());
    assert_eq!(reopened.tombstone_count(), db.tombstone_count());
    assert_eq!(reopened.live_persistent_count(), db.live_persistent_count());
    assert_eq!((reopened.len(), reopened.staging_count()), (8, 0));
    for id in 0..11_u32 {
        match db.get(id) {
            Ok(point) => assert_eq!(reopened.get(id)?, point),
            Err(_) => assert!(matches!(
                reopened.get(id),
                Err(DbError::MissingMetadata { .. })
            )),
        }
    }
    assert_eq!(reopened.get(9)?.vector, new);
    assert_eq!(reopened.get(10)?.vector, unit_vector(21));
    assert!(reopened.get(11).is_err());
    Ok(())
}

#[test]
fn replace_file_swaps_rows_under_new_ids() -> Result<(), DbError> {
    let mut db = open_new()?;
    db.insert_persistent(&unit_vector(0), &chunk_record("src/a.rs", 1))?;
    db.insert_persistent(&unit_vector(1), &chunk_record("src/b.rs", 2))?;
    db.insert_staging(&unit_vector(2), &chunk_record("src/a.rs", 3))?;
    let first = unit_vector(10);
    let second = unit_vector(11);
    db.replace_file(
        "src/a.rs",
        &[
            (&first, &chunk_record("src/a.rs", 10)),
            (&second, &chunk_record("src/a.rs", 11)),
        ],
    )?;
    assert_eq!(db.len(), 3);
    assert_eq!(db.staging_count(), 0);
    assert!(db.get(0).is_err());
    assert!(db.get(2).is_err());
    assert_eq!(db.get(1)?.record.file_path, "src/b.rs");
    assert_eq!(db.get(3)?.vector, first);
    assert_eq!(db.get(4)?.vector, second);
    Ok(())
}

#[test]
fn replace_file_refuses_rows_of_another_file() -> Result<(), DbError> {
    let mut db = open_new()?;
    db.insert_persistent(&unit_vector(0), &chunk_record("src/a.rs", 1))?;
    let row = unit_vector(1);
    let err = db
        .replace_file(
            "src/a.rs",
            &[
                (&row, &chunk_record("src/a.rs", 2)),
                (&row, &chunk_record("src/b.rs", 3)),
                (&row, &chunk_record("src/a.rs", 4)),
            ],
        )
        .expect_err("wrong file");
    assert!(matches!(
        err,
        DbError::FilePathMismatch { expected, got } if expected == "src/a.rs" && got == "src/b.rs"
    ));
    assert_eq!(db.len(), 1);
    assert_eq!(db.get(1)?.record.start_line, 2);
    Ok(())
}

#[test]
fn ids_are_never_used_twice() -> Result<(), DbError> {
    let mut db = open_new()?;
    let a = db.insert_staging(&unit_vector(0), &chunk_record("src/a.rs", 1))?;
    let b = db.insert_persistent(&unit_vector(1), &chunk_record("src/a.rs", 2))?;
    db.clear_staging()?;
    assert!(matches!(db.get(a), Err(DbError::MissingMetadata { .. })));
    let c = db.insert_staging(&unit_vector(2), &chunk_record("src/a.rs", 3))?;
    db.flush_to_disk()?;
    let d = db.insert_persistent(&unit_vector(3), &chunk_record("src/a.rs", 4))?;
    assert_eq!(vec![a, b, c, d], vec![0, 1, 2, 3]);
    assert_eq!(db.get(c)?.vector, unit_vector(2));
    Ok(())
}

#[test]
fn staged_rows_are_lost_without_a_flush() -> Result<(), DbError> {
    let mut files = Files::default();
    let mut db = open_new()?;
    db.insert_persistent(&unit_vector(0), &chunk_record("src/a.rs", 1))?;
    db.insert_staging(&unit_vector(1), &chunk_record("src/b.rs", 2))?;
    files.sync(&mut db);
    let reopened = Rek0nDb::open(F32Math, files.image())?;
    assert_eq!(reopened.len(), 1);
    assert!(reopened.get(1).is_err());
    Ok(())
}

#[test]
fn append_without_its_manifest_does_no_harm() -> Result<(), DbError> {
    let mut files = Files::default();
    let mut db = open_new()?;
    db.insert_persistent(&unit_vector(0), &chunk_record("src/a.rs", 1))?;
    files.sync(&mut db);
    db.insert_persistent(&unit_vector(1), &chunk_record("src/b.rs", 2))?;
    if let DiskOp::AppendVectors(bytes) = &db.take_ops()[0] {
        files.vectors.extend_from_slice(bytes);
    }
    let reopened = Rek0nDb::open(F32Math, files.image())?;
    assert_eq!(reopened.len(), 1);
    assert_eq!(reopened.get(0)?.vector, unit_vector(0));
    Ok(())
}

#[test]
fn rows_inserted_after_an_index_get_a_bucket() -> Result<(), DbError> {
    let mut files = Files::default();
    let mut db = open_new()?;
    for line in 0..4 {
        db.insert_persistent(&unit_vector(line as usize), &chunk_record("src/a.rs", line))?;
    }
    db.build_ivf_index(4, 1)?;
    db.insert_persistent(&unit_vector(2), &chunk_record("src/b.rs", 1))?;
    db.insert_staging(&unit_vector(3), &chunk_record("src/b.rs", 2))?;
    db.flush_to_disk()?;
    files.sync(&mut db);
    let manifest = files.manifest.as_ref().expect("manifest");
    let ivf = manifest.ivf.as_ref().expect("index");
    assert_eq!(ivf.assignments.len(), 6);
    let bucket = |id: &str| {
        ivf.assignments
            .iter()
            .find(|entry| entry.key == id)
            .map(|entry| entry.value)
    };
    assert_eq!(bucket("4"), bucket("2"));
    assert_eq!(bucket("5"), bucket("3"));
    Ok(())
}

#[test]
fn too_few_rows_give_the_index_up() -> Result<(), DbError> {
    let mut db = open_new()?;
    for line in 0..4 {
        db.insert_persistent(&unit_vector(line as usize), &chunk_record("src/a.rs", line))?;
    }
    db.build_ivf_index(2, 1)?;
    assert!(db.has_ivf_index());
    db.build_ivf_index(5, 1)?;
    assert!(!db.has_ivf_index());
    assert!(matches!(
        db.build_ivf_index(0, 1),
        Err(DbError::InvalidIvfBucketCount)
    ));
    Ok(())
}
