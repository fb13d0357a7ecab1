use rek0n_db::manifest::{check_manifest_len, Entry, IvfManifest, Manifest};
use rek0n_db::testing::{chunk_record, unit_vector};
use rek0n_db::{
    ByteOrder, CompactionPolicy, DbError, DiskImage, DiskOp, Rek0nDb, VectorMath, EMBEDDING_DIM,
    MAX_MANIFEST_BYTES, MAX_RECORD_TEXT_BYTES, MAX_STAGING_VECTORS,
};

struct F32Math;

impl VectorMath for F32Math {
    fn dot(&self, a: &[u32], b: &[u32]) -> u32 {
        let mut sum = 0.0_f32;
        for (x, y) in a.iter().zip(b.iter()) {
            sum += f32::from_bits(*x) * f32::from_bits(*y);
        }
        sum.to_bits()
    }

    fn mean(&self, values: &[u32]) -> u32 {
        let mut sum = 0.0_f32;
        for value in values {
            sum += f32::from_bits(*value);
        }
        (sum * (1.0 / values.len() as f32)).to_bits()
    }

    fn ratio(&self, dead: usize, allocated: usize) -> u32 {
        (dead as f32 / allocated as f32).to_bits()
    }
}

#[derive(Default)]
struct Files {
    vectors: Vec<u8>,
    manifest: Option<Manifest>,
    centroids: Option<Vec<u8>>,
}

impl Files {
    fn sync(&mut self, db: &mut Rek0nDb<F32Math>) {
        for op in db.take_ops() {
            match op {
                DiskOp::AppendVectors(bytes) => self.vectors.extend_from_slice(&bytes),
                DiskOp::ReplaceVectors(bytes) => self.vectors = bytes,
                DiskOp::WriteManifest(manifest) => self.manifest = Some(manifest),
                DiskOp::WriteCentroids(bytes) => self.centroids = Some(bytes),
                DiskOp::RemoveCentroids => self.centroids = None,
            }
        }
    }

    fn image(self) -> DiskImage {
        DiskImage {
            order: ByteOrder::Little,
            manifest: self.manifest,
            vectors: self.vectors,
            centroids: self.centroids,
        }
    }
}

fn open_new() -> Result<Rek0nDb<F32Math>, DbError> {
    Rek0nDb::open(F32Math, Files::default().image())
}

#[test]
fn rejects_invalid_compaction_policy() {
    let err = CompactionPolicy {
        dead_ratio_threshold: 1.5_f32.to_bits(),
    }
    .validate()
    .expect_err("invalid threshold");
    assert!(matches!(err, DbError::InvalidCompactionPolicy { .. }));
}

#[test]
fn rejects_oversized_record_text() -> Result<(), DbError> {
    let mut db = open_new()?;
    let mut record = chunk_record("src/a.rs", 1);
    record.text = "x".repeat(MAX_RECORD_TEXT_BYTES + 1);

    let err = db
        .insert_persistent(&unit_vector(0), &record)
        .expect_err("oversized text");
    assert!(matches!(err, DbError::RecordTextTooLarge { .. }));
    Ok(())
}

#[test]
fn read_only_rejects_clear_staging() -> Result<(), DbError> {
    let mut files = Files::default();
    {
        let mut db = open_new()?;
        db.insert_staging(&unit_vector(0), &chunk_record("src/a.rs", 1))?;
        files.sync(&mut db);
    }

    let mut db = Rek0nDb::open_read_only(F32Math, files.image())?;
    let err = db.clear_staging().expect_err("read-only");
    assert!(matches!(err, DbError::ReadOnly));
    Ok(())
}

#[test]
fn get_returns_live_vector() -> Result<(), DbError> {
    let mut db = open_new()?;
    let vector = unit_vector(3);
    let id = db.insert_persistent(&vector, &chunk_record("src/a.rs", 1))?;

    let point = db.get(id)?;
    assert_eq!(point.id, id);
    assert_eq!(point.vector.len(), EMBEDDING_DIM);
    assert_eq!(point.record.file_path, "src/a.rs");
    assert_eq!(point.vector, vector);
    Ok(())
}

#[test]
fn tombstone_single_id() -> Result<(), DbError> {
    let mut db = open_new()?;
    let id = db.insert_persistent(&unit_vector(0), &chunk_record("src/a.rs", 1))?;

    assert!(db.tombstone(id)?);
    assert_eq!(db.live_persistent_count(), 0);
    Ok(())
}

#[test]
fn rejects_staging_capacity_exceeded() -> Result<(), DbError> {
    let mut db = open_new()?;
    for index in 0..MAX_STAGING_VECTORS {
        db.insert_staging(
            &unit_vector(index),
            &chunk_record("src/a.rs", index as u64),
        )?;
    }

    let err = db
        .insert_staging(
            &unit_vector(MAX_STAGING_VECTORS),
            &chunk_record("src/a.rs", MAX_STAGING_VECTORS as u64),
        )
        .expect_err("staging cap");
    assert!(matches!(
        err,
        DbError::StagingCapacityExceeded { count, max }
        if count == MAX_STAGING_VECTORS + 1 && max == MAX_STAGING_VECTORS
    ));
    Ok(())
}

#[test]
fn corrupt_vector_bytes_fail_open() {
    let mut files = Files::default();
    let mut db = open_new().expect("open");
    db.insert_persistent(&unit_vector(0), &chunk_record("src/a.rs", 1))
        .expect("insert");
    files.sync(&mut db);
    drop(db);

    files.vectors = b"bad".to_vec();

    let err = Rek0nDb::open(F32Math, files.image());
    assert!(matches!(err, Err(DbError::CorruptVectorOffset { .. })));
}

#[test]
fn compaction_threshold_is_a_ratio() {
    for good in [0.0_f32, -0.0, 0.25, 1.0] {
        let policy = CompactionPolicy {
            dead_ratio_threshold: good.to_bits(),
        };
        assert_eq!(policy.validate().expect("ratio"), policy);
    }
    for bad in [-0.1_f32, 1.1, f32::NAN, f32::INFINITY, f32::NEG_INFINITY] {
        let policy = CompactionPolicy {
            dead_ratio_threshold: bad.to_bits(),
        };
        assert!(matches!(
            policy.validate(),
            Err(DbError::InvalidCompactionPolicy { threshold }) if threshold == bad.to_bits()
        ));
    }
}

#[test]
fn record_text_limit_counts_bytes() -> Result<(), DbError> {
    let mut db = open_new()?;
    let mut record = chunk_record("src/a.rs", 1);
    record.text = "é".repeat(MAX_RECORD_TEXT_BYTES / 2);
    db.insert_staging(&unit_vector(0), &record)?;
    record.text.push('x');
    let err = db.insert_staging(&unit_vector(0), &record).expect_err("too long");
    assert!(matches!(
        err,
        DbError::RecordTextTooLarge { len, max }
        if len == MAX_RECORD_TEXT_BYTES + 1 && max == MAX_RECORD_TEXT_BYTES
    ));
    assert_eq!(db.staging_count(), 1);
    Ok(())
}

#[test]
fn width_changes_only_while_empty() -> Result<(), DbError> {
    let mut db = open_new()?.with_dim(2)?;
    assert_eq!(db.dim(), 2);
    let id = db.insert_persistent(&[1, 2], &chunk_record("src/a.rs", 1))?;
    assert_eq!(db.get(id)?.vector, vec![1, 2]);
    let db = db.with_dim(2)?;
    assert!(matches!(
        db.with_dim(3),
        Err(DbError::DimensionChangeOnNonEmptyDb)
    ));
    assert!(matches!(
        open_new()?.with_dim(0),
        Err(DbError::InvalidDimension { expected: EMBEDDING_DIM, got: 0 })
    ));
    assert!(matches!(
        open_new()?.with_compaction_policy(CompactionPolicy {
            dead_ratio_threshold: 2.0_f32.to_bits()
        }),
        Err(DbError::InvalidCompactionPolicy { .. })
    ));
    Ok(())
}

/// A manifest of a store with rows of width one at the given offsets.
fn manifest(rows: &[(&str, u64)]) -> Manifest {
    let mut manifest = Manifest::default();
    manifest.dim = 1;
    manifest.next_id = 100;
    for (key, offset) in rows {
        manifest.records.push(Entry {
            key: key.to_string(),
            value: chunk_record("src/a.rs", *offset),
        });
        manifest.offsets.push(Entry {
            key: key.to_string(),
            value: *offset,
        });
    }
    manifest
}

fn open_manifest(manifest: Manifest, len: usize) -> Result<Rek0nDb<F32Math>, DbError> {
    let mut files = Files::default();
    files.manifest = Some(manifest);
    files.vectors = vec![0; len];
    Rek0nDb::open(F32Math, files.image())
}

#[test]
fn open_checks_the_manifest() -> Result<(), DbError> {
    let db = open_manifest(manifest(&[("7", 0), ("+8", 4)]), 8)?;
    assert_eq!(db.len(), 2);
    assert_eq!(db.get(8)?.record.start_line, 4);

    let mut version = manifest(&[]);
    version.version = 2;
    assert!(matches!(
        open_manifest(version, 0),
        Err(DbError::UnsupportedManifestVersion { got: 2, expected: 1 })
    ));

    let mut flat = manifest(&[]);
    flat.dim = 0;
    assert!(matches!(
        open_manifest(flat, 0),
        Err(DbError::InvalidDimension { expected: 1, got: 0 })
    ));

    let mut mismatch = manifest(&[("1", 0)]);
    mismatch.offsets.clear();
    assert!(matches!(
        open_manifest(mismatch, 4),
        Err(DbError::CorruptManifestKeyMismatch)
    ));

    let mut dead = manifest(&[("1", 0)]);
    dead.tombstones.push(2);
    assert!(matches!(
        open_manifest(dead, 4),
        Err(DbError::CorruptManifestTombstone { id: 2 })
    ));

    assert!(matches!(
        open_manifest(manifest(&[("1", 0), ("2", 0)]), 4),
        Err(DbError::DuplicateVectorOffset { offset: 0, first, second }) if first != second
    ));
    assert!(matches!(
        open_manifest(manifest(&[("1", 1)]), 4),
        Err(DbError::CorruptVectorOffset { id: 1 })
    ));
    assert!(matches!(
        open_manifest(manifest(&[("1", u64::MAX)]), 4),
        Err(DbError::CorruptVectorOffset { id: 1 })
    ));
    for bad in ["", "x", "-1", "4294967296", "1 "] {
        assert!(matches!(
            open_manifest(manifest(&[(bad, 0)]), 4),
            Err(DbError::InvalidManifestId { value }) if value == bad
        ));
    }

    let mut policy = manifest(&[]);
    policy.compaction.dead_ratio_threshold = 3.0_f32.to_bits();
    assert!(matches!(
        open_manifest(policy, 0),
        Err(DbError::InvalidCompactionPolicy { .. })
    ));
    Ok(())
}

#[test]
fn unreadable_centroids_leave_the_store_without_an_index() -> Result<(), DbError> {
    for bytes in [None, Some(vec![0; 7]), Some(vec![0; 8])] {
        let mut files = Files::default();
        let mut stored = manifest(&[("1", 0)]);
        stored.ivf = Some(IvfManifest {
            num_buckets: 2,
            probe_buckets: 1,
            assignments: vec![
                Entry {
                    key: "1".to_string(),
                    value: 0,
                },
                Entry {
                    key: "no id".to_string(),
                    value: 1,
                },
            ],
        });
        files.manifest = Some(stored);
        files.vectors = vec![0; 4];
        let whole = bytes.as_ref().map(|bytes| bytes.len()) == Some(8);
        files.centroids = bytes;
        let mut db = Rek0nDb::open(F32Math, files.image())?;
        assert_eq!(db.has_ivf_index(), whole);
        assert_eq!(db.len(), 1);
        db.build_ivf_index(1, 1)?;
        assert!(db.has_ivf_index());
    }
    Ok(())
}

#[test]
fn manifest_length_is_bounded() {
    assert!(check_manifest_len(MAX_MANIFEST_BYTES).is_ok());
    assert!(matches!(
        check_manifest_len(MAX_MANIFEST_BYTES + 1),
        Err(DbError::ManifestTooLarge { len, max })
        if len == MAX_MANIFEST_BYTES + 1 && max == MAX_MANIFEST_BYTES
    ));
}

#[test]
fn missing_rows_are_told_apart() -> Result<(), DbError> {
    let mut stored = manifest(&[("1", 0)]);
    stored.tombstones.clear();
    let db = open_manifest(stored, 5)?;
    assert!(matches!(db.get(1), Err(DbError::MissingOffset { id: 1 })));
    assert!(matches!(db.get(2), Err(DbError::MissingMetadata { id: 2 })));
    Ok(())
}

#[test]
fn torn_vector_file_stops_compaction() -> Result<(), DbError> {
    let mut db = open_manifest(manifest(&[("1", 0)]), 5)?;
    assert!(matches!(
        db.compact(),
        Err(DbError::InvalidVectorBytes { len: 5 })
    ));
    assert!(matches!(
        db.build_ivf_index(1, 1),
        Err(DbError::InvalidVectorBytes { len: 5 })
    ));
    Ok(())
}

#[test]
fn ids_run_out() -> Result<(), DbError> {
    let mut stored = manifest(&[]);
    stored.next_id = u32::MAX - 1;
    let mut db = open_manifest(stored, 0)?;
    assert_eq!(
        db.insert_persistent(&[1], &chunk_record("src/a.rs", 1))?,
        u32::MAX - 1
    );
    assert!(matches!(
        db.insert_persistent(&[1], &chunk_record("src/a.rs", 2)),
        Err(DbError::IdExhausted)
    ));
    assert!(matches!(
        db.insert_staging(&[1], &chunk_record("src/a.rs", 2)),
        Err(DbError::IdExhausted)
    ));
    assert_eq!(db.len(), 1);
    Ok(())
}

#[test]
fn posting_of_an_unknown_row_stops_a_deletion() -> Result<(), DbError> {
    let mut stored = manifest(&[("1", 0)]);
    stored.postings.insert(9, &chunk_record("src/a.rs", 1));
    let mut db = open_manifest(stored, 4)?;
    assert!(matches!(
        db.delete_by_file_path("src/a.rs"),
        Err(DbError::MissingMetadata { id: 9 })
    ));
    Ok(())
}

#[test]
fn staged_metadata_key_is_taken_apart() -> Result<(), DbError> {
    let mut db = open_new()?;
    let id = db.insert_staging_metadata(&unit_vector(0), "C:\\src\\a.rs:10:20")?;
    let record = db.get(id)?.record;
    assert_eq!(record.file_path, "C:\\src\\a.rs");
    assert_eq!((record.start_line, record.end_line), (10, 20));
    assert_eq!(record.kind, "Unknown");
    assert_eq!(record.name, None);
    assert_eq!(record.text, "");
    assert_eq!(record.metadata_id(), "C:\\src\\a.rs:10:20");
    assert!(matches!(
        db.insert_staging_metadata(&[0], "src/a.rs:1:2"),
        Err(DbError::InvalidDimension { .. })
    ));
    Ok(())
}
