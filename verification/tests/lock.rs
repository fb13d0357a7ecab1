use std::time::Duration;

use rek0n_db::lock::{
    acquire_lock_step, decide_lock_step, is_lock_contended, matches_contention, LockReply,
    LockStep, LOCK_POLL_INTERVAL,
};
use rek0n_db::manifest::{Entry, Manifest};
use rek0n_db::testing::{chunk_record, unit_vector};
use rek0n_db::{
    ByteOrder, DbError, DbLockOptions, DiskImage, DiskOp, Rek0nDb, VectorMath,
    DEFAULT_LOCK_TIMEOUT,
};

struct F32Math;

impl VectorMath for F32Math {
    fn dot(&self, a: &[u32], b: &[u32]) -> u32 {
        let mut sum = 0.0_f32;
        for (x, y) in a.iter().zip(b.iter()) {
            sum += f32::from_bits(*x) * f32::from_bits(*y);
        }
        sum.to_bits()
    }

    fn mean(&self, values: &[u32]) -> u32 {
        let mut sum = 0.0_f32;
        for value in values {
            sum += f32::from_bits(*value);
        }
        (sum * (1.0 / values.len() as f32)).to_bits()
    }

    fn ratio(&self, dead: usize, allocated: usize) -> u32 {
        (dead as f32 / allocated as f32).to_bits()
    }
}

#[derive(Default)]
struct Files {
    vectors: Vec<u8>,
    manifest: Option<Manifest>,
    centroids: Option<Vec<u8>>,
}

impl Files {
    fn sync(&mut self, db: &mut Rek0nDb<F32Math>) {
        for op in db.take_ops() {
            match op {
                DiskOp::AppendVectors(bytes) => self.vectors.extend_from_slice(&bytes),
                DiskOp::ReplaceVectors(bytes) => self.vectors = bytes,
                DiskOp::WriteManifest(manifest) => self.manifest = Some(manifest),
                DiskOp::WriteCentroids(bytes) => self.centroids = Some(bytes),
                DiskOp::RemoveCentroids => self.centroids = None,
            }
        }
    }

    fn image(self) -> DiskImage {
        DiskImage {
            order: ByteOrder::Little,
            manifest: self.manifest,
            vectors: self.vectors,
            centroids: self.centroids,
        }
    }

    /// What a reader of the files gets, while they stay as they are.
    fn read(&self) -> DiskImage {
        DiskImage {
            order: ByteOrder::Little,
            manifest: self.manifest.as_ref().map(copy_of),
            vectors: self.vectors.clone(),
            centroids: self.centroids.clone(),
        }
    }
}

fn copy_of(manifest: &Manifest) -> Manifest {
    let records = manifest.records.iter().map(|entry| Entry {
        key: entry.key.clone(),
        value: entry.value.clone(),
    });
    let offsets = manifest.offsets.iter().map(|entry| Entry {
        key: entry.key.clone(),
        value: entry.value,
    });
    assert!(manifest.ivf.is_none());
    Manifest {
        version: manifest.version,
        dim: manifest.dim,
        next_id: manifest.next_id,
        compaction: manifest.compaction,
        records: records.collect(),
        offsets: offsets.collect(),
        tombstones: manifest.tombstones.clone(),
        postings: manifest.postings.clone(),
        ivf: None,
    }
}

fn open_new() -> Result<Rek0nDb<F32Math>, DbError> {
    Rek0nDb::open(F32Math, Files::default().image())
}

const TAKEN: LockReply = LockReply::Refused {
    would_block: true,
    raw_os_error: None,
};

#[test]
fn read_only_open_rejects_mutations() -> Result<(), DbError> {
    let mut files = Files::default();
    {
        let mut db = open_new()?;
        db.insert_persistent(&unit_vector(0), &chunk_record("src/a.rs", 1))?;
        files.sync(&mut db);
    }

    let mut db = Rek0nDb::open_read_only(F32Math, files.image())?;
    assert!(db.is_read_only());

    let err = db
        .insert_staging(&unit_vector(1), &chunk_record("src/b.rs", 2))
        .expect_err("read-only");
    assert!(matches!(err, DbError::ReadOnly));

    Ok(())
}

#[test]
fn read_only_store_refuses_every_change_and_stays_as_it_was() -> Result<(), DbError> {
    let mut files = Files::default();
    {
        let mut db = open_new()?;
        db.insert_persistent(&unit_vector(0), &chunk_record("src/a.rs", 1))?;
        files.sync(&mut db);
    }
    let mut db = Rek0nDb::open_with_options(
        F32Math,
        files.image(),
        DbLockOptions::shared(DEFAULT_LOCK_TIMEOUT),
    )?;
    let row = unit_vector(1);
    let record = chunk_record("src/a.rs", 2);
    assert!(matches!(db.ensure_writable(), Err(DbError::ReadOnly)));
    assert!(matches!(db.insert_staging(&row, &record), Err(DbError::ReadOnly)));
    assert!(matches!(db.insert_persistent(&row, &record), Err(DbError::ReadOnly)));
    assert!(matches!(db.clear_staging(), Err(DbError::ReadOnly)));
    assert!(matches!(db.maybe_compact(), Ok(None)));
    assert!(matches!(db.flush_to_disk(), Err(DbError::ReadOnly)));
    assert!(matches!(db.delete_by_file_path("src/a.rs"), Err(DbError::ReadOnly)));
    assert!(matches!(db.tombstone(0), Err(DbError::ReadOnly)));
    assert!(matches!(db.compact(), Err(DbError::ReadOnly)));
    assert!(matches!(db.build_ivf_index(1, 1), Err(DbError::ReadOnly)));
    assert!(matches!(db.reset(), Err(DbError::ReadOnly)));
    assert!(matches!(
        db.replace_file("src/a.rs", &[(&row[..], &record)]),
        Err(DbError::ReadOnly)
    ));
    assert_eq!(db.len(), 1);
    assert!(db.take_ops().is_empty());
    assert_eq!(db.get(0)?.record.start_line, 1);
    Ok(())
}

#[test]
fn exclusive_lock_blocks_second_writer() {
    let options = DbLockOptions::try_exclusive_once();
    assert!(!options.read_only());
    assert_eq!(acquire_lock_step(options, TAKEN, 0), LockStep::TimedOut);
}

#[test]
fn shared_lock_allows_concurrent_readers() {
    let options = DbLockOptions::shared(DEFAULT_LOCK_TIMEOUT);
    assert!(options.read_only());
    let mut files = Files::default();
    let mut db = open_new().expect("writer");
    db.insert_persistent(&unit_vector(0), &chunk_record("src/a.rs", 1))
        .expect("insert");
    files.sync(&mut db);
    drop(db);
    let reader_a = Rek0nDb::open_read_only(F32Math, files.read()).expect("reader a");
    let reader_b = Rek0nDb::open_read_only(F32Math, files.read()).expect("reader b");
    assert_eq!(reader_a.get(0).expect("row"), reader_b.get(0).expect("row"));
    assert_eq!(reader_b.get(0).expect("row").vector, unit_vector(0));
    assert_eq!((reader_a.len(), reader_b.len()), (1, 1));
    assert_eq!(
        acquire_lock_step(options, LockReply::Granted, 0),
        LockStep::Acquired
    );
}

#[test]
fn writer_waits_for_lock_then_succeeds() {
    let options = DbLockOptions::exclusive(Duration::from_secs(2).as_nanos());
    let mut elapsed = 0;
    let mut steps = Vec::new();
    for reply in [TAKEN, TAKEN, LockReply::Granted] {
        steps.push(acquire_lock_step(options, reply, elapsed));
        elapsed += LOCK_POLL_INTERVAL;
    }
    assert_eq!(steps, vec![LockStep::Wait, LockStep::Wait, LockStep::Acquired]);
}

#[test]
fn default_lock_timeout_is_thirty_seconds() {
    assert_eq!(DEFAULT_LOCK_TIMEOUT, Duration::from_secs(30).as_nanos());
    assert_eq!(LOCK_POLL_INTERVAL, Duration::from_millis(50).as_nanos());
    assert_eq!(
        DbLockOptions::default(),
        DbLockOptions::exclusive(DEFAULT_LOCK_TIMEOUT)
    );
}

#[test]
fn lock_wait_ends_with_the_timeout() {
    let options = DbLockOptions::exclusive(100);
    assert_eq!(acquire_lock_step(options, TAKEN, 99), LockStep::Wait);
    assert_eq!(acquire_lock_step(options, TAKEN, 100), LockStep::TimedOut);
    assert_eq!(
        acquire_lock_step(options, LockReply::Granted, 1_000),
        LockStep::Acquired
    );
}

#[test]
fn other_lock_errors_fail_at_once() {
    let options = DbLockOptions::default();
    let denied = LockReply::Refused {
        would_block: false,
        raw_os_error: None,
    };
    assert_eq!(acquire_lock_step(options, denied, 0), LockStep::Failed);
    let coded = LockReply::Refused {
        would_block: false,
        raw_os_error: Some(13),
    };
    assert_eq!(decide_lock_step(options, coded, Some(13), 0), LockStep::Wait);
    assert_eq!(decide_lock_step(options, coded, Some(11), 0), LockStep::Failed);
}

#[test]
fn contention_is_told_by_kind_or_by_code() {
    assert!(matches_contention(true, None, Some(11)));
    assert!(matches_contention(false, Some(11), Some(11)));
    assert!(!matches_contention(false, Some(12), Some(11)));
    assert!(!matches_contention(false, None, Some(11)));
    let code = fs4::lock_contended_error().raw_os_error();
    assert!(is_lock_contended(false, code));
    assert!(is_lock_contended(true, None));
    assert!(!is_lock_contended(false, None));
    assert!(!is_lock_contended(false, code.map(|code| code + 1)));
}
