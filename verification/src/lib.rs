//! A two-tier store for fixed-width embeddings with exact, scoped and bucketed search.

pub mod bits;
pub mod compact;
pub mod ids;
pub mod ivf;
pub mod laws;
pub mod lock;
pub mod manifest;
pub mod postings;
pub mod ranking;
pub mod state;
pub mod storage;
pub mod testing;
pub mod text;
pub mod types;
pub mod words;

pub use ivf::VectorMath;
pub use lock::{DbLockOptions, DEFAULT_LOCK_TIMEOUT};
pub use storage::{opening_ops, DiskImage, DiskOp, Rek0nDb, SearchHit};
pub use types::{
    AnnStrategy, ChunkRecord, CompactionPolicy, CompactionStats, DbError, Point, SearchScope,
    VectorId, DEFAULT_COMPACT_THRESHOLD, DEFAULT_IVF_BUCKETS, DEFAULT_IVF_PROBE, EMBEDDING_DIM,
    MAX_MANIFEST_BYTES, MAX_RECORD_TEXT_BYTES, MAX_STAGING_VECTORS, MAX_VECTORS_BYTES,
};
pub use words::ByteOrder;
