//! What the calls of a store answer and leave behind.

use vstd::prelude::*;
use vstd::utf8::encode_utf8;

use super::answers::{
    asked_for, is_hit, law_every_filter_counts, law_exact_search_misses_nothing,
    law_hits_are_live_rows, law_hits_descend, law_search_refusals, outdone,
};
use super::changes::{
    acceptable, law_clearing, law_flush_refusals, law_insertion_refusals, law_replacing_answers,
    law_reset, law_staging_refusals, law_tombstone_answers, law_what_an_id_stands_for,
};
use super::opening::{in_order, law_opening_a_directory, law_opening_a_new_directory};
use super::rows::{
    file_ids, ids_are_new, law_delete_removes_the_file, law_flush_keeps_rows,
    law_insert_persistent_then_get, law_replace_swaps_the_file, law_stage_then_get,
    law_tombstone_then_get, lists_file, nth_id, of_file,
};
use super::search::{comparable, filters_known};
use super::upkeep::{
    law_building_an_index, law_compaction_packs_the_live_rows, law_compaction_runs_when_due, reaches,
};
use crate::ivf::{dot_is, scores_best, VectorMath};
use crate::lock::DbLockOptions;
use crate::manifest::Manifest;
use crate::state::{staged, DbView, OpView, Staged};
use crate::storage::delete::chunk_views;
use crate::storage::search::SearchHit;
use crate::storage::{opening_ops, DiskImage, DiskOp, Rek0nDb};
use crate::types::{
    key_parts, AnnStrategy, ChunkRecord, CompactionPolicy, CompactionStats, DbError, Point,
    SearchScope, VectorId, EMBEDDING_DIM, MAX_RECORD_TEXT_BYTES, MAX_STAGING_VECTORS,
    MAX_VECTORS_BYTES,
};

verus! {

/// What a store tells of itself: its width and policy, whether it refuses changes, how many ids
/// carry a tombstone, how many rows each tier holds, and how many both hold together.
pub proof fn law_what_a_store_tells<M: VectorMath>(db: Rek0nDb<M>, n: usize, b: bool)
    ensures
        ({
            let live = db@.records.dom().difference(db@.tombstones).len();
            &&& call_ensures(Rek0nDb::<M>::dim, (&db,), n) ==> n == db@.dim
            &&& call_ensures(Rek0nDb::<M>::tombstone_count, (&db,), n) ==> n == db@.tombstones.len()
            &&& call_ensures(Rek0nDb::<M>::staging_count, (&db,), n) ==> n == db@.staging.len()
            &&& call_ensures(Rek0nDb::<M>::live_persistent_count, (&db,), n) ==> n == live
            &&& call_ensures(Rek0nDb::<M>::len, (&db,), n) ==> n == live + db@.staging.len()
            &&& call_ensures(Rek0nDb::<M>::is_empty, (&db,), b) ==> b == (live + db@.staging.len()
                == 0)
            &&& call_ensures(Rek0nDb::<M>::has_ivf_index, (&db,), b) ==> b == db@.ivf is Some
            &&& call_ensures(Rek0nDb::<M>::is_read_only, (&db,), b) ==> b == db@.read_only
            &&& call_ensures(Rek0nDb::<M>::index_covers, (&db,), b) ==> b == (db@.ivf matches Some(
                index,
            ) ==> index.num_buckets * db@.dim <= index.centroids.len())
            &&& call_ensures(Rek0nDb::<M>::index_usable, (&db,), b) ==> b == (db@.ivf matches Some(
                index,
            ) ==> index.num_buckets > 0 && index.num_buckets * db@.dim <= index.centroids.len())
        }),
{
}

/// The policy of a store is what it was given, its share of dead ids is what the arithmetic answers
/// to its tombstones and the ids given out, and a change is refused where it is open for reading.
pub proof fn law_policy_and_share<M: VectorMath>(
    db: Rek0nDb<M>,
    policy: CompactionPolicy,
    ratio: u32,
    r: Result<(), DbError>,
)
    ensures
        call_ensures(Rek0nDb::<M>::compaction_policy, (&db,), policy) ==> policy == db@.policy,
        call_ensures(Rek0nDb::<M>::dead_ratio, (&db,), ratio) ==> if db@.next_id == 0 {
            ratio == 0
        } else {
            call_ensures(
                M::ratio,
                (&db.math(), db@.tombstones.len() as usize, db@.next_id as usize),
                ratio,
            )
        },
        call_ensures(Rek0nDb::<M>::ensure_writable, (&db,), r) ==> (r is Ok <==> !db@.read_only) && (
        r is Err ==> r == Err::<(), DbError>(DbError::ReadOnly)),
{
}

/// A store takes another width exactly where that is not zero and the store holds no row, or where
/// it is the width it has; nothing else changes with it.
pub proof fn law_changing_the_width<M: VectorMath>(
    db: Rek0nDb<M>,
    dim: usize,
    r: Result<Rek0nDb<M>, DbError>,
)
    requires
        call_ensures(Rek0nDb::<M>::with_dim, (db, dim), r),
    ensures
        ({
            let rows = db@.records.dom().difference(db@.tombstones).len() + db@.staging.len();
            &&& r is Ok <==> dim > 0 && (dim == db@.dim || rows == 0)
            &&& dim == 0 ==> r == Err::<Rek0nDb<M>, DbError>(
                DbError::InvalidDimension { expected: EMBEDDING_DIM, got: 0 },
            )
            &&& dim > 0 && dim != db@.dim && rows > 0 ==> r == Err::<Rek0nDb<M>, DbError>(
                DbError::DimensionChangeOnNonEmptyDb,
            )
            &&& r matches Ok(after) ==> after@ == (DbView { dim, ..db@ }) && after.math()
                == db.math()
        }),
{
}

/// A store takes a policy exactly where its threshold is a number from zero to one; nothing else
/// changes with it.
pub proof fn law_changing_the_policy<M: VectorMath>(
    db: Rek0nDb<M>,
    policy: CompactionPolicy,
    r: Result<Rek0nDb<M>, DbError>,
)
    requires
        call_ensures(Rek0nDb::<M>::with_compaction_policy, (db, policy), r),
    ensures
        r is Ok <==> policy.dead_ratio_threshold <= 0x3f80_0000 || policy.dead_ratio_threshold
            == 0x8000_0000,
        r matches Ok(after) ==> after@ == (DbView { policy, ..db@ }) && after.math() == db.math(),
        r is Err ==> r == Err::<Rek0nDb<M>, DbError>(
            DbError::InvalidCompactionPolicy { threshold: policy.dead_ratio_threshold },
        ),
{
    crate::types::law_valid_thresholds(policy);
}

/// Fetching an id gives its row and its record, those of the staging tier where it is staged and
/// those of the persistent tier where it has a record and no tombstone, and an error for any other
/// id.
pub proof fn law_fetching<M: VectorMath>(
    db: Rek0nDb<M>,
    id: VectorId,
    r: Result<Point, DbError>,
    i: int,
)
    requires
        db.inv(),
        call_ensures(Rek0nDb::<M>::get, (&db, id), r),
    ensures
        r matches Ok(point) ==> point.id == id,
        0 <= i < db@.staging.len() && db@.staging[i].id == id ==> (r matches Ok(point)
            && point.vector@ == db@.staging[i].row && point.record == db@.staging[i].record),
        (forall|p: int| 0 <= p < db@.staging.len() ==> (#[trigger] db@.staging[p]).id != id) ==> {
            &&& !db@.records.contains_key(id) || db@.tombstones.contains(id) ==> r == Err::<
                Point,
                DbError,
            >(DbError::MissingMetadata { id })
            &&& db@.records.contains_key(id) && !db@.tombstones.contains(id) && db@.bytes.len() % 4
                == 0 ==> (r matches Ok(point) && point.record == db@.records[id] && db@.row(id)
                == Some(point.vector@))
        },
{
    db.law_open_store_is_in_order();
    law_what_an_id_stands_for(db@, id, i, 0);
    if forall|p: int| 0 <= p < db@.staging.len() ==> (#[trigger] db@.staging[p]).id != id {
        crate::storage::lemma_not_staged(db@.staging, id);
    }
}

/// A search that succeeds gives at most `k` rows, each of which is asked for by every given filter
/// and lies in a tier that the scope has, with its own record and its own score, none twice, and
/// best first where the scores are numbers. An exact one misses nothing. It succeeds where the query
/// has the width of the store, `k` is not zero, the vector file holds whole words and the strategy
/// is exact, or bucketed with an index there.
pub proof fn law_searching<M: VectorMath>(
    db: Rek0nDb<M>,
    query: &[u32],
    k: usize,
    scope: SearchScope<'_>,
    strategy: AnnStrategy,
    r: Result<Vec<SearchHit>, DbError>,
    i: int,
    j: int,
    id: VectorId,
)
    requires
        call_ensures(Rek0nDb::<M>::search_scoped, (&db, query, k, scope, strategy), r),
        db@.readable(),
        filters_known(db@, scope),
    ensures
        r is Ok <==> query@.len() == db@.dim && k > 0 && match strategy {
            AnnStrategy::Exact => true,
            AnnStrategy::Ivf { .. } => db@.ivf is Some,
            AnnStrategy::Hnsw { .. } => false,
        },
        query@.len() != db@.dim ==> r == Err::<Vec<SearchHit>, DbError>(
            DbError::InvalidQuery { expected: db@.dim, got: query@.len() as usize },
        ),
        query@.len() == db@.dim && k == 0 ==> r == Err::<Vec<SearchHit>, DbError>(
            DbError::InvalidSearchLimit,
        ),
        query@.len() == db@.dim && k > 0 && r is Err ==> if strategy is Ivf {
            r == Err::<Vec<SearchHit>, DbError>(DbError::IvfNotBuilt)
        } else {
            strategy is Hnsw && r == Err::<Vec<SearchHit>, DbError>(DbError::HnswNotBuilt)
        },
        r matches Ok(hits) ==> hits@.len() <= k || hits@.len() == 0,
        r matches Ok(hits) ==> (0 <= i < hits@.len() ==> {
            let hit = hits@[i];
            &&& scope.file_paths matches Some(paths) ==> exists|p: int|
                0 <= p < paths@.len() && (#[trigger] paths@[p])@ == hit.record.file_path@
            &&& scope.file_path_prefix matches Some(prefix) ==> prefix@.is_prefix_of(
                hit.record.file_path@,
            )
            &&& scope.kinds matches Some(kinds) ==> exists|p: int|
                0 <= p < kinds@.len() && (#[trigger] kinds@[p])@ == hit.record.kind@
            &&& scope.candidate_ids matches Some(ids) ==> exists|p: int|
                0 <= p < ids@.len() && #[trigger] ids@[p] == hit.id
            &&& match staged(db@.staging, hit.id) {
                Some(s) => scope.include_staging && s.id == hit.id && hit.record == s.record
                    && dot_is(db.math(), query@, s.row, hit.score),
                None => db@.records.contains_key(hit.id) && !db@.tombstones.contains(hit.id)
                    && hit.record == db@.records[hit.id] && db@.row(hit.id) is Some && dot_is(
                    db.math(),
                    query@,
                    db@.row(hit.id)->Some_0,
                    hit.score,
                ),
            }
        }),
        r matches Ok(hits) ==> (0 <= i < j < hits@.len() ==> hits@[i].id != hits@[j].id),
        r matches Ok(hits) ==> (0 <= i < j < hits@.len() && comparable(db.math(), db@, query@) ==> {
            &&& hits@[i].score < 0x8000_0000 && hits@[j].score < 0x8000_0000 ==> hits@[i].score
                >= hits@[j].score
            &&& hits@[i].score >= 0x8000_0000 && hits@[j].score >= 0x8000_0000 ==> hits@[i].score
                <= hits@[j].score
            &&& hits@[i].score > 0x8000_0000 ==> hits@[j].score >= 0x8000_0000
            &&& hits@[i].score == hits@[j].score ==> hits@[i].id < hits@[j].id
        }),
        r matches Ok(hits) ==> (strategy is Exact && db@.fetched(id) is Ok && asked_for(
            scope,
            id,
            db@.fetched(id)->Ok_0.1,
        ) && (staged(db@.staging, id) is Some ==> scope.include_staging) ==> is_hit(hits@, id)
            || outdone(db.math(), db@, query@, k as nat, hits@, id)),
{
    let v = db@;
    law_search_refusals(db.math(), v, query@, k, scope, strategy, r);
    if let Ok(hits) = r {
        if hits@.len() > 0 {
            law_hits_are_live_rows(db.math(), v, query@, k as nat, scope, strategy, hits@, 0);
        }
        if 0 <= i < hits@.len() {
            law_every_filter_counts(db.math(), v, query@, k as nat, scope, strategy, hits@, i);
            law_hits_are_live_rows(db.math(), v, query@, k as nat, scope, strategy, hits@, i);
            if i < j < hits@.len() && comparable(db.math(), v, query@) {
                law_hits_descend(db.math(), v, query@, k as nat, scope, strategy, hits@, i, j);
            }
        }
        if strategy is Exact && v.fetched(id) is Ok && asked_for(scope, id, v.fetched(id)->Ok_0.1)
            && (staged(v.staging, id) is Some ==> scope.include_staging) {
            law_exact_search_misses_nothing(
                db.math(),
                v,
                query@,
                k as nat,
                scope,
                hits@,
                id,
            );
        }
    }
}

/// A search without a scope looks at every row of both tiers: each is a hit, or there are `k` hits
/// that are all better, and they stand best first.
pub proof fn law_searching_everything<M: VectorMath>(
    db: Rek0nDb<M>,
    query: &[u32],
    k: usize,
    r: Result<Vec<SearchHit>, DbError>,
    i: int,
    j: int,
    id: VectorId,
)
    requires
        call_ensures(Rek0nDb::<M>::search, (&db, query, k), r),
        db@.readable(),
    ensures
        r is Ok <==> query@.len() == db@.dim && k > 0,
        r matches Ok(hits) ==> (db@.fetched(id) is Ok ==> is_hit(hits@, id) || outdone(
            db.math(),
            db@,
            query@,
            k as nat,
            hits@,
            id,
        )),
        r matches Ok(hits) ==> (0 <= i < hits@.len() ==> hits@.len() <= k && db@.fetched(
            hits@[i].id,
        ) is Ok && db@.fetched(hits@[i].id)->Ok_0.1 == hits@[i].record && dot_is(
            db.math(),
            query@,
            db@.fetched(hits@[i].id)->Ok_0.0,
            hits@[i].score,
        )),
        r matches Ok(hits) ==> (0 <= i < j < hits@.len() ==> hits@[i].id != hits@[j].id),
        r matches Ok(hits) ==> (0 <= i < j < hits@.len() && comparable(db.math(), db@, query@)
            && hits@[i].score < 0x8000_0000 && hits@[j].score < 0x8000_0000 ==> hits@[i].score
            >= hits@[j].score),
{
    let v = db@;
    let scope = choose|scope: SearchScope<'_>|
        scope.unrestricted() && scope.include_staging
            && #[trigger] crate::storage::search::search_outcome(
            db.math(),
            v,
            query@,
            k,
            scope,
            AnnStrategy::Exact,
            r,
        );
    let exact = AnnStrategy::Exact;
    law_search_refusals(db.math(), v, query@, k, scope, exact, r);
    if let Ok(hits) = r {
        if v.fetched(id) is Ok {
            law_exact_search_misses_nothing(
                db.math(),
                v,
                query@,
                k as nat,
                scope,
                hits@,
                id,
            );
        }
        super::search::law_hits_are_rows(
            db.math(),
            v,
            query@,
            k as nat,
            scope,
            exact,
            hits@,
        );
        if 0 <= i < j < hits@.len() && comparable(db.math(), v, query@) {
            law_hits_descend(db.math(), v, query@, k as nat, scope, exact, hits@, i, j);
        }
    }
}

/// A row that is staged gets the next id, stands behind the others of its tier, and can be fetched;
/// nothing else changes. It is staged exactly where the store takes changes, the row has its width,
/// the text is not too long, the tier is not full and an id is left.
pub proof fn law_staging_a_row<M: VectorMath>(
    db: &mut Rek0nDb<M>,
    vector: &[u32],
    record: &ChunkRecord,
    r: Result<VectorId, DbError>,
)
    requires
        old(db)@.inv(),
        call_ensures(Rek0nDb::<M>::insert_staging, (db, vector, record), r),
        encode_utf8(record.text@).len() <= usize::MAX,
    ensures
        ({
            let v = old(db)@;
            let w = final(db)@;
            &&& r is Ok <==> !v.read_only && vector@.len() == v.dim && encode_utf8(
                record.text@,
            ).len() <= MAX_RECORD_TEXT_BYTES && v.staging.len() < MAX_STAGING_VECTORS && v.next_id
                < VectorId::MAX
            &&& r is Err ==> w == v
            &&& r matches Ok(id) ==> {
                &&& id == v.next_id
                &&& w.fetched(id) == Ok::<(Seq<u32>, ChunkRecord), DbError>((vector@, *record))
                &&& w.staging == v.staging.push(Staged { id, row: vector@, record: *record })
                &&& w == (DbView { staging: w.staging, next_id: (id + 1) as VectorId, ..v })
            }
        }),
{
    law_staging_refusals(old(db)@, vector@, *record, final(db)@, r);
    if r is Ok {
        law_stage_then_get(old(db)@, vector@, *record, final(db)@, r);
    }
}

/// A row that is staged under a metadata key has the path and the lines that the key says, an
/// unknown kind, no name and no text.
pub proof fn law_staging_by_key<M: VectorMath>(
    db: &mut Rek0nDb<M>,
    vector: &[u32],
    key: &str,
    r: Result<VectorId, DbError>,
)
    requires
        old(db)@.inv(),
        call_ensures(Rek0nDb::<M>::insert_staging_metadata, (db, vector, key), r),
    ensures
        r matches Ok(id) ==> {
            &&& id == old(db)@.next_id
            &&& final(db)@.fetched(id) matches Ok((row, record)) && {
                &&& row == vector@
                &&& record.text@.len() == 0
                &&& record.kind@ == "Unknown"@
                &&& record.name is None
                &&& (record.file_path@, record.start_line as nat, record.end_line as nat)
                    == key_parts(key@)
            }
        },
        r is Ok <==> !old(db)@.read_only && vector@.len() == old(db)@.dim
            && old(db)@.staging.len() < MAX_STAGING_VECTORS && old(db)@.next_id < VectorId::MAX,
        r is Err ==> final(db)@ == old(db)@,
{
    let record = choose|record: ChunkRecord|
        {
            &&& record.text@ == Seq::<char>::empty()
            &&& record.kind@ == "Unknown"@
            &&& record.name is None
            &&& (record.file_path@, record.start_line as nat, record.end_line as nat) == key_parts(
                key@,
            )
            &&& #[trigger] crate::state::stage_outcome(
                old(db)@,
                vector@,
                record,
                final(db)@,
                r,
            )
        };
    assert(encode_utf8(record.text@).len() == 0) by {
        reveal_with_fuel(encode_utf8, 1);
    }
    law_staging_refusals(old(db)@, vector@, record, final(db)@, r);
    if r is Ok {
        law_stage_then_get(old(db)@, vector@, record, final(db)@, r);
    }
}

/// A row that is inserted gets the next id and can be fetched, and every other row stays. It is
/// inserted exactly where the store takes changes, the row has its width, the text is not too long,
/// the vector file has room and an id is left.
pub proof fn law_inserting_a_row<M: VectorMath>(
    db: &mut Rek0nDb<M>,
    vector: &[u32],
    record: &ChunkRecord,
    r: Result<VectorId, DbError>,
)
    requires
        old(db)@.inv(),
        old(db)@.bytes.len() % 4 == 0,
        old(db)@.bytes.len() <= u64::MAX,
        !old(db)@.records.contains_key(old(db)@.next_id),
        call_ensures(Rek0nDb::<M>::insert_persistent, (db, vector, record), r),
        encode_utf8(record.text@).len() <= usize::MAX,
    ensures
        ({
            let v = old(db)@;
            let w = final(db)@;
            &&& r is Ok <==> !v.read_only && vector@.len() == v.dim && encode_utf8(
                record.text@,
            ).len() <= MAX_RECORD_TEXT_BYTES && v.bytes.len() + 4 * vector@.len()
                <= MAX_VECTORS_BYTES && v.next_id < VectorId::MAX
            &&& r is Err ==> w == v
            &&& r matches Ok(id) ==> {
                &&& id == v.next_id
                &&& w.next_id == id + 1
                &&& w.fetched(id) == Ok::<(Seq<u32>, ChunkRecord), DbError>((vector@, *record))
                &&& forall|x: VectorId| x != id ==> #[trigger] w.fetched(x) == v.fetched(x)
                &&& w.staging == v.staging
                &&& w.tombstones == v.tombstones
            }
        }),
{
    law_insertion_refusals(
        old(db).math(),
        old(db)@,
        vector@,
        *record,
        final(db)@,
        r,
    );
    if r is Ok {
        law_insert_persistent_then_get(
            old(db).math(),
            old(db)@,
            vector@,
            *record,
            final(db)@,
            r,
        );
    }
}

/// Whether a row would be taken, a flush or a search refused, and whether the first of a list of
/// rows joins, is told as the calls themselves then do.
pub proof fn law_asking_beforehand<M: VectorMath>(
    db: Rek0nDb<M>,
    vector: &[u32],
    record: &ChunkRecord,
    path: &str,
    chunks: &[(&[u32], &ChunkRecord)],
    k: usize,
    strategy: AnnStrategy,
    e: Option<DbError>,
    joins: bool,
)
    requires
        encode_utf8(record.text@).len() <= usize::MAX,
        chunks@.len() > 0 ==> encode_utf8(chunks@[0].1.text@).len() <= usize::MAX,
    ensures
        ({
            let v = db@;
            &&& call_ensures(Rek0nDb::<M>::insert_refusal, (&db, vector, record), e) ==> (e is None
                <==> !v.read_only && vector@.len() == v.dim && encode_utf8(record.text@).len()
                <= MAX_RECORD_TEXT_BYTES && v.bytes.len() + 4 * vector@.len() <= MAX_VECTORS_BYTES
                && v.next_id < VectorId::MAX)
            &&& call_ensures(Rek0nDb::<M>::flush_refusal, (&db,), e) ==> (e is None
                <==> !v.read_only && (v.staging.len() == 0 || v.bytes.len() + v.staging.len()
                * v.dim * 4 <= MAX_VECTORS_BYTES))
            &&& call_ensures(Rek0nDb::<M>::search_refusal, (&db, vector, k, strategy), e) ==> (e
                is None <==> vector@.len() == v.dim && k > 0 && v.bytes.len() % 4 == 0
                && match strategy {
                AnnStrategy::Exact => true,
                AnnStrategy::Ivf { .. } => v.ivf is Some,
                AnnStrategy::Hnsw { .. } => false,
            })
            &&& call_ensures(Rek0nDb::<M>::first_joins, (&db, path, chunks), joins) ==> joins == (
            chunks@.len() > 0 && chunks@[0].1.file_path@ == path@ && !v.read_only
                && chunks@[0].0@.len() == v.dim && encode_utf8(chunks@[0].1.text@).len()
                <= MAX_RECORD_TEXT_BYTES && v.bytes.len() + 4 * chunks@[0].0@.len()
                <= MAX_VECTORS_BYTES && v.next_id < VectorId::MAX)
        }),
{
}

/// Clearing the staging tier takes every staged row out and changes nothing else.
pub proof fn law_clearing_the_tier<M: VectorMath>(db: &mut Rek0nDb<M>, r: Result<(), DbError>)
    requires
        call_ensures(Rek0nDb::<M>::clear_staging, (db,), r),
    ensures
        r is Ok <==> !old(db)@.read_only,
        r is Err ==> r == Err::<(), DbError>(DbError::ReadOnly) && final(db)@ == old(db)@,
        r is Ok ==> final(db)@.staging.len() == 0 && final(db)@ == (DbView {
            staging: final(db)@.staging,
            ..old(db)@
        }),
{
    law_clearing(old(db)@, final(db)@, r);
}

/// A flush keeps every row under its id and empties the staging tier. It is refused where the store
/// is open for reading or the rows do not fit.
pub proof fn law_flushing<M: VectorMath>(db: &mut Rek0nDb<M>, r: Result<(), DbError>)
    requires
        old(db)@.readable(),
        call_ensures(Rek0nDb::<M>::flush_to_disk, (db,), r),
        old(db)@.ivf matches Some(index) ==> index.num_buckets > 0,
    ensures
        ({
            let v = old(db)@;
            let w = final(db)@;
            let fits = v.staging.len() == 0 || v.bytes.len() + 4 * (v.staging.len() * v.dim)
                <= MAX_VECTORS_BYTES;
            &&& r is Ok <==> !v.read_only && fits
            &&& r is Err ==> w == v
            &&& forall|id: VectorId| #[trigger] w.fetched(id) == v.fetched(id)
            &&& r is Ok ==> w.staging.len() == 0 && w.next_id == v.next_id && w.live().len()
                == v.live().len() + v.staging.len()
        }),
{
    law_flush_refusals(old(db).math(), old(db)@, final(db)@, r);
    if crate::state::flush_refusal(old(db)@) is None {
        law_flush_keeps_rows(old(db).math(), old(db)@, final(db)@, r);
    }
}

/// Deleting a file takes exactly its rows out of both tiers and tells how many these were.
pub proof fn law_deleting_a_file<M: VectorMath>(
    db: &mut Rek0nDb<M>,
    path: &str,
    r: Result<usize, DbError>,
)
    requires
        old(db)@.readable(),
        lists_file(old(db)@, path@),
        old(db)@.row_count() <= usize::MAX,
        call_ensures(Rek0nDb::<M>::delete_by_file_path, (db, path), r),
    ensures
        ({
            let v = old(db)@;
            let w = final(db)@;
            &&& v.read_only ==> r == Err::<usize, DbError>(DbError::ReadOnly) && w == v
            &&& !v.read_only && (v.ivf matches Some(index) ==> index.num_buckets > 0) ==> r is Ok
            &&& !v.read_only ==> forall|id: VectorId| #[trigger]
                w.fetched(id) == if v.fetched(id) is Ok && v.fetched(id)->Ok_0.1.file_path@
                    == path@ {
                    Err::<(Seq<u32>, ChunkRecord), DbError>(DbError::MissingMetadata { id })
                } else {
                    v.fetched(id)
                }
            &&& r matches Ok(n) ==> n == Set::new(
                |id: VectorId| v.fetched(id) is Ok && v.fetched(id)->Ok_0.1.file_path@ == path@,
            ).len()
        }),
{
    let v = old(db)@;
    if !v.read_only {
        law_delete_removes_the_file(old(db).math(), v, path@, final(db)@, r);
        assert(file_ids(v, path@) =~= Set::new(
            |id: VectorId| v.fetched(id) is Ok && v.fetched(id)->Ok_0.1.file_path@ == path@,
        ));
        assert forall|id: VectorId| #[trigger] final(db)@.fetched(id) == if v.fetched(id) is Ok
            && v.fetched(id)->Ok_0.1.file_path@ == path@ {
            Err::<(Seq<u32>, ChunkRecord), DbError>(DbError::MissingMetadata { id })
        } else {
            v.fetched(id)
        } by {
            assert(of_file(v, path@, id) <==> v.fetched(id) is Ok
                && v.fetched(id)->Ok_0.1.file_path@ == path@);
        }
    }
}

/// An id that gets its tombstone cannot be fetched any more, while every other one can as before;
/// one that has it already, or stands for no persistent row, changes nothing.
pub proof fn law_giving_a_tombstone<M: VectorMath>(
    db: &mut Rek0nDb<M>,
    id: VectorId,
    r: Result<bool, DbError>,
)
    requires
        old(db)@.readable(),
        call_ensures(Rek0nDb::<M>::tombstone, (db, id), r),
    ensures
        ({
            let v = old(db)@;
            let w = final(db)@;
            let live = v.records.contains_key(id) && !v.tombstones.contains(id);
            &&& v.read_only ==> r == Err::<bool, DbError>(DbError::ReadOnly) && w == v
            &&& !v.read_only && v.tombstones.contains(id) ==> r == Ok::<bool, DbError>(false) && w
                == v
            &&& !v.read_only && !v.records.contains_key(id) ==> w == v && (r == Ok::<bool, DbError>(
                false,
            ) || r == Err::<bool, DbError>(DbError::MissingMetadata { id }))
            &&& !v.read_only && live ==> {
                &&& r is Ok ==> r == Ok::<bool, DbError>(true)
                &&& w.fetched(id) is Err
                &&& forall|x: VectorId| x != id ==> #[trigger] w.fetched(x) == v.fetched(x)
            }
        }),
{
    law_tombstone_answers(old(db).math(), old(db)@, id, final(db)@, r);
    if !old(db)@.read_only && old(db)@.live().contains(id) {
        law_tombstone_then_get(old(db).math(), old(db)@, id, final(db)@, r);
    }
}

/// Replacing a file leaves every row of another file alone. Where it succeeds the rows of the file
/// are exactly the new ones, in their order, under the next ids.
pub proof fn law_replacing_a_file<M: VectorMath>(
    db: &mut Rek0nDb<M>,
    path: &str,
    chunks: &[(&[u32], &ChunkRecord)],
    r: Result<(), DbError>,
)
    requires
        old(db)@.readable(),
        lists_file(old(db)@, path@),
        ids_are_new(old(db)@, chunks@.len()),
        old(db)@.row_count() <= usize::MAX,
        !old(db)@.read_only,
        call_ensures(Rek0nDb::<M>::replace_file, (db, path, chunks), r),
    ensures
        ({
            let v = old(db)@;
            let w = final(db)@;
            &&& forall|id: VectorId|
                !(v.next_id <= id < w.next_id) ==> #[trigger] w.fetched(id) == if v.fetched(id)
                    is Ok && v.fetched(id)->Ok_0.1.file_path@ == path@ {
                    Err::<(Seq<u32>, ChunkRecord), DbError>(DbError::MissingMetadata { id })
                } else {
                    v.fetched(id)
                }
            &&& r is Ok ==> {
                &&& w.next_id == v.next_id + chunks@.len()
                &&& forall|i: int|
                    0 <= i < chunks@.len() ==> (#[trigger] chunks@[i]).1.file_path@ == path@
                        && w.fetched((v.next_id + i) as VectorId) == Ok::<
                        (Seq<u32>, ChunkRecord),
                        DbError,
                    >((chunks@[i].0@, *chunks@[i].1))
            }
        }),
{
    let v = old(db)@;
    let w = final(db)@;
    let views = chunk_views(chunks@);
    law_replace_swaps_the_file(old(db).math(), v, path@, views, w, r);
    assert forall|id: VectorId|
        !(v.next_id <= id < w.next_id) implies #[trigger] w.fetched(id) == if v.fetched(id) is Ok
        && v.fetched(id)->Ok_0.1.file_path@ == path@ {
        Err::<(Seq<u32>, ChunkRecord), DbError>(DbError::MissingMetadata { id })
    } else {
        v.fetched(id)
    } by {
        assert(of_file(v, path@, id) <==> v.fetched(id) is Ok && v.fetched(id)->Ok_0.1.file_path@
            == path@);
    }
    if r is Ok {
        assert forall|i: int| 0 <= i < chunks@.len() implies (
        #[trigger] chunks@[i]).1.file_path@ == path@ && w.fetched((v.next_id + i) as VectorId)
            == Ok::<(Seq<u32>, ChunkRecord), DbError>((chunks@[i].0@, *chunks@[i].1)) by {
            assert(nth_id(v, i) == v.next_id + i);
            assert(views[i].record.file_path@ == path@);
        }
    }
}

/// A replacement succeeds where all its rows can be taken, with room in the vector file and ids for
/// each of them; otherwise the first one that cannot be taken tells why.
pub proof fn law_replacing_succeeds<M: VectorMath>(
    db: &mut Rek0nDb<M>,
    path: &str,
    chunks: &[(&[u32], &ChunkRecord)],
    r: Result<(), DbError>,
    at: int,
)
    requires
        old(db)@.regular(),
        old(db)@.row_count() <= usize::MAX,
        old(db)@.ivf matches Some(index) ==> index.num_buckets > 0,
        !old(db)@.read_only,
        call_ensures(Rek0nDb::<M>::replace_file, (db, path, chunks), r),
        0 <= at <= chunks@.len(),
        forall|i: int|
            0 <= i < at ==> (#[trigger] chunks@[i]).1.file_path@ == path@ && chunks@[i].0@.len()
                == old(db)@.dim && encode_utf8(chunks@[i].1.text@).len() <= MAX_RECORD_TEXT_BYTES,
        at < chunks@.len() ==> encode_utf8(chunks@[at].1.text@).len() <= usize::MAX,
        old(db)@.bytes.len() + 4 * (at * old(db)@.dim) <= MAX_VECTORS_BYTES,
        4 * (old(db)@.row_count() * old(db)@.dim) + 4 * (at * old(db)@.dim) <= MAX_VECTORS_BYTES,
        old(db)@.next_id + at <= VectorId::MAX,
    ensures
        at == chunks@.len() ==> r is Ok,
        at < chunks@.len() && chunks@[at].1.file_path@ != path@ ==> (r matches Err(
            DbError::FilePathMismatch { expected, got },
        ) && expected@ == path@ && got@ == chunks@[at].1.file_path@),
        at < chunks@.len() && chunks@[at].1.file_path@ == path@ && chunks@[at].0@.len() != old(
            db,
        )@.dim ==> (r matches Err(DbError::InvalidDimension { expected, got }) && expected == old(
            db,
        )@.dim && got == chunks@[at].0@.len()),
        at < chunks@.len() && chunks@[at].1.file_path@ == path@ && chunks@[at].0@.len() == old(
            db,
        )@.dim && encode_utf8(chunks@[at].1.text@).len() > MAX_RECORD_TEXT_BYTES ==> (r matches Err(
            DbError::RecordTextTooLarge { len, max },
        ) && len == encode_utf8(chunks@[at].1.text@).len() && max == MAX_RECORD_TEXT_BYTES),
{
    let views = chunk_views(chunks@);
    assert forall|i: int| 0 <= i < at implies acceptable(
        old(db)@.dim,
        path@,
        #[trigger] views[i],
    ) by {
        assert(views[i].record == *chunks@[i].1);
    }
    if at < chunks@.len() && chunks@[at].0@.len() != old(db)@.dim {
        assert(chunks@[at].0@.len() == chunks@[at].0.len());
    }
    law_replacing_answers(old(db).math(), old(db)@, path@, views, final(db)@, r, at);
}

/// A compaction that succeeds leaves no tombstone, keeps every row, and leaves a vector file that
/// holds nothing but the live rows.
pub proof fn law_compacting<M: VectorMath>(
    db: &mut Rek0nDb<M>,
    r: Result<CompactionStats, DbError>,
)
    requires
        old(db)@.inv(),
        call_ensures(Rek0nDb::<M>::compact, (db,), r),
    ensures
        ({
            let v = old(db)@;
            let w = final(db)@;
            &&& v.read_only ==> r == Err::<CompactionStats, DbError>(DbError::ReadOnly) && w == v
            &&& !v.read_only && v.bytes.len() % 4 == 0 && (v.ivf matches Some(index)
                ==> index.num_buckets > 0) ==> r is Ok
            &&& forall|id: VectorId| #[trigger] w.fetched(id) == v.fetched(id)
            &&& r matches Ok(stats) ==> {
                &&& forall|id: VectorId| !w.tombstones.contains(id)
                &&& w.bytes.len() == 4 * (v.live().len() * v.dim)
                &&& stats.vectors_before == v.records.len()
                &&& stats.vectors_after == v.live().len()
            }
        }),
{
    super::coherence::law_compact_keeps_rows(
        old(db).math(),
        old(db)@,
        final(db)@,
        r,
    );
    if let Ok(stats) = r {
        law_compaction_packs_the_live_rows(
            old(db).math(),
            old(db)@,
            final(db)@,
            stats,
        );
        assert(final(db)@.records.dom() =~= old(db)@.live());
    }
}

/// A store compacts itself exactly where it has a tombstone and the share of dead ids has reached
/// the threshold of its policy.
pub proof fn law_compacting_when_due<M: VectorMath>(
    db: &mut Rek0nDb<M>,
    r: Result<Option<CompactionStats>, DbError>,
    ratio: u32,
)
    requires
        old(db)@.inv(),
        old(db)@.next_id > 0,
        forall|x: u32| #[trigger]
            call_ensures(
                M::ratio,
                (
                    &old(db).math(),
                    old(db)@.tombstones.len() as usize,
                    old(db)@.next_id as usize,
                ),
                x,
            ) ==> x == ratio,
        ratio < 0x8000_0000,
        call_ensures(Rek0nDb::<M>::maybe_compact, (db,), r),
    ensures
        ({
            let v = old(db)@;
            let w = final(db)@;
            let due = v.tombstones.len() > 0 && reaches(ratio, v.policy.dead_ratio_threshold);
            &&& !due ==> w == v && r == Ok::<Option<CompactionStats>, DbError>(None)
            &&& due && r is Ok ==> r->Ok_0 is Some && forall|id: VectorId|
                !w.tombstones.contains(id)
            &&& due && !v.read_only && v.bytes.len() % 4 == 0 && (v.ivf matches Some(index)
                ==> index.num_buckets > 0) ==> r is Ok
        }),
{
    law_compaction_runs_when_due(
        old(db).math(),
        old(db)@,
        final(db)@,
        r,
        ratio,
    );
}

/// Building an index over enough rows gives one with the buckets asked for, in which every live row
/// has the bucket whose centroid scores best for it; over too few rows it leaves none.
pub proof fn law_indexing<M: VectorMath>(
    db: &mut Rek0nDb<M>,
    num_buckets: usize,
    probe_buckets: usize,
    r: Result<(), DbError>,
    id: VectorId,
)
    requires
        old(db)@.inv(),
        old(db)@.bytes.len() % 4 == 0,
        !old(db)@.read_only,
        call_ensures(Rek0nDb::<M>::build_ivf_index, (db, num_buckets, probe_buckets), r),
    ensures
        ({
            let v = old(db)@;
            let w = final(db)@;
            &&& forall|x: VectorId| #[trigger] w.fetched(x) == v.fetched(x)
            &&& num_buckets == 0 ==> r == Err::<(), DbError>(DbError::InvalidIvfBucketCount)
            &&& num_buckets > 0 ==> r is Ok
            &&& num_buckets > v.live().len() ==> w.ivf is None
            &&& 0 < num_buckets <= v.live().len() ==> (w.ivf matches Some(index) && {
                &&& index.num_buckets == num_buckets
                &&& index.probe_buckets == probe_buckets
                &&& index.assignments.contains_key(id) <==> v.live().contains(id)
                &&& v.live().contains(id) ==> scores_best(
                    old(db).math(),
                    v.row(id)->Some_0,
                    index.centroids,
                    v.dim as nat,
                    num_buckets as nat,
                    index.assignments[id],
                )
            })
        }),
{
    law_building_an_index(
        old(db).math(),
        old(db)@,
        num_buckets,
        probe_buckets,
        final(db)@,
        r,
    );
    if 0 < num_buckets <= old(db)@.live().len() {
        let index = final(db)@.ivf->Some_0;
        if old(db)@.live().contains(id) {
            assert(index.assignments[id] < num_buckets);
        }
    }
}

/// A reset store holds nothing and is as new.
pub proof fn law_resetting<M: VectorMath>(
    db: &mut Rek0nDb<M>,
    r: Result<(), DbError>,
    id: VectorId,
)
    requires
        call_ensures(Rek0nDb::<M>::reset, (db,), r),
    ensures
        r is Ok <==> !old(db)@.read_only,
        r is Err ==> r == Err::<(), DbError>(DbError::ReadOnly) && final(db)@ == old(db)@,
        r is Ok ==> {
            let w = final(db)@;
            &&& w.dim == EMBEDDING_DIM
            &&& w.next_id == 0
            &&& w.staging.len() == 0
            &&& w.bytes.len() == 0
            &&& w.ivf is None
            &&& !w.records.contains_key(id)
            &&& !w.tombstones.contains(id)
        },
{
    law_reset(old(db)@, final(db)@, r);
}

/// The queued changes are handed out in their order, and then the queue is empty; nothing else
/// changes.
pub proof fn law_handing_out_changes<M: VectorMath>(db: &mut Rek0nDb<M>, ops: Vec<DiskOp>, i: int)
    requires
        call_ensures(Rek0nDb::<M>::take_ops, (db,), ops),
    ensures
        ops@.len() == old(db)@.ops.len(),
        0 <= i < ops@.len() ==> ops@[i]@ == old(db)@.ops[i],
        final(db)@.ops.len() == 0,
        final(db)@ == (DbView { ops: final(db)@.ops, ..old(db)@ }),
{
    assert(crate::storage::op_views(ops@).len() == ops@.len());
    assert(0 <= i < ops@.len() ==> crate::storage::op_views(ops@)[i] == ops@[i]@);
}

/// A directory whose manifest and vector file are in order can be opened, and no other one that has
/// a manifest; a store opened with a shared lock, or for reading, refuses changes, and any other one
/// takes them.
pub proof fn law_opening<M: VectorMath>(
    math: M,
    image: DiskImage,
    lock: DbLockOptions,
    r: Result<Rek0nDb<M>, DbError>,
    id: VectorId,
)
    requires
        image.wf(),
    ensures
        call_ensures(Rek0nDb::<M>::open, (math, image), r) ==> opens(math, image, false, r, id),
        call_ensures(Rek0nDb::<M>::open_read_only, (math, image), r) ==> opens(
            math,
            image,
            true,
            r,
            id,
        ),
        call_ensures(Rek0nDb::<M>::open_with_options, (math, image, lock), r) ==> opens(
            math,
            image,
            lock.spec_shared(),
            r,
            id,
        ),
{
    if call_ensures(Rek0nDb::<M>::open, (math, image), r) {
        lemma_opens(math, image, false, r, id);
    }
    if call_ensures(Rek0nDb::<M>::open_read_only, (math, image), r) {
        lemma_opens(math, image, true, r, id);
    }
    if call_ensures(Rek0nDb::<M>::open_with_options, (math, image, lock), r) {
        lemma_opens(math, image, lock.spec_shared(), r, id);
    }
}

/// What opening gives: a store that knows what the manifest says, or what that of a new store says,
/// exactly where manifest and vector file are in order.
pub open spec fn opens<M: VectorMath>(
    math: M,
    image: DiskImage,
    read_only: bool,
    r: Result<Rek0nDb<M>, DbError>,
    id: VectorId,
) -> bool {
    &&& r is Ok <==> match image.manifest {
        Some(manifest) => in_order(manifest, image.vectors@.len()),
        None => image.vectors@.len() <= MAX_VECTORS_BYTES,
    }
    &&& r matches Ok(db) ==> {
        &&& db.math() == math
        &&& db@.read_only == read_only
        &&& db@.bytes == image.vectors@
        &&& db@.order == image.order
        &&& db@.staging.len() == 0
        &&& match image.manifest {
            Some(manifest) => {
                &&& db@.dim == manifest.dim
                &&& db@.next_id == manifest.next_id
                &&& db@.policy == manifest.compaction
                &&& db@.records == manifest@.records
                &&& db@.offsets == manifest@.offsets
                &&& db@.tombstones.contains(id) <==> manifest.tombstones@.contains(id)
            },
            None => db@.dim == EMBEDDING_DIM && db@.next_id == 0 && !db@.records.contains_key(id)
                && db@.ivf is None,
        }
    }
}

proof fn lemma_opens<M: VectorMath>(
    math: M,
    image: DiskImage,
    read_only: bool,
    r: Result<Rek0nDb<M>, DbError>,
    id: VectorId,
)
    requires
        image.wf(),
        crate::storage::open::open_outcome(math, image, read_only, r),
    ensures
        opens(math, image, read_only, r, id),
{
    match image.manifest {
        Some(manifest) => {
            law_opening_a_directory(math, image, manifest, read_only, r, id);
        },
        None => {
            law_opening_a_new_directory(math, image, read_only, r, id);
        },
    }
}

/// Opening a directory without a manifest writes that of a new store first, and opening any other
/// one writes nothing.
pub proof fn law_first_writes(manifest: Option<Manifest>, ops: Vec<DiskOp>)
    requires
        call_ensures(opening_ops, (&manifest,), ops),
    ensures
        manifest is Some ==> ops@.len() == 0,
        manifest is None ==> ops@.len() == 1 && (ops@[0] matches DiskOp::WriteManifest(said)
            && said@.dim == EMBEDDING_DIM && said@.next_id == 0 && said@.records.dom()
            == Set::<VectorId>::empty() && said.version == 1),
{
    assert(crate::storage::op_views(ops@).len() == ops@.len());
    if manifest is None {
        assert(crate::storage::op_views(ops@)[0] == ops@[0]@);
        assert(ops@[0].sound());
        let said = ops@[0]->WriteManifest_0;
        assert(ops@[0]@ == OpView::WriteManifest(said@));
        assert(said@.records.dom() =~= Set::<VectorId>::empty());
    }
}

} // verus!
