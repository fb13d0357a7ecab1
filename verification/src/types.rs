//! The data that the store keeps and hands out, and the errors it reports.

use vstd::prelude::*;

use crate::bits::{bits_ge, spec_ge, ONE, ZERO};
use crate::text::{
    chars_of, decimal, law_decimal_is_digits, law_parse_decimal, parse_range, parsed, push_decimal,
    string_of,
};

verus! {

/// Stable row identifier across the persistent and the staging tier.
pub type VectorId = u32;

/// Default embedding width (all-MiniLM-L6-v2).
pub const EMBEDDING_DIM: usize = 384;

/// Default bucket count of the bucketed index.
pub const DEFAULT_IVF_BUCKETS: usize = 256;

/// Default number of centroid buckets to probe during a bucketed search.
pub const DEFAULT_IVF_PROBE: usize = 3;

/// Default dead-row ratio before lazy compaction runs: the bit pattern of 0.25.
pub const DEFAULT_COMPACT_THRESHOLD: u32 = 0x3e80_0000;

/// Largest manifest that is read or written, in bytes of JSON.
pub const MAX_MANIFEST_BYTES: usize = 268_435_456;

/// Largest chunk text that a record may carry, in bytes.
pub const MAX_RECORD_TEXT_BYTES: usize = 1_048_576;

/// Largest number of rows in the staging tier.
pub const MAX_STAGING_VECTORS: usize = 16_384;

/// Largest vector file, in bytes.
pub const MAX_VECTORS_BYTES: u64 = 8_589_934_592;

/// A single indexed vector with its metadata. Components are single-precision bit patterns.
#[derive(Debug, Clone, PartialEq)]
pub struct Point {
    pub id: VectorId,
    pub vector: Vec<u32>,
    pub record: ChunkRecord,
}

/// Metadata of one chunk of source code.
#[derive(Debug, PartialEq, Eq)]
pub struct ChunkRecord {
    pub text: String,
    pub kind: String,
    pub name: Option<String>,
    pub file_path: String,
    pub start_line: u64,
    pub end_line: u64,
}

impl Clone for ChunkRecord {
    fn clone(&self) -> (r: Self)
        ensures
            r == *self,
    {
        let name = match &self.name {
            Some(name) => Some(name.clone()),
            None => None,
        };
        ChunkRecord {
            text: self.text.clone(),
            kind: self.kind.clone(),
            name,
            file_path: self.file_path.clone(),
            start_line: self.start_line,
            end_line: self.end_line,
        }
    }
}

/// The metadata key of a chunk: its path and its two line numbers, joined by colons.
pub open spec fn metadata_key(path: Seq<char>, start: nat, end: nat) -> Seq<char> {
    path + seq![':'] + decimal(start) + seq![':'] + decimal(end)
}

impl ChunkRecord {
    pub fn metadata_id(&self) -> (r: String)
        ensures
            r@ == metadata_key(self.file_path@, self.start_line as nat, self.end_line as nat),
    {
        let mut out = self.file_path.clone();
        out.push(':');
        push_decimal(&mut out, self.start_line);
        out.push(':');
        push_decimal(&mut out, self.end_line);
        assert(out@ =~= metadata_key(
            self.file_path@,
            self.start_line as nat,
            self.end_line as nat,
        ));
        out
    }
}

/// The index of the last occurrence of `c`, or -1.
pub open spec fn last_index(s: Seq<char>, c: char) -> int
    decreases s.len(),
{
    if s.len() == 0 {
        -1
    } else if s.last() == c {
        s.len() - 1
    } else {
        last_index(s.drop_last(), c)
    }
}

/// What a metadata key says: the path and the two line numbers. At most the last two fields are
/// line numbers, so a path may itself hold colons; one line number stands for both; a field that
/// is no number counts as line 0.
pub open spec fn key_parts(key: Seq<char>) -> (Seq<char>, nat, nat) {
    let second = last_index(key, ':');
    if second < 0 {
        (key, 0, 0)
    } else {
        let head = key.take(second);
        let tail = line_number(key.skip(second + 1));
        let first = last_index(head, ':');
        if first < 0 {
            (head, tail, tail)
        } else {
            (head.take(first), line_number(head.skip(first + 1)), tail)
        }
    }
}

pub open spec fn line_number(s: Seq<char>) -> nat {
    match parsed(s, u64::MAX as nat) {
        Some(n) => n,
        None => 0,
    }
}

proof fn lemma_last_index_bounds(s: Seq<char>, c: char)
    ensures
        -1 <= last_index(s, c) < s.len(),
        last_index(s, c) >= 0 ==> s[last_index(s, c)] == c,
        forall|i: int| last_index(s, c) < i < s.len() ==> s[i] != c,
    decreases s.len(),
{
    if s.len() > 0 && s.last() != c {
        lemma_last_index_bounds(s.drop_last(), c);
        assert forall|i: int| last_index(s, c) < i < s.len() implies s[i] != c by {
            if i < s.len() - 1 {
                assert(s.drop_last()[i] != c);
            }
        }
    }
}

proof fn lemma_last_index_is(s: Seq<char>, c: char, at: int)
    requires
        0 <= at < s.len(),
        s[at] == c,
        forall|i: int| at < i < s.len() ==> s[i] != c,
    ensures
        last_index(s, c) == at,
{
    lemma_last_index_bounds(s, c);
}

/// The last position of `c` before `to`.
fn find_last(chars: &Vec<char>, to: usize, c: char) -> (r: Option<usize>)
    requires
        to <= chars@.len(),
    ensures
        match r {
            Some(i) => i == last_index(chars@.take(to as int), c) && i < to,
            None => last_index(chars@.take(to as int), c) == -1,
        },
{
    let mut i: usize = to;
    while i > 0
        invariant
            i <= to <= chars@.len(),
            forall|j: int| i <= j < to ==> chars@[j] != c,
        decreases i,
    {
        i = i - 1;
        if chars[i] == c {
            proof {
                lemma_last_index_is(chars@.take(to as int), c, i as int);
            }
            return Some(i);
        }
    }
    proof {
        lemma_last_index_bounds(chars@.take(to as int), c);
    }
    None
}

/// Builds the record of a row that is known by its metadata key only.
pub fn record_from_metadata_id(metadata_id: &str) -> (r: ChunkRecord)
    ensures
        r.text@ == Seq::<char>::empty(),
        r.kind@ == "Unknown"@,
        r.name is None,
        (r.file_path@, r.start_line as nat, r.end_line as nat) == key_parts(metadata_id@),
{
    let chars = chars_of(metadata_id);
    let len: usize = chars.len();
    assert(chars@.take(len as int) =~= metadata_id@);
    let mut path_end: usize = len;
    let mut start_line: u64 = 0;
    let mut end_line: u64 = 0;
    match find_last(&chars, len, ':') {
        None => {},
        Some(second) => {
            let tail: u64 = match parse_range(&chars, second + 1, len, u64::MAX) {
                Some(n) => n,
                None => 0,
            };
            assert(chars@.subrange(second + 1, len as int) =~= metadata_id@.skip(second + 1));
            assert(chars@.take(second as int) =~= metadata_id@.take(second as int));
            match find_last(&chars, second, ':') {
                None => {
                    path_end = second;
                    start_line = tail;
                    end_line = tail;
                },
                Some(first) => {
                    let head: u64 = match parse_range(&chars, first + 1, second, u64::MAX) {
                        Some(n) => n,
                        None => 0,
                    };
                    assert(chars@.subrange(first + 1, second as int) =~= metadata_id@.take(
                        second as int,
                    ).skip(first + 1));
                    path_end = first;
                    start_line = head;
                    end_line = tail;
                    assert(metadata_id@.take(second as int).take(first as int)
                        =~= chars@.subrange(0, first as int));
                },
            }
        },
    }
    assert(chars@.subrange(0, path_end as int) =~= chars@.take(path_end as int));
    ChunkRecord {
        text: String::new(),
        kind: "Unknown".to_owned(),
        name: None,
        file_path: string_of(&chars, 0, path_end),
        start_line,
        end_line,
    }
}

/// A record built from the metadata key of another one has its path and its lines, also where
/// the path holds colons.
pub proof fn law_metadata_key_round_trip(path: Seq<char>, start: u64, end: u64)
    ensures
        key_parts(metadata_key(path, start as nat, end as nat)) == (
            path,
            start as nat,
            end as nat,
        ),
{
    let key = metadata_key(path, start as nat, end as nat);
    let s = decimal(start as nat);
    let e = decimal(end as nat);
    law_decimal_is_digits(start as nat);
    law_decimal_is_digits(end as nat);
    law_parse_decimal(start as nat, u64::MAX as nat);
    law_parse_decimal(end as nat, u64::MAX as nat);
    let second = path.len() as int + 1 + s.len();
    assert forall|i: int| second < i < key.len() implies key[i] != ':' by {
        assert(crate::text::is_digit(e[i - second - 1]));
    }
    lemma_last_index_is(key, ':', second);
    let head = key.take(second);
    let first = path.len() as int;
    assert forall|i: int| first < i < head.len() implies head[i] != ':' by {
        assert(crate::text::is_digit(s[i - first - 1]));
    }
    lemma_last_index_is(head, ':', first);
    assert(key.skip(second + 1) =~= e);
    assert(head.skip(first + 1) =~= s);
    assert(head.take(first) =~= path);
}

/// How a metadata key is written: the path, a colon, the numeral of the first line, a colon, and
/// the numeral of the last line, with nothing before, between or behind them.
pub proof fn law_metadata_key_layout(path: Seq<char>, start: nat, end: nat)
    ensures
        ({
            let key = metadata_key(path, start, end);
            let first = path.len() as int;
            let second = first + 1 + decimal(start).len();
            &&& key.len() == second + 1 + decimal(end).len()
            &&& key.take(first) == path
            &&& key[first] == ':'
            &&& key.subrange(first + 1, second) == decimal(start)
            &&& key[second] == ':'
            &&& key.skip(second + 1) == decimal(end)
        }),
{
    let key = metadata_key(path, start, end);
    let first = path.len() as int;
    let second = first + 1 + decimal(start).len();
    assert(key.take(first) =~= path);
    assert(key.subrange(first + 1, second) =~= decimal(start));
    assert(key.skip(second + 1) =~= decimal(end));
}

/// How a metadata key is read. The last two fields behind a colon are line numbers, and whatever
/// stands before them is the path; a single field behind a colon is both line numbers; a key
/// without a colon is a path with lines 0. A field that is no number counts as line 0.
pub proof fn law_metadata_key_is_read_from_the_right(
    path: Seq<char>,
    start: Seq<char>,
    end: Seq<char>,
)
    requires
        !start.contains(':'),
        !end.contains(':'),
    ensures
        ({
            let a = match parsed(start, u64::MAX as nat) {
                Some(n) => n,
                None => 0,
            };
            let b = match parsed(end, u64::MAX as nat) {
                Some(n) => n,
                None => 0,
            };
            &&& key_parts(path + seq![':'] + start + seq![':'] + end) == (path, a, b)
            &&& !path.contains(':') ==> key_parts(path + seq![':'] + end) == (path, b, b)
            &&& !path.contains(':') ==> key_parts(path) == (path, 0nat, 0nat)
        }),
{
    let key = path + seq![':'] + start + seq![':'] + end;
    let second = path.len() as int + 1 + start.len();
    assert forall|i: int| second < i < key.len() implies key[i] != ':' by {
        assert(end.contains(end[i - second - 1]));
    }
    lemma_last_index_is(key, ':', second);
    let head = key.take(second);
    let first = path.len() as int;
    assert forall|i: int| first < i < head.len() implies head[i] != ':' by {
        assert(start.contains(start[i - first - 1]));
    }
    lemma_last_index_is(head, ':', first);
    assert(key.skip(second + 1) =~= end);
    assert(head.skip(first + 1) =~= start);
    assert(head.take(first) =~= path);
    if !path.contains(':') {
        lemma_last_index_bounds(path, ':');
        let short = path + seq![':'] + end;
        assert forall|i: int| first < i < short.len() implies short[i] != ':' by {
            assert(end.contains(end[i - first - 1]));
        }
        lemma_last_index_is(short, ':', first);
        assert(short.take(first) =~= path);
        assert(short.skip(first + 1) =~= end);
        assert(last_index(path, ':') < 0) by {
            if last_index(path, ':') >= 0 {
                assert(path.contains(path[last_index(path, ':')]));
            }
        }
    }
}

/// Structured search filter.
///
/// Filters combine freely. When every filter is `None` and `include_staging` is true, search
/// scans all live vectors.
#[derive(Debug, Clone, Copy)]
pub struct SearchScope<'a> {
    /// Restrict to an explicit set of repository paths.
    pub file_paths: Option<&'a [String]>,
    /// Restrict to paths beginning with this prefix (`src/auth/`).
    pub file_path_prefix: Option<&'a str>,
    /// Restrict to chunk kinds (`Function`, `Struct`).
    pub kinds: Option<&'a [String]>,
    /// Restrict to an explicit candidate id set.
    pub candidate_ids: Option<&'a [VectorId]>,
    /// Search the in-memory staging tier too (default: true).
    pub include_staging: bool,
}

impl<'a> Default for SearchScope<'a> {
    fn default() -> (r: Self)
        ensures
            r.unrestricted(),
            r.include_staging,
    {
        SearchScope {
            file_paths: None,
            file_path_prefix: None,
            kinds: None,
            candidate_ids: None,
            include_staging: true,
        }
    }
}

impl<'a> SearchScope<'a> {
    /// No filter is set.
    pub open spec fn unrestricted(self) -> bool {
        self.file_paths is None && self.file_path_prefix is None && self.kinds is None
            && self.candidate_ids is None
    }

    pub fn all() -> (r: Self)
        ensures
            r.unrestricted(),
            r.include_staging,
    {
        SearchScope {
            file_paths: None,
            file_path_prefix: None,
            kinds: None,
            candidate_ids: None,
            include_staging: true,
        }
    }

    pub fn is_unrestricted(&self) -> (r: bool)
        ensures
            r == self.unrestricted(),
    {
        self.file_paths.is_none() && self.file_path_prefix.is_none() && self.kinds.is_none()
            && self.candidate_ids.is_none()
    }
}

/// A scope is unrestricted exactly where none of its four filters is given; which tiers it has does
/// not count.
pub proof fn law_unrestricted_scope(scope: SearchScope<'_>, staging: bool)
    ensures
        scope.unrestricted() <==> scope.file_paths is None && scope.file_path_prefix is None
            && scope.kinds is None && scope.candidate_ids is None,
        scope.unrestricted() == (SearchScope { include_staging: staging, ..scope }).unrestricted(),
{
}

/// Search tier selection.
#[derive(Debug, Clone, Copy, PartialEq, Eq)]
pub enum AnnStrategy {
    /// Exact scores over all live vectors, or over the scoped candidates.
    Exact,
    /// Probe the nearest centroid buckets, exact scores within their union.
    Ivf { probe_buckets: usize },
    /// Graph search; reserved.
    Hnsw { ef_search: usize },
}

impl Default for AnnStrategy {
    fn default() -> (r: Self)
        ensures
            r == AnnStrategy::Exact,
    {
        AnnStrategy::Exact
    }
}

/// Lazy compaction policy: tombstones accumulate until the threshold is reached.
#[derive(Debug, Clone, Copy, PartialEq, Eq)]
pub struct CompactionPolicy {
    /// Compact when `tombstones / allocated_ids >= threshold`; a single-precision bit pattern.
    pub dead_ratio_threshold: u32,
}

impl Default for CompactionPolicy {
    fn default() -> (r: Self)
        ensures
            r.dead_ratio_threshold == DEFAULT_COMPACT_THRESHOLD,
            r.valid(),
    {
        CompactionPolicy { dead_ratio_threshold: DEFAULT_COMPACT_THRESHOLD }
    }
}

impl CompactionPolicy {
    /// The threshold is a ratio: a number between zero and one.
    pub open spec fn valid(self) -> bool {
        spec_ge(self.dead_ratio_threshold, ZERO) && spec_ge(ONE, self.dead_ratio_threshold)
    }

    pub fn validate(self) -> (r: Result<CompactionPolicy, DbError>)
        ensures
            r == (if self.valid() {
                Ok(self)
            } else {
                Err(DbError::InvalidCompactionPolicy { threshold: self.dead_ratio_threshold })
            }),
    {
        if bits_ge(self.dead_ratio_threshold, ZERO) && bits_ge(ONE, self.dead_ratio_threshold) {
            Ok(self)
        } else {
            Err(DbError::InvalidCompactionPolicy { threshold: self.dead_ratio_threshold })
        }
    }
}

/// The thresholds that are ratios, told by their patterns: everything from zero up to and
/// including one, and the zero with a sign. Nothing negative, nothing above one and nothing that is
/// not a number.
pub proof fn law_valid_thresholds(policy: CompactionPolicy)
    ensures
        policy.valid() <==> policy.dead_ratio_threshold <= 0x3f80_0000
            || policy.dead_ratio_threshold == 0x8000_0000,
{
}

#[derive(Debug, Clone, Copy, PartialEq, Eq)]
pub struct CompactionStats {
    pub vectors_before: usize,
    pub vectors_after: usize,
    pub bytes_reclaimed: u64,
}

/// Everything that the store refuses.
#[allow(inconsistent_fields)]
#[derive(Debug)]
pub enum DbError {
    /// A vector of the wrong width.
    InvalidDimension { expected: usize, got: usize },
    /// A byte length that is no whole number of words, or not the expected one.
    InvalidVectorBytes { len: usize },
    /// No record for a vector id.
    MissingMetadata { id: VectorId },
    /// A query of the wrong width.
    InvalidQuery { expected: usize, got: usize },
    /// A search limit of zero.
    InvalidSearchLimit,
    /// A bucketed search without a bucketed index.
    IvfNotBuilt,
    /// A graph search, which does not exist yet.
    HnswNotBuilt,
    /// A bucketed index needs at least one bucket.
    InvalidIvfBucketCount,
    /// Fewer live vectors than buckets.
    InsufficientVectorsForIvf { live: usize, buckets: usize },
    /// No stored row for a vector id.
    MissingOffset { id: VectorId },
    /// A change to a store that was opened for reading.
    ReadOnly,
    /// A manifest above the size limit.
    ManifestTooLarge { len: usize, max: usize },
    /// A manifest of an unknown format.
    UnsupportedManifestVersion { got: u32, expected: u32 },
    /// A vector file above the size limit.
    VectorsFileTooLarge { len: u64, max: u64 },
    /// A full staging tier.
    StagingCapacityExceeded { count: usize, max: usize },
    /// A replacement chunk that belongs to another file.
    FilePathMismatch { expected: String, got: String },
    /// No identifier left.
    IdExhausted,
    /// A chunk text above the size limit.
    RecordTextTooLarge { len: usize, max: usize },
    /// A change of width while rows are stored.
    DimensionChangeOnNonEmptyDb,
    /// A compaction threshold that is no ratio.
    InvalidCompactionPolicy { threshold: u32 },
    /// Records and offsets of a manifest name different ids.
    CorruptManifestKeyMismatch,
    /// A tombstone for an id without a record.
    CorruptManifestTombstone { id: VectorId },
    /// Two ids that share one stored row.
    DuplicateVectorOffset { offset: u64, first: VectorId, second: VectorId },
    /// A stored row that ends behind the vector file.
    CorruptVectorOffset { id: VectorId },
    /// A manifest key that is no vector id.
    InvalidManifestId { value: String },
}

} // verus!
