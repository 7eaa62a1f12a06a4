//! Benchmark configurations, reports and the computations behind them: the
//! partial-decompression plan and report, range chunk accounting, substring
//! counts, line counts and latency percentiles. Clocks stay with the caller.

use vstd::prelude::*;
use vstd::utf8::encode_utf8;
use crate::chunk_table::ChunkEntry;
use crate::chunker::ChunkerOptions;
use crate::corpus::{generate_validation_corpus, push_padded, spec_corpus, spec_padded, spec_kind_id, CorpusKind, ValidationCorpusOptions};
use crate::error::{QztError, Result};
use crate::search::spec_substring_spans;
use crate::skeleton::{open_skeleton_details, spec_skeleton_holds};
use crate::limits::spec_default_resource_limits;
use crate::writer::{pack_bytes_with_container_id, spec_pack, DenseLineIndexMode, WriterOptions};

verus! {

/// Reproducible release benchmark configuration.
#[derive(Debug, Clone, Copy, PartialEq, Eq)]
pub struct ReleaseBenchmarkOptions {
    /// Number of deterministic log lines generated for the benchmark corpus.
    pub line_count: usize,
    /// Target uncompressed QZT chunk size in bytes.
    pub chunk_size: usize,
    /// Logical byte length restored by the range-access benchmark.
    pub range_size: u64,
    /// Number of measured executions for each search query.
    pub query_repetitions: usize,
    /// Number of unmeasured warm-up executions before each query measurement.
    pub query_warmup_repetitions: usize,
}

impl Default for ReleaseBenchmarkOptions {
    fn default() -> (r: Self)
        ensures
            r.line_count == 24_000,
            r.chunk_size == 8 * 1024,
            r.range_size == 256 * 1024,
            r.query_repetitions == 5,
            r.query_warmup_repetitions == 2,
    {
        ReleaseBenchmarkOptions {
            line_count: 24_000,
            chunk_size: 8 * 1024,
            range_size: 256 * 1024,
            query_repetitions: 5,
            query_warmup_repetitions: 2,
        }
    }
}

/// Competitive benchmark smoke configuration.
#[derive(Debug, Clone, Copy, PartialEq, Eq)]
pub struct CompetitiveBenchmarkOptions {
    /// Deterministic validation-corpus family to generate.
    pub corpus_kind: CorpusKind,
    /// Requested original corpus size in bytes.
    pub corpus_bytes: usize,
    /// Target uncompressed QZT chunk size in bytes.
    pub chunk_size: usize,
    /// Zero-based logical byte offset used for range comparison.
    pub range_offset: u64,
    /// Logical byte length used for range comparison.
    pub range_size: u64,
}

impl Default for CompetitiveBenchmarkOptions {
    fn default() -> (r: Self)
        ensures
            r.corpus_kind == CorpusKind::C2Logs,
            r.corpus_bytes == 128 * 1024,
            r.chunk_size == 8 * 1024,
            r.range_offset == 16 * 1024,
            r.range_size == 4 * 1024,
    {
        CompetitiveBenchmarkOptions {
            corpus_kind: CorpusKind::C2Logs,
            corpus_bytes: 128 * 1024,
            chunk_size: 8 * 1024,
            range_offset: 16 * 1024,
            range_size: 4 * 1024,
        }
    }
}

/// Competitive benchmark smoke output.
#[derive(Debug, Clone, PartialEq)]
pub struct CompetitiveBenchmarkReport {
    pub corpus_id: &'static str,
    pub corpus_bytes: u64,
    pub qzt_bytes: u64,
    pub raw_zstd_bytes: u64,
    pub qzt_range_bytes: u64,
    pub qzt_range_decoded_chunks: u64,
    pub qzt_range_decoded_bytes: u64,
    pub qzt_range_compressed_bytes: u64,
    pub raw_zstd_decoded_bytes: u64,
    pub qzt_range_micros: u128,
    pub raw_zstd_range_micros: u128,
    pub token_hit_count: u64,
    pub reference_hit_count: u64,
    pub external_search_tools_enabled: bool,
    pub ripgrep_hit_count: Option<u64>,
    pub sqlite_fts5_hit_count: Option<u64>,
}

/// Query-level release benchmark telemetry.
#[derive(Debug, Clone, PartialEq)]
pub struct ReleaseBenchmarkQueryReport {
    pub name: &'static str,
    pub query: &'static str,
    pub iterations: usize,
    pub warmup_iterations: usize,
    pub candidate_granules: u64,
    pub candidate_chunks: u64,
    pub decoded_bytes: u64,
    pub verified_matches: u64,
    pub capped: bool,
    pub p50_query_time_micros: u128,
    pub p95_query_time_micros: u128,
    pub p99_query_time_micros: u128,
}

/// Scalable partial-decompression benchmark configuration.
#[derive(Debug, Clone, Copy, PartialEq, Eq)]
pub struct PartialDecompressionBenchmarkOptions {
    /// Deterministic validation-corpus family to generate.
    pub corpus_kind: CorpusKind,
    /// Requested original corpus size in bytes.
    pub corpus_bytes: usize,
    /// Target uncompressed QZT chunk size in bytes.
    pub chunk_size: usize,
    /// Zero-based logical byte offset to restore.
    pub range_offset: u64,
    /// Logical byte length to restore.
    pub range_size: u64,
}

/// Machine-readable evidence from a partial-decompression benchmark run.
#[derive(Debug, Clone, PartialEq)]
pub struct PartialDecompressionBenchmarkReport {
    pub corpus_id: &'static str,
    pub corpus_bytes: u64,
    pub qzt_bytes: u64,
    pub range_offset: u64,
    pub returned_bytes: u64,
    pub decoded_chunks: u64,
    pub decoded_bytes: u64,
    pub compressed_bytes: u64,
    pub range_micros: u128,
}

/// The corpus, its container and the clamped range start of a
/// partial-decompression run, ready for the timed range read.
pub struct PartialDecompressionPlan {
    pub corpus: Vec<u8>,
    pub container: Vec<u8>,
    pub range_offset: u64,
}

// ---------------------------------------------------------------------------
// Range chunk accounting
// ---------------------------------------------------------------------------

/// Chunks, original bytes and compressed bytes of the first `n` chunks that
/// meet the logical range `offset..end`.
pub open spec fn spec_range_work(es: Seq<ChunkEntry>, offset: int, end: int, n: int) -> (int, int, int)
    decreases n,
{
    if n <= 0 {
        (0, 0, 0)
    } else {
        let w = spec_range_work(es, offset, end, n - 1);
        let e = es[n - 1];
        if e.logical_offset < end && e.logical_offset + e.uncompressed_size > offset {
            (w.0 + 1, w.1 + e.uncompressed_size, w.2 + e.compressed_size)
        } else {
            w
        }
    }
}

/// Work a range read does: every chunk meeting a non-empty range is decoded.
pub struct RangeWork {
    pub decoded_chunks: u64,
    pub decoded_bytes: u64,
    pub compressed_bytes: u64,
}

/// The chunks a read of `offset..offset + length` decodes, and their original
/// and compressed sizes; nothing for an empty range.
pub fn range_work(entries: &Vec<ChunkEntry>, offset: u64, length: u64) -> (r: Result<RangeWork>)
    ensures
        length == 0 ==> (r matches Ok(w) && w.decoded_chunks == 0 && w.decoded_bytes == 0 && w.compressed_bytes == 0),
        length > 0 && offset + length > u64::MAX ==> r == Err::<RangeWork, QztError>(QztError::LogicalRangeOutOfBounds),
        length > 0 && offset + length <= u64::MAX ==> match r {
            Ok(w) => {
                let sw = spec_range_work(entries@, offset as int, offset + length, entries@.len() as int);
                w.decoded_chunks == sw.0 && w.decoded_bytes == sw.1 && w.compressed_bytes == sw.2
            },
            Err(e) => e == QztError::ResourceLimitExceeded,
        },
{
    if length == 0 {
        return Ok(RangeWork { decoded_chunks: 0, decoded_bytes: 0, compressed_bytes: 0 });
    }
    let end = crate::primitives::checked_logical_end(offset, length)?;
    let mut chunks: u64 = 0;
    let mut original: u64 = 0;
    let mut compressed: u64 = 0;
    let mut i: usize = 0;
    while i < entries.len()
        invariant
            i <= entries@.len(),
            length > 0,
            end == offset + length,
            ({
                let sw = spec_range_work(entries@, offset as int, end as int, i as int);
                chunks == sw.0 && original == sw.1 && compressed == sw.2
            }),
        decreases entries@.len() - i,
    {
        let e = &entries[i];
        if e.logical_offset < end && e.logical_offset as u128 + e.uncompressed_size as u128 > offset as u128 {
            if chunks == u64::MAX || original > u64::MAX - e.uncompressed_size || compressed > u64::MAX - e.compressed_size {
                return Err(QztError::ResourceLimitExceeded);
            }
            chunks = chunks + 1;
            original = original + e.uncompressed_size;
            compressed = compressed + e.compressed_size;
        }
        i = i + 1;
    }
    Ok(RangeWork { decoded_chunks: chunks, decoded_bytes: original, compressed_bytes: compressed })
}

// ---------------------------------------------------------------------------
// Partial decompression benchmark
// ---------------------------------------------------------------------------

/// Writer options of a partial-decompression run: fixed-size chunks, zstd level 0.
pub open spec fn spec_benchmark_writer(chunk_size: usize) -> WriterOptions {
    WriterOptions { chunker: ChunkerOptions { target_chunk_size: chunk_size, max_chunk_size: chunk_size }, zstd_level: 0 }
}

/// Generates the corpus, clamps the range start so the range fits, and packs
/// the corpus; the range read itself is timed by the caller.
pub fn prepare_partial_decompression_benchmark(options: PartialDecompressionBenchmarkOptions) -> (r: Result<PartialDecompressionPlan>)
    ensures
        options.corpus_bytes == 0 || options.chunk_size == 0 || options.range_size == 0
            ==> r == Err::<PartialDecompressionPlan, QztError>(QztError::ResourceLimitExceeded),
        r matches Ok(p) ==> {
            let c = spec_corpus(options.corpus_kind, ValidationCorpusOptions { seed: 0x46, target_bytes: options.corpus_bytes });
            &&& p.corpus@ == c
            &&& options.range_size <= c.len()
            &&& p.range_offset == (if options.range_offset < c.len() - options.range_size { options.range_offset as int } else { c.len() - options.range_size })
            &&& spec_pack(c, Seq::new(16, |i: int| 0x46u8), spec_benchmark_writer(options.chunk_size), "core"@, DenseLineIndexMode::Omit, None,
                Ok::<Seq<u8>, QztError>(p.container@))
        },
        r is Err && options.corpus_bytes > 0 && options.chunk_size > 0 && options.range_size > 0 ==> {
            let c = spec_corpus(options.corpus_kind, ValidationCorpusOptions { seed: 0x46, target_bytes: options.corpus_bytes });
            options.range_size > c.len() ==> r == Err::<PartialDecompressionPlan, QztError>(QztError::LogicalRangeOutOfBounds)
        },
{
    if options.corpus_bytes == 0 || options.chunk_size == 0 || options.range_size == 0 {
        return Err(QztError::ResourceLimitExceeded);
    }
    let corpus = generate_validation_corpus(options.corpus_kind, ValidationCorpusOptions { seed: 0x46, target_bytes: options.corpus_bytes })?;
    let corpus_bytes = corpus.len() as u64;
    if options.range_size > corpus_bytes {
        return Err(QztError::LogicalRangeOutOfBounds);
    }
    let last_start = corpus_bytes - options.range_size;
    let range_offset = if options.range_offset < last_start { options.range_offset } else { last_start };
    let writer_options = WriterOptions {
        chunker: ChunkerOptions { target_chunk_size: options.chunk_size, max_chunk_size: options.chunk_size },
        zstd_level: 0,
    };
    let id: [u8; 16] = [0x46u8; 16];
    assert(id@ =~= Seq::new(16, |i: int| 0x46u8));
    let container = pack_bytes_with_container_id(corpus.as_slice(), id, writer_options)?;
    Ok(PartialDecompressionPlan { corpus, container, range_offset })
}

/// Checks the bytes a timed range read of a plan returned against the corpus
/// and reports the run, with the chunk work of that read.
#[verifier::rlimit(40)]
pub fn partial_decompression_report(
    options: PartialDecompressionBenchmarkOptions,
    plan: &PartialDecompressionPlan,
    range: &Vec<u8>,
    range_micros: u128,
) -> (r: Result<PartialDecompressionBenchmarkReport>)
    ensures
        r matches Ok(rep) ==> {
            &&& plan.range_offset + options.range_size <= plan.corpus@.len()
            &&& range@ == plan.corpus@.subrange(plan.range_offset as int, plan.range_offset + options.range_size)
            &&& rep.corpus_id@ == spec_kind_id(options.corpus_kind)
            &&& rep.corpus_bytes == plan.corpus@.len()
            &&& rep.qzt_bytes == plan.container@.len()
            &&& rep.range_offset == plan.range_offset
            &&& rep.returned_bytes == range@.len()
            &&& rep.range_micros == range_micros
            &&& exists|d: crate::skeleton::SkeletonDetails| #[trigger] spec_skeleton_holds(plan.container@, spec_default_resource_limits(), d) && {
                let sw = spec_range_work(d.chunk_entries@, plan.range_offset as int, plan.range_offset + options.range_size, d.chunk_entries@.len() as int);
                rep.decoded_chunks == sw.0 && rep.decoded_bytes == sw.1 && rep.compressed_bytes == sw.2
            }
        },
        options.range_size == 0 ==> r == Err::<PartialDecompressionBenchmarkReport, QztError>(QztError::ResourceLimitExceeded),
        plan.range_offset + options.range_size <= plan.corpus@.len() && range@ != plan.corpus@.subrange(plan.range_offset as int, plan.range_offset + options.range_size)
            ==> r is Err,
{
    let offset = plan.range_offset;
    if options.range_size == 0 {
        return Err(QztError::ResourceLimitExceeded);
    }
    if offset > u64::MAX - options.range_size || offset + options.range_size > plan.corpus.len() as u64 {
        return Err(QztError::LogicalRangeOutOfBounds);
    }
    let end = (offset + options.range_size) as usize;
    let expected = crate::skeleton::slice_subrange(plan.corpus.as_slice(), offset as usize, end);
    if !crate::bytes_util::bytes_equal(range.as_slice(), expected) {
        return Err(QztError::ContainerCorrupt);
    }
    let details = open_skeleton_details(plan.container.as_slice())?;
    let work = range_work(&details.chunk_entries, offset, options.range_size)?;
    assert(spec_skeleton_holds(plan.container@, spec_default_resource_limits(), details));
    Ok(PartialDecompressionBenchmarkReport {
        corpus_id: options.corpus_kind.id(),
        corpus_bytes: plan.corpus.len() as u64,
        qzt_bytes: plan.container.len() as u64,
        range_offset: offset,
        returned_bytes: range.len() as u64,
        decoded_chunks: work.decoded_chunks,
        decoded_bytes: work.decoded_bytes,
        compressed_bytes: work.compressed_bytes,
        range_micros,
    })
}

// ---------------------------------------------------------------------------
// Counting helpers
// ---------------------------------------------------------------------------

/// Number of (possibly overlapping) occurrences of a non-empty `needle`.
pub fn count_substring(haystack: &[u8], needle: &[u8]) -> (r: Result<u64>)
    ensures
        r == Ok::<u64, QztError>(if needle@.len() == 0 { 0 } else { spec_substring_spans(haystack@, needle@).len() as u64 }),
{
    if needle.len() == 0 {
        return Ok(0);
    }
    let spans = crate::search::substring_spans(haystack, needle);
    proof {
        assert(crate::search::spans_view(spans@).len() == spans@.len());
    }
    Ok(spans.len() as u64)
}

/// Line feeds among the first `n` bytes.
pub open spec fn spec_lf_total(s: Seq<u8>, n: int) -> int
    decreases n,
{
    if n <= 0 { 0 } else { spec_lf_total(s, n - 1) + if s[n - 1] == 10u8 { 1int } else { 0int } }
}

/// Line feeds are never negative in number.
proof fn lemma_lf_total_nonneg(s: Seq<u8>, n: int)
    ensures
        spec_lf_total(s, n) >= 0,
    decreases n,
{
    if n > 0 {
        lemma_lf_total_nonneg(s, n - 1);
    }
}

/// Lines of a corpus: its line feeds, plus one for an unterminated last line;
/// none for an empty corpus.
pub open spec fn spec_line_count(s: Seq<u8>) -> int {
    if s.len() == 0 {
        0
    } else if s.last() == 10u8 {
        spec_lf_total(s, s.len() as int)
    } else {
        spec_lf_total(s, s.len() as int) + 1
    }
}

/// A non-empty corpus has at least one line.
pub proof fn lemma_line_count_positive(s: Seq<u8>)
    requires
        s.len() > 0,
    ensures
        spec_line_count(s) >= 1,
{
    lemma_lf_total_nonneg(s, s.len() - 1);
}

/// Number of lines of a corpus: its line feeds, plus one for an unterminated
/// last line; none for an empty corpus.
pub fn line_count_from_corpus(corpus: &[u8]) -> (r: usize)
    ensures
        r == spec_line_count(corpus@),
{
    if corpus.len() == 0 {
        return 0;
    }
    let mut count: usize = 0;
    let mut i: usize = 0;
    while i < corpus.len()
        invariant
            i <= corpus@.len(),
            count == spec_lf_total(corpus@, i as int),
            count <= i,
            i > 0 && corpus@[i - 1] != 10u8 ==> count < i,
        decreases corpus@.len() - i,
    {
        if corpus[i] == 10 {
            count = count + 1;
        }
        i = i + 1;
    }
    assert(corpus@.last() == corpus@[corpus@.len() - 1]);
    if corpus[corpus.len() - 1] == 10 {
        count
    } else {
        count + 1
    }
}

/// The sample at the nearest-rank `percentile` (clamped to 100); zero for no
/// samples.
pub open spec fn spec_percentile(samples: Seq<u128>, percentile: u64) -> u128 {
    if samples.len() == 0 {
        0
    } else {
        let p: int = if percentile > 100 { 100 } else { percentile as int };
        let rank = (p * samples.len() + 99) / 100;
        let index = if rank == 0 { 0 } else if rank - 1 > samples.len() - 1 { samples.len() - 1 } else { rank - 1 };
        samples[index]
    }
}

/// The sample at the nearest-rank `percentile` (clamped to 100) of sorted
/// samples; zero for no samples.
pub fn percentile_micros(samples: &[u128], percentile: u64) -> (r: u128)
    ensures
        r == spec_percentile(samples@, percentile),
{
    if samples.len() == 0 {
        return 0;
    }
    let p: u128 = if percentile > 100 { 100 } else { percentile as u128 };
    let len = samples.len() as u128;
    assert(p * len <= 100 * len) by (nonlinear_arith)
        requires
            p <= 100,
    ;
    let rank = (p * len + 99) / 100;
    let last = samples.len() - 1;
    let index: usize = if rank == 0 { 0 } else if rank - 1 > last as u128 { last } else { (rank - 1) as usize };
    samples[index]
}

// ---------------------------------------------------------------------------
// Release benchmark
// ---------------------------------------------------------------------------

/// The corpus, its line count, its container and the centred range start of a
/// release benchmark run, ready for the timed export, range read and searches.
pub struct ReleaseBenchmarkPlan {
    pub corpus: Vec<u8>,
    pub line_count: usize,
    pub range_offset: u64,
    pub container: Vec<u8>,
}

/// Checks the options of a release run over `corpus`, takes the line count
/// from the corpus when none is given, centres the range, and packs the corpus
/// into fixed-size chunks; the timed work is the caller's.
pub fn prepare_release_benchmark(corpus: &[u8], options: ReleaseBenchmarkOptions) -> (r: Result<ReleaseBenchmarkPlan>)
    ensures
        corpus@.len() == 0 || options.chunk_size == 0 || options.range_size == 0 || options.query_repetitions == 0
            ==> r == Err::<ReleaseBenchmarkPlan, QztError>(QztError::ResourceLimitExceeded),
        corpus@.len() > 0 && options.chunk_size > 0 && options.range_size > 0 && options.query_repetitions > 0 ==> {
            match r {
                Ok(p) => {
                    &&& p.corpus@ == corpus@
                    &&& p.line_count == (if options.line_count == 0 { spec_line_count(corpus@) } else { options.line_count as int })
                    &&& p.line_count > 0
                    &&& p.range_offset == (if corpus@.len() >= options.range_size { (corpus@.len() - options.range_size) / 2 } else { 0 })
                    &&& spec_pack(corpus@, Seq::new(16, |i: int| 0xf0u8), spec_benchmark_writer(options.chunk_size), "core"@,
                        DenseLineIndexMode::Omit, None, Ok::<Seq<u8>, QztError>(p.container@))
                },
                Err(e) => spec_pack(corpus@, Seq::new(16, |i: int| 0xf0u8), spec_benchmark_writer(options.chunk_size), "core"@,
                    DenseLineIndexMode::Omit, None, Err::<Seq<u8>, QztError>(e)),
            }
        },
{
    if corpus.len() == 0 || options.chunk_size == 0 || options.range_size == 0 || options.query_repetitions == 0 {
        return Err(QztError::ResourceLimitExceeded);
    }
    let corpus_bytes = corpus.len() as u64;
    let line_count = if options.line_count == 0 {
        proof {
            lemma_line_count_positive(corpus@);
        }
        line_count_from_corpus(corpus)
    } else {
        options.line_count
    };
    if line_count == 0 {
        return Err(QztError::ResourceLimitExceeded);
    }
    let range_offset = if corpus_bytes >= options.range_size { (corpus_bytes - options.range_size) / 2 } else { 0 };
    let writer_options = WriterOptions {
        chunker: ChunkerOptions { target_chunk_size: options.chunk_size, max_chunk_size: options.chunk_size },
        zstd_level: 0,
    };
    let id: [u8; 16] = [0xf0u8; 16];
    assert(id@ =~= Seq::new(16, |i: int| 0xf0u8));
    let packed = pack_bytes_with_container_id(corpus, id, writer_options);
    match packed {
        Ok(container) => {
            let mut copy: Vec<u8> = Vec::new();
            copy.extend_from_slice(corpus);
            Ok(ReleaseBenchmarkPlan { corpus: copy, line_count, range_offset, container })
        },
        Err(e) => Err(e),
    }
}

/// Sizes a release run reports: the corpus, its lines, the container, the
/// export, the two sidecars and the range read.
pub struct ReleaseBenchmarkCounts {
    pub corpus_bytes: u64,
    pub line_count: usize,
    pub packed_bytes: u64,
    pub exported_bytes: u64,
    pub qzi_token_bytes: u64,
    pub qzi_ngram_bytes: u64,
    pub range_bytes: u64,
}

/// Refuses a run whose export differs from the corpus, and otherwise counts
/// the bytes of every artefact the run produced.
pub fn release_benchmark_counts(
    plan: &ReleaseBenchmarkPlan,
    exported: &[u8],
    range: &[u8],
    qzi_token: &[u8],
    qzi_ngram: &[u8],
) -> (r: Result<ReleaseBenchmarkCounts>)
    ensures
        exported@ != plan.corpus@ ==> r == Err::<ReleaseBenchmarkCounts, QztError>(QztError::ContainerCorrupt),
        exported@ == plan.corpus@ ==> (r matches Ok(c) && {
            &&& c.corpus_bytes == plan.corpus@.len()
            &&& c.line_count == plan.line_count
            &&& c.packed_bytes == plan.container@.len()
            &&& c.exported_bytes == exported@.len()
            &&& c.qzi_token_bytes == qzi_token@.len()
            &&& c.qzi_ngram_bytes == qzi_ngram@.len()
            &&& c.range_bytes == range@.len()
        }),
{
    if !crate::bytes_util::bytes_equal(exported, plan.corpus.as_slice()) {
        return Err(QztError::ContainerCorrupt);
    }
    Ok(ReleaseBenchmarkCounts {
        corpus_bytes: plan.corpus.len() as u64,
        line_count: plan.line_count,
        packed_bytes: plan.container.len() as u64,
        exported_bytes: exported.len() as u64,
        qzi_token_bytes: qzi_token.len() as u64,
        qzi_ngram_bytes: qzi_ngram.len() as u64,
        range_bytes: range.len() as u64,
    })
}

/// Search telemetry of one measured run of a release query.
#[derive(Debug, Clone, Copy, PartialEq, Eq, Structural)]
pub struct ReleaseQueryMetrics {
    pub candidate_granules: u64,
    pub candidate_chunks: u64,
    pub decoded_bytes: u64,
    pub verified_matches: u64,
    pub capped: bool,
}

/// `s` is in ascending order.
pub open spec fn spec_ascending(s: Seq<u128>) -> bool {
    forall|i: int, j: int| 0 <= i <= j < s.len() ==> s[i] <= s[j]
}

/// Sorts latency samples ascending (std `slice::sort_unstable`).
#[verifier::external_body]
fn sort_samples(samples: &mut Vec<u128>)
    ensures
        final(samples)@.to_multiset() == old(samples)@.to_multiset(),
        spec_ascending(final(samples)@),
{
    samples.sort_unstable();
}

/// Summarises the measured runs of one release query: every run must report
/// the same telemetry, and the latencies are reported at the 50th, 95th and
/// 99th percentiles of the sorted samples.
pub fn release_query_report(
    name: &'static str,
    query: &'static str,
    warmup_iterations: usize,
    runs: &[ReleaseQueryMetrics],
    samples: Vec<u128>,
) -> (r: Result<ReleaseBenchmarkQueryReport>)
    ensures
        runs@.len() == 0 ==> r == Err::<ReleaseBenchmarkQueryReport, QztError>(QztError::ResourceLimitExceeded),
        runs@.len() > 0 && (exists|i: int| 0 <= i < runs@.len() && #[trigger] runs@[i] != runs@[0])
            ==> r == Err::<ReleaseBenchmarkQueryReport, QztError>(QztError::BenchmarkMetricsMismatch),
        runs@.len() > 0 && (forall|i: int| 0 <= i < runs@.len() ==> #[trigger] runs@[i] == runs@[0]) ==> (r matches Ok(rep) && {
            let m = runs@[0];
            &&& rep.name == name
            &&& rep.query == query
            &&& rep.iterations == runs@.len()
            &&& rep.warmup_iterations == warmup_iterations
            &&& rep.candidate_granules == m.candidate_granules
            &&& rep.candidate_chunks == m.candidate_chunks
            &&& rep.decoded_bytes == m.decoded_bytes
            &&& rep.verified_matches == m.verified_matches
            &&& rep.capped == m.capped
            &&& exists|sorted: Seq<u128>| {
                &&& #[trigger] spec_ascending(sorted)
                &&& sorted.to_multiset() == samples@.to_multiset()
                &&& rep.p50_query_time_micros == spec_percentile(sorted, 50)
                &&& rep.p95_query_time_micros == spec_percentile(sorted, 95)
                &&& rep.p99_query_time_micros == spec_percentile(sorted, 99)
            }
        }),
{
    if runs.len() == 0 {
        return Err(QztError::ResourceLimitExceeded);
    }
    let first = runs[0];
    let mut i: usize = 1;
    while i < runs.len()
        invariant
            1 <= i <= runs@.len(),
            first == runs@[0],
            forall|j: int| 0 <= j < i ==> #[trigger] runs@[j] == first,
        decreases runs@.len() - i,
    {
        if runs[i] != first {
            return Err(QztError::BenchmarkMetricsMismatch);
        }
        i = i + 1;
    }
    let mut sorted = samples;
    sort_samples(&mut sorted);
    let p50 = percentile_micros(sorted.as_slice(), 50);
    let p95 = percentile_micros(sorted.as_slice(), 95);
    let p99 = percentile_micros(sorted.as_slice(), 99);
    assert(spec_ascending(sorted@));
    Ok(ReleaseBenchmarkQueryReport {
        name,
        query,
        iterations: runs.len(),
        warmup_iterations,
        candidate_granules: first.candidate_granules,
        candidate_chunks: first.candidate_chunks,
        decoded_bytes: first.decoded_bytes,
        verified_matches: first.verified_matches,
        capped: first.capped,
        p50_query_time_micros: p50,
        p95_query_time_micros: p95,
        p99_query_time_micros: p99,
    })
}

/// Line `index` of the release corpus; the rare line carries the searched token.
pub open spec fn spec_release_line(index: nat, rare: bool) -> Seq<u8> {
    if rare {
        encode_utf8("aaa ts="@) + spec_padded(index, 6)
            + encode_utf8(" level=error service=qzt rare-token-unique message=needle sidecar proof line="@)
            + spec_padded(index, 6) + encode_utf8("\n"@)
    } else {
        encode_utf8("aaa ts="@) + spec_padded(index, 6)
            + encode_utf8(" level=info service=qzt component=release message=repeated benchmark corpus line="@)
            + spec_padded(index, 6) + encode_utf8("\n"@)
    }
}

/// The first `k` lines of a release corpus whose rare line is `rare`.
pub open spec fn spec_release_lines(k: nat, rare: nat) -> Seq<u8>
    decreases k,
{
    if k == 0 {
        Seq::empty()
    } else {
        spec_release_lines((k - 1) as nat, rare) + spec_release_line((k - 1) as nat, k - 1 == rare)
    }
}

/// The deterministic release corpus of `line_count` log lines, the middle one rare.
pub open spec fn spec_release_corpus(line_count: nat) -> Seq<u8> {
    spec_release_lines(line_count, line_count / 2)
}

/// Generates the deterministic release corpus: `line_count` log lines, the
/// middle one carrying a token found nowhere else.
pub fn release_corpus(line_count: usize) -> (r: Vec<u8>)
    ensures
        r@ == spec_release_corpus(line_count as nat),
{
    let rare_line = line_count / 2;
    let mut corpus: Vec<u8> = Vec::new();
    let mut index: usize = 0;
    while index < line_count
        invariant
            index <= line_count,
            rare_line == line_count / 2,
            corpus@ == spec_release_lines(index as nat, rare_line as nat),
        decreases line_count - index,
    {
        let ghost before = corpus@;
        corpus.extend_from_slice("aaa ts=".as_bytes());
        push_padded(&mut corpus, index as u64, 6);
        if index == rare_line {
            corpus.extend_from_slice(" level=error service=qzt rare-token-unique message=needle sidecar proof line=".as_bytes());
        } else {
            corpus.extend_from_slice(" level=info service=qzt component=release message=repeated benchmark corpus line=".as_bytes());
        }
        push_padded(&mut corpus, index as u64, 6);
        corpus.extend_from_slice("\n".as_bytes());
        assert(corpus@ =~= before + spec_release_line(index as nat, index == rare_line));
        index = index + 1;
    }
    corpus
}

} // verus!
