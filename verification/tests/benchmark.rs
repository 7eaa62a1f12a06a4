use qzt::benchmark::{
    count_substring, line_count_from_corpus, partial_decompression_report, percentile_micros,
    prepare_partial_decompression_benchmark, prepare_release_benchmark, range_work, release_benchmark_counts, release_corpus,
    release_query_report, CompetitiveBenchmarkOptions, PartialDecompressionBenchmarkOptions, ReleaseBenchmarkOptions,
    ReleaseQueryMetrics,
};
use qzt::corpus::CorpusKind;
use qzt::error::QztError;
use qzt::reader::QztReader;
use qzt::skeleton::open_skeleton_details;

fn options() -> PartialDecompressionBenchmarkOptions {
    PartialDecompressionBenchmarkOptions {
        corpus_kind: CorpusKind::C2Logs,
        corpus_bytes: 8 * 1024,
        chunk_size: 1024,
        range_offset: 1_000_000,
        range_size: 300,
    }
}

#[test]
fn partial_decompression_clamps_the_range_and_counts_the_chunks_it_decodes() {
    let plan = prepare_partial_decompression_benchmark(options()).expect("plan");
    assert_eq!(plan.range_offset, plan.corpus.len() as u64 - 300);
    let reader = QztReader::open(&plan.container).expect("container opens");
    let range = reader.read_range(plan.range_offset, 300).expect("range");
    let report = partial_decompression_report(options(), &plan, &range, 17).expect("report");
    assert_eq!(report.corpus_id, "C2");
    assert_eq!(report.returned_bytes, 300);
    assert_eq!(report.range_micros, 17);
    assert!(report.decoded_chunks >= 1 && report.decoded_chunks <= 2);
    assert!(report.decoded_bytes >= 300);

    let mut wrong = range.clone();
    wrong[0] ^= 1;
    assert_eq!(partial_decompression_report(options(), &plan, &wrong, 17).err(), Some(QztError::ContainerCorrupt));
}

#[test]
fn partial_decompression_refuses_zero_sizes_and_oversized_ranges() {
    let zero = PartialDecompressionBenchmarkOptions { range_size: 0, ..options() };
    assert_eq!(prepare_partial_decompression_benchmark(zero).err(), Some(QztError::ResourceLimitExceeded));
    let huge = PartialDecompressionBenchmarkOptions { range_size: 1 << 40, ..options() };
    assert_eq!(prepare_partial_decompression_benchmark(huge).err(), Some(QztError::LogicalRangeOutOfBounds));
}

#[test]
fn range_work_counts_only_chunks_meeting_the_range() {
    let plan = prepare_partial_decompression_benchmark(options()).expect("plan");
    let details = open_skeleton_details(&plan.container).expect("details");
    let entries = &details.chunk_entries;
    let first = &entries[0];
    let work = range_work(entries, 0, first.uncompressed_size).expect("work");
    assert_eq!((work.decoded_chunks, work.decoded_bytes, work.compressed_bytes), (1, first.uncompressed_size, first.compressed_size));
    let both = range_work(entries, first.uncompressed_size - 1, 2).expect("work");
    assert_eq!(both.decoded_chunks, 2);
    let none = range_work(entries, 5, 0).expect("work");
    assert_eq!(none.decoded_chunks, 0);
    assert!(range_work(entries, u64::MAX, 2).is_err());
}

#[test]
fn substring_counts_include_overlaps() {
    assert_eq!(count_substring(b"aaaa", b"aa"), Ok(3));
    assert_eq!(count_substring(b"abc", b""), Ok(0));
    assert_eq!(count_substring(b"ab", b"abc"), Ok(0));
}

#[test]
fn corpus_line_counts_follow_the_last_terminator() {
    assert_eq!(line_count_from_corpus(b""), 0);
    assert_eq!(line_count_from_corpus(b"a\nb\n"), 2);
    assert_eq!(line_count_from_corpus(b"a\nb"), 2);
    assert_eq!(line_count_from_corpus(b"\n\n\n"), 3);
}

#[test]
fn percentiles_use_the_nearest_rank() {
    let samples = [10u128, 20, 30, 40, 50, 60, 70, 80, 90, 100];
    assert_eq!(percentile_micros(&samples, 50), 50);
    assert_eq!(percentile_micros(&samples, 95), 100);
    assert_eq!(percentile_micros(&samples, 0), 10);
    assert_eq!(percentile_micros(&samples, 250), 100);
    assert_eq!(percentile_micros(&[], 50), 0);
}

#[test]
fn benchmark_defaults_match_their_documentation() {
    let release = ReleaseBenchmarkOptions::default();
    assert_eq!((release.line_count, release.chunk_size, release.range_size), (24_000, 8 * 1024, 256 * 1024));
    assert_eq!((release.query_repetitions, release.query_warmup_repetitions), (5, 2));
    let competitive = CompetitiveBenchmarkOptions::default();
    assert_eq!(competitive.corpus_kind, CorpusKind::C2Logs);
    assert_eq!((competitive.corpus_bytes, competitive.range_offset, competitive.range_size), (128 * 1024, 16 * 1024, 4 * 1024));
}

fn release_options(line_count: usize) -> ReleaseBenchmarkOptions {
    ReleaseBenchmarkOptions { line_count, chunk_size: 256, range_size: 100, query_repetitions: 3, query_warmup_repetitions: 1 }
}

#[test]
fn release_corpus_puts_the_rare_token_on_the_middle_line() {
    let corpus = release_corpus(3);
    let text = String::from_utf8(corpus).expect("ascii corpus");
    let lines: Vec<&str> = text.split_inclusive('\n').collect();
    assert_eq!(lines.len(), 3);
    assert_eq!(
        lines[0],
        "aaa ts=000000 level=info service=qzt component=release message=repeated benchmark corpus line=000000\n"
    );
    assert_eq!(
        lines[1],
        "aaa ts=000001 level=error service=qzt rare-token-unique message=needle sidecar proof line=000001\n"
    );
    assert!(lines[2].starts_with("aaa ts=000002 level=info"));
    assert!(release_corpus(0).is_empty());
}

#[test]
fn release_corpus_of_one_line_is_the_rare_line() {
    let corpus = release_corpus(1);
    assert!(corpus.starts_with(b"aaa ts=000000 level=error"));
    assert_eq!(line_count_from_corpus(&release_corpus(25)), 25);
}

#[test]
fn release_plan_refuses_empty_corpora_and_zero_options() {
    let corpus = release_corpus(4);
    assert_eq!(prepare_release_benchmark(b"", release_options(0)).err(), Some(QztError::ResourceLimitExceeded));
    for options in [
        ReleaseBenchmarkOptions { chunk_size: 0, ..release_options(4) },
        ReleaseBenchmarkOptions { range_size: 0, ..release_options(4) },
        ReleaseBenchmarkOptions { query_repetitions: 0, ..release_options(4) },
    ] {
        assert_eq!(prepare_release_benchmark(&corpus, options).err(), Some(QztError::ResourceLimitExceeded));
    }
}

#[test]
fn release_plan_counts_lines_centres_the_range_and_packs_the_corpus() {
    let corpus = release_corpus(10);
    let plan = prepare_release_benchmark(&corpus, release_options(0)).expect("plan");
    assert_eq!(plan.corpus, corpus);
    assert_eq!(plan.line_count, 10);
    assert_eq!(plan.range_offset, (corpus.len() as u64 - 100) / 2);
    let reader = QztReader::open(&plan.container).expect("open");
    assert_eq!(reader.export_all().expect("export"), corpus);

    let given = prepare_release_benchmark(&corpus, release_options(7)).expect("plan");
    assert_eq!(given.line_count, 7);

    let short = prepare_release_benchmark(b"abc", release_options(0)).expect("plan");
    assert_eq!(short.line_count, 1);
    assert_eq!(short.range_offset, 0);
}

#[test]
fn release_counts_refuse_an_export_that_differs_from_the_corpus() {
    let corpus = release_corpus(6);
    let plan = prepare_release_benchmark(&corpus, release_options(0)).expect("plan");
    let mut wrong = corpus.clone();
    wrong[0] = b'b';
    assert_eq!(release_benchmark_counts(&plan, &wrong, b"", b"", b"").err(), Some(QztError::ContainerCorrupt));
    let counts = release_benchmark_counts(&plan, &corpus, b"0123", b"12345", b"123456").expect("counts");
    assert_eq!(counts.corpus_bytes, corpus.len() as u64);
    assert_eq!(counts.line_count, 6);
    assert_eq!(counts.packed_bytes, plan.container.len() as u64);
    assert_eq!(counts.exported_bytes, corpus.len() as u64);
    assert_eq!(counts.range_bytes, 4);
    assert_eq!(counts.qzi_token_bytes, 5);
    assert_eq!(counts.qzi_ngram_bytes, 6);
}

fn metrics(decoded_bytes: u64) -> ReleaseQueryMetrics {
    ReleaseQueryMetrics { candidate_granules: 2, candidate_chunks: 1, decoded_bytes, verified_matches: 1, capped: false }
}

#[test]
fn release_query_reports_need_agreeing_runs() {
    assert_eq!(release_query_report("q", "x", 0, &[], vec![]).err(), Some(QztError::ResourceLimitExceeded));
    assert_eq!(
        release_query_report("q", "x", 0, &[metrics(10), metrics(11)], vec![1, 2]).err(),
        Some(QztError::BenchmarkMetricsMismatch)
    );
    let report = release_query_report("rare", "needle", 2, &[metrics(10), metrics(10), metrics(10)], vec![30, 10, 20])
        .expect("report");
    assert_eq!(report.name, "rare");
    assert_eq!(report.query, "needle");
    assert_eq!(report.iterations, 3);
    assert_eq!(report.warmup_iterations, 2);
    assert_eq!(report.decoded_bytes, 10);
    assert_eq!(report.candidate_granules, 2);
    assert_eq!(report.p50_query_time_micros, 20);
    assert_eq!(report.p95_query_time_micros, 30);
    assert_eq!(report.p99_query_time_micros, 30);
}
