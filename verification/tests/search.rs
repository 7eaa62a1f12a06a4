use qzt::error::QztError;
use qzt::reader::{QztFileReader, QztReader};
use qzt::search::{
    count_chunks, decode_delta_varint_u64, early_exit_report, empty_search_metrics, encode_delta_varint_u64,
    index_size_bytes, intersect_postings, key_hash, ngram_keys_for_query, term_index_for_key, unique_query_keys,
    NgramIndexBuildOptions, PlannerDecision, RawNgramIndex, RawTokenIndex, SearchGranule, SearchOptions,
    TermDictionaryEntry, TokenIndexBuildOptions,
};
use qzt::writer::{pack_bytes_with_container_id, WriterOptions};

fn term(key: &[u8]) -> TermDictionaryEntry {
    TermDictionaryEntry {
        key: key.to_vec(),
        key_hash: key_hash(key),
        document_frequency: 0,
        granule_frequency: 0,
        posting_offset: 0,
        posting_size: 0,
        skip_offset: 0,
        skip_size: 0,
        flags: 0,
    }
}

#[test]
fn shared_search_helpers_preserve_empty_report_contract() {
    let terms = vec![term(b"needle")];
    assert_eq!(term_index_for_key(&terms, b"needle"), Some(0));
    assert_eq!(term_index_for_key(&terms, b"missing"), None);

    let metrics = empty_search_metrics("needle", "token", 25, 100);
    let planner = PlannerDecision::new(vec![b"needle".to_vec()]);
    let report = early_exit_report(metrics, planner.clone(), true, Some("test_reason"));

    assert!(report.hits.is_empty());
    assert!(report.capped);
    assert_eq!(report.planner, planner);
    assert_eq!(report.incomplete_reason, Some("test_reason"));
    assert_eq!(report.metrics.index_size_bytes, 25);
    assert_eq!(report.metrics.source_size_bytes, 100);
}

#[test]
fn shared_chunk_counter_deduplicates_overlapping_spans() {
    let granules = vec![
        SearchGranule {
            granule_id: 0,
            logical_offset: 0,
            byte_length: 4,
            chunk_start: 0,
            chunk_end: 2,
            first_line: Some(0),
            line_count: Some(1),
        },
        SearchGranule {
            granule_id: 1,
            logical_offset: 4,
            byte_length: 4,
            chunk_start: 1,
            chunk_end: 3,
            first_line: Some(1),
            line_count: Some(1),
        },
    ];

    assert_eq!(count_chunks(&granules), Ok(3));
}

#[test]
fn oversized_line_uses_legacy_granule_size_in_metrics() {
    let granule = SearchGranule {
        granule_id: 0,
        logical_offset: 0,
        byte_length: u64::from(u32::MAX) + 1,
        chunk_start: 0,
        chunk_end: 1,
        first_line: Some(0),
        line_count: Some(1),
    };
    let index = RawTokenIndex::from_parts([0; 16], granule.byte_length, vec![granule], vec![term(b"a")], vec![vec![0]])
        .expect("legacy fallback fixture should build");

    assert_eq!(index_size_bytes(&index.granules, &index.terms, &index.encoded_postings), 77);
}

#[test]
fn delta_varint_lists_round_trip() {
    let values = vec![0u64, 1, 127, 128, 300, 1 << 40, u64::MAX];
    let bytes = encode_delta_varint_u64(&values).expect("increasing list encodes");
    assert_eq!(decode_delta_varint_u64(&bytes).expect("encoded list decodes"), values);
    assert_eq!(encode_delta_varint_u64(&[]).expect("empty list encodes"), Vec::<u8>::new());
}

#[test]
fn delta_varint_rejects_unsorted_lists_and_zero_deltas() {
    assert_eq!(encode_delta_varint_u64(&[5, 5]), Err(QztError::ContainerCorrupt));
    assert_eq!(encode_delta_varint_u64(&[5, 4]), Err(QztError::ContainerCorrupt));
    assert_eq!(decode_delta_varint_u64(&[5, 0]), Err(QztError::ContainerCorrupt));
    assert_eq!(decode_delta_varint_u64(&[0x80]), Err(QztError::UnexpectedEof));
}

#[test]
fn intersection_keeps_identifiers_present_in_every_list() {
    let postings = vec![vec![1u64, 3, 5, 7], vec![3u64, 4, 5], vec![0u64, 5, 9]];
    assert_eq!(intersect_postings(&postings, &vec![0, 1, 2]), vec![5]);
    assert_eq!(intersect_postings(&postings, &vec![0, 1]), vec![3, 5]);
    assert_eq!(intersect_postings(&postings, &vec![]), Vec::<u64>::new());
}

#[test]
fn query_keys_are_lowercased_sorted_and_unique() {
    assert_eq!(unique_query_keys(b"Beta alpha BETA"), vec![b"alpha".to_vec(), b"beta".to_vec()]);
    assert_eq!(unique_query_keys(b" ,;"), Vec::<Vec<u8>>::new());
    assert_eq!(
        ngram_keys_for_query("abca", 2).expect("nonzero n"),
        vec![b"ab".to_vec(), b"bc".to_vec(), b"ca".to_vec()]
    );
    assert_eq!(ngram_keys_for_query("abc", 0), Err(QztError::ResourceLimitExceeded));
}

fn sample_container() -> Vec<u8> {
    pack_bytes_with_container_id(b"alpha beta\ngamma delta\nalpha omega\n", [7; 16], WriterOptions::default())
        .expect("container packs")
}

#[test]
fn token_search_finds_every_line_with_all_tokens() {
    let container = sample_container();
    let index = RawTokenIndex::build_from_container(&container, TokenIndexBuildOptions::default()).expect("index builds");
    let reader = QztReader::open(&container).expect("container opens");
    let report = index.search(&reader, "ALPHA", SearchOptions::default()).expect("search runs");
    let offsets: Vec<u64> = report.hits.iter().map(|h| h.logical_offset).collect();
    assert_eq!(offsets, vec![0, 23]);
    assert!(report.hits.iter().all(|h| h.byte_length == 5));
    assert!(!report.capped);

    let missing = index.search(&reader, "alpha zeta", SearchOptions::default()).expect("search runs");
    assert!(missing.hits.is_empty());
    assert_eq!(missing.planner.missing_keys, vec![b"zeta".to_vec()]);

    let empty = index.search(&reader, "  ", SearchOptions::default()).expect("search runs");
    assert_eq!(empty.incomplete_reason, Some("query_has_no_indexable_tokens"));
}

#[test]
fn ngram_search_matches_exact_substrings_on_a_positioned_source() {
    let container = sample_container();
    let options = NgramIndexBuildOptions { n: 3, ..NgramIndexBuildOptions::default() };
    let index = RawNgramIndex::build_from_container(&container, options).expect("index builds");
    let reader = QztFileReader::open_read_at(container.as_slice(), container.len() as u64).expect("container opens");
    let report = index.search_file(&reader, "mma del", SearchOptions::default()).expect("search runs");
    let offsets: Vec<u64> = report.hits.iter().map(|h| h.logical_offset).collect();
    assert_eq!(offsets, vec![13]);

    let capped = index
        .search_file(&reader, "alp", SearchOptions { max_candidate_granules: 1, ..SearchOptions::default() })
        .expect("search runs");
    assert!(capped.capped);
    assert!(capped.hits.is_empty());
    assert_eq!(capped.metrics.candidate_granules, 2);

    let short = index.search_file(&reader, "al", SearchOptions::default()).expect("search runs");
    assert_eq!(short.incomplete_reason, Some("query_shorter_than_ngram_n"));
}

#[test]
fn ngram_index_rejects_a_zero_length() {
    let container = sample_container();
    let options = NgramIndexBuildOptions { n: 0, ..NgramIndexBuildOptions::default() };
    assert_eq!(RawNgramIndex::build_from_container(&container, options).err(), Some(QztError::ResourceLimitExceeded));
}

#[test]
fn every_hit_covers_the_query_in_the_original() {
    let text = b"Alpha beta ALPHA\nbeta gamma alphabet\nalpha\n";
    let container = pack_bytes_with_container_id(text, [8; 16], WriterOptions::default()).expect("container packs");
    let reader = QztReader::open(&container).expect("container opens");

    let tokens = RawTokenIndex::build_from_container(&container, TokenIndexBuildOptions::default()).expect("index builds");
    let report = tokens.search(&reader, "alpha", SearchOptions::default()).expect("search runs");
    assert_eq!(report.hits.len(), 3);
    for hit in &report.hits {
        let bytes = &text[hit.logical_offset as usize..(hit.logical_offset + hit.byte_length) as usize];
        assert_eq!(bytes.to_ascii_lowercase(), b"alpha".to_vec());
    }

    let ngrams = RawNgramIndex::build_from_container(&container, NgramIndexBuildOptions::default()).expect("index builds");
    let report = ngrams.search(&reader, "alpha", SearchOptions::default()).expect("search runs");
    assert_eq!(report.hits.len(), 2);
    for hit in &report.hits {
        assert_eq!(&text[hit.logical_offset as usize..(hit.logical_offset + hit.byte_length) as usize], b"alpha");
    }
}

#[test]
fn empty_container_builds_empty_indexes() {
    let container = qzt::skeleton::write_empty_container([7u8; 16]).expect("empty container writes");
    let token = RawTokenIndex::build_from_container(&container, TokenIndexBuildOptions::default()).expect("token index builds");
    assert!(token.granules.is_empty());
    assert!(token.terms.is_empty());
    let ngram = RawNgramIndex::build_from_container(&container, NgramIndexBuildOptions::default()).expect("ngram index builds");
    assert!(ngram.granules.is_empty());
    assert!(ngram.terms.is_empty());
}
