use qzt::cbor::{encode_deterministic, validate_deterministic, CborValue};
use qzt::error::QztError;
use qzt::reader::{QztFileReader, QztReader};
use qzt::schema::{checksum_value, text_pair, Checksum};
use qzt::search::{key_hash, RawTokenIndex, SearchGranule, SearchOptions, TermDictionaryEntry, TokenIndexBuildOptions};
use qzt::sidecar::{
    build_search_sidecar, build_search_sidecar_from_file, decode_granules, decode_manifest, encode_granules, encode_manifest,
    encode_posting_section, encode_terms, validate_file_term_dictionary, GranuleEncoding, QziFileSidecar, QziSidecar,
    SectionRef, SidecarFormatVersion, SidecarIndexKind, SidecarManifest, SidecarSearchIndex, TermEncoding, SIDECAR_MAGIC,
};
use qzt::writer::{pack_bytes_with_container_id, WriterOptions};

fn checksum_fixture(label: &[u8]) -> CborValue {
    checksum_value(&Checksum::blake3(label))
}

fn section_fixture() -> CborValue {
    CborValue::Mapping(vec![
        text_pair("offset", CborValue::Integer(0)),
        text_pair("size", CborValue::Integer(0)),
        text_pair("checksum", checksum_fixture(b"section")),
    ])
}

fn manifest_fixture(high_df_per_million: CborValue) -> CborValue {
    CborValue::Mapping(vec![
        text_pair("schema", CborValue::Text("qzt.sidecar.v1".to_owned())),
        text_pair("source_container_id", CborValue::Bytes(vec![0; 16])),
        text_pair("source_format_version", CborValue::Array(vec![CborValue::Integer(0), CborValue::Integer(1)])),
        text_pair("source_original_checksum", checksum_fixture(b"source")),
        text_pair("source_qzt_footer_checksum", checksum_fixture(b"footer")),
        text_pair("index_type", CborValue::Text("token".to_owned())),
        text_pair("ngram_n", CborValue::Null),
        text_pair("complete", CborValue::Bool(true)),
        text_pair("high_df_per_million", high_df_per_million),
        text_pair(
            "index_manifest",
            CborValue::Mapping(vec![
                text_pair("index_size_bytes", CborValue::Integer(0)),
                text_pair("source_size_bytes", CborValue::Integer(0)),
            ]),
        ),
        text_pair(
            "sections",
            CborValue::Mapping(vec![
                text_pair("granules", section_fixture()),
                text_pair("terms", section_fixture()),
                text_pair("postings", section_fixture()),
            ]),
        ),
    ])
}

#[test]
fn manifest_u32_overflow_preserves_resource_limit_error() {
    let overflow = CborValue::Integer(i128::from(u32::MAX) + 1);
    let bytes = encode_deterministic(&manifest_fixture(overflow)).expect("manifest encodes");
    let err = decode_manifest(&bytes).expect_err("oversized u32 is rejected");
    assert!(matches!(err, QztError::ResourceLimitExceeded));
}

#[test]
fn manifest_rejects_unsupported_source_format_version() {
    let mut fixture = manifest_fixture(CborValue::Integer(0));
    let CborValue::Mapping(entries) = &mut fixture else {
        panic!("fixture must be a map");
    };
    for (key, value) in entries.iter_mut() {
        if key == &CborValue::Text("source_format_version".to_owned()) {
            *value = CborValue::Array(vec![CborValue::Integer(0), CborValue::Integer(2)]);
        }
    }
    let bytes = encode_deterministic(&fixture).expect("manifest encodes");
    let err = decode_manifest(&bytes).expect_err("newer minor is rejected");
    assert_eq!(err, QztError::UnsupportedVersion);
}

#[test]
fn manifest_fixture_decodes_as_a_legacy_manifest() {
    let bytes = encode_deterministic(&manifest_fixture(CborValue::Integer(7))).expect("manifest encodes");
    let manifest = decode_manifest(&bytes).expect("v1 manifest decodes");
    assert_eq!(manifest.format_version, SidecarFormatVersion::V1);
    assert_eq!(manifest.granule_encoding, GranuleEncoding::LegacyV1);
    assert_eq!(manifest.term_encoding, TermEncoding::LegacyV1);
    assert_eq!(manifest.high_df_per_million, 7);
    assert_eq!(manifest.index_type, "token");
    let again = encode_manifest(&manifest).expect("manifest re-encodes");
    assert_eq!(decode_manifest(&again).expect("re-encoded manifest decodes"), manifest);
}

#[test]
fn legacy_granule_records_remain_decodable() {
    let expected = vec![SearchGranule {
        granule_id: 0,
        logical_offset: 4,
        byte_length: 9,
        chunk_start: 2,
        chunk_end: 4,
        first_line: Some(7),
        line_count: Some(3),
    }];
    let bytes = encode_granules(&expected, GranuleEncoding::LegacyV1).expect("legacy records should encode");
    assert_eq!(decode_granules(&bytes, GranuleEncoding::LegacyV1).expect("legacy records should decode"), expected);
}

#[test]
fn compact_granule_records_round_trip_and_refuse_wide_fields() {
    let line = SearchGranule {
        granule_id: 0,
        logical_offset: 0,
        byte_length: 6,
        chunk_start: 0,
        chunk_end: 1,
        first_line: Some(0),
        line_count: Some(1),
    };
    let bytes = encode_granules(&vec![line], GranuleEncoding::LineImpliedV2).expect("compact record encodes");
    assert_eq!(bytes.len(), 8 + 20);
    assert_eq!(decode_granules(&bytes, GranuleEncoding::LineImpliedV2).expect("compact record decodes"), vec![line]);
    let wide = SearchGranule { byte_length: u64::from(u32::MAX) + 1, ..line };
    assert_eq!(encode_granules(&vec![wide], GranuleEncoding::LineImpliedV2), Err(QztError::ResourceLimitExceeded));
    assert!(decode_granules(&bytes[..20], GranuleEncoding::LineImpliedV2).is_err());
}

#[test]
fn file_term_dictionary_rejects_unsorted_bad_hash_flags_and_ranges() {
    let entry = |key: &[u8], offset: u64, size: u64| TermDictionaryEntry {
        key: key.to_vec(),
        key_hash: key_hash(key),
        document_frequency: 0,
        granule_frequency: 1,
        posting_offset: offset,
        posting_size: size,
        skip_offset: 0,
        skip_size: 0,
        flags: 0,
    };
    let valid = vec![entry(b"alpha", 0, 1), entry(b"beta", 1, 1)];
    assert!(validate_file_term_dictionary(&valid, 2, TermEncoding::LegacyV1).is_ok());

    let mut bad_hash = valid.clone();
    bad_hash[0].key_hash[0] ^= 1;
    assert_eq!(validate_file_term_dictionary(&bad_hash, 2, TermEncoding::LegacyV1), Err(QztError::ContainerCorrupt));

    let mut bad_flags = valid.clone();
    bad_flags[0].flags = 1;
    assert_eq!(validate_file_term_dictionary(&bad_flags, 2, TermEncoding::LegacyV1), Err(QztError::InvalidFlags));

    let mut bad_range = valid.clone();
    bad_range[1].posting_offset = 0;
    assert_eq!(validate_file_term_dictionary(&bad_range, 2, TermEncoding::LegacyV1), Err(QztError::ContainerCorrupt));

    let mut unsorted = valid;
    unsorted.swap(0, 1);
    assert_eq!(validate_file_term_dictionary(&unsorted, 2, TermEncoding::LegacyV1), Err(QztError::ContainerCorrupt));
}

#[test]
fn v1_sidecar_payload_remains_readable_after_v2_introduction() {
    let container = pack_bytes_with_container_id(b"alpha\nbeta\n", [0x91; 16], WriterOptions::default())
        .expect("container should pack");
    let reader = QztFileReader::open_read_at(container.as_slice(), container.len() as u64).expect("file reader should open");
    let index = RawTokenIndex::build_from_file(&reader, TokenIndexBuildOptions::default()).expect("index should build");
    let granules = encode_granules(&index.granules, GranuleEncoding::LegacyV1).expect("legacy granules should encode");
    let terms = encode_terms(&index.terms, TermEncoding::LegacyV1);
    let postings = encode_posting_section(&index.postings).expect("postings should encode");
    let terms_offset = granules.len() as u64;
    let postings_offset = terms_offset + terms.len() as u64;
    let manifest = SidecarManifest {
        source_container_id: index.container_id,
        source_original_checksum: reader.skeleton_details().metadata.original_checksum.clone(),
        source_qzt_footer_checksum: reader.footer_checksum().expect("footer checksum"),
        index_type: "token".to_owned(),
        ngram_n: None,
        complete: true,
        high_df_per_million: 200_000,
        index_size_bytes: postings_offset + postings.len() as u64,
        source_size_bytes: index.source_size_bytes,
        format_version: SidecarFormatVersion::V1,
        granule_encoding: GranuleEncoding::LegacyV1,
        term_encoding: TermEncoding::LegacyV1,
        granules: SectionRef { offset: 0, size: terms_offset, checksum: Checksum::blake3(&granules) },
        terms: SectionRef { offset: terms_offset, size: terms.len() as u64, checksum: Checksum::blake3(&terms) },
        postings: SectionRef { offset: postings_offset, size: postings.len() as u64, checksum: Checksum::blake3(&postings) },
    };
    let manifest_bytes = encode_manifest(&manifest).expect("v1 manifest should encode");
    let mut manifest_value = validate_deterministic(&manifest_bytes).expect("v1 manifest should decode");
    let CborValue::Mapping(fields) = &mut manifest_value else {
        panic!("manifest must be a map");
    };
    fields.retain(|(key, _)| {
        key != &CborValue::Text("granule_encoding".to_owned()) && key != &CborValue::Text("term_encoding".to_owned())
    });
    let manifest_bytes = encode_deterministic(&manifest_value).expect("legacy manifest should re-encode");
    let mut sidecar = Vec::new();
    sidecar.extend_from_slice(&SIDECAR_MAGIC);
    sidecar.extend_from_slice(&(manifest_bytes.len() as u64).to_le_bytes());
    sidecar.extend_from_slice(&manifest_bytes);
    sidecar.extend_from_slice(&granules);
    sidecar.extend_from_slice(&terms);
    sidecar.extend_from_slice(&postings);

    assert!(QziSidecar::open(&container, &sidecar).is_ok());
    assert!(QziFileSidecar::open_read_at(sidecar.as_slice(), sidecar.len() as u64, &reader).is_ok());
}

fn corpus_container() -> Vec<u8> {
    pack_bytes_with_container_id(b"error disk full\ninfo all good\nerror net down\n", [3; 16], WriterOptions::default())
        .expect("container packs")
}

#[test]
fn built_token_sidecar_opens_and_searches_like_the_index() {
    let container = corpus_container();
    let sidecar = build_search_sidecar(&container, SidecarIndexKind::Token).expect("sidecar builds");
    assert_eq!(&sidecar[..8], &SIDECAR_MAGIC);
    let opened = QziSidecar::open(&container, &sidecar).expect("sidecar opens");
    assert_eq!(opened.manifest.index_type, "token");
    assert_eq!(opened.manifest.format_version, SidecarFormatVersion::V2);
    assert_eq!(opened.manifest.granule_encoding, GranuleEncoding::LineImpliedV2);
    assert!(matches!(opened.index, SidecarSearchIndex::Token(_)));
    let reader = QztReader::open(&container).expect("container opens");
    let report = opened.search(&reader, "error", SearchOptions::default()).expect("search runs");
    let offsets: Vec<u64> = report.hits.iter().map(|h| h.logical_offset).collect();
    assert_eq!(offsets, vec![0, 30]);

    let file_reader = QztFileReader::open_read_at(container.as_slice(), container.len() as u64).expect("container opens");
    let again = build_search_sidecar_from_file(&file_reader, SidecarIndexKind::Token).expect("sidecar builds");
    assert_eq!(again, sidecar);
    let lazy = QziFileSidecar::open_read_at(sidecar.as_slice(), sidecar.len() as u64, &file_reader).expect("sidecar opens");
    assert_eq!(lazy.manifest().index_type, "token");
    let lazy_report = lazy.search(&file_reader, "error", SearchOptions::default()).expect("search runs");
    let lazy_offsets: Vec<u64> = lazy_report.hits.iter().map(|h| h.logical_offset).collect();
    assert_eq!(lazy_offsets, offsets);
    assert_eq!(lazy_report.metrics.candidate_granules, 2);
    assert_eq!(lazy_report.metrics.candidate_chunks, 1);
}

#[test]
fn ngram_sidecar_searches_substrings_lazily() {
    let container = corpus_container();
    let sidecar = build_search_sidecar(&container, SidecarIndexKind::Ngram { n: 3 }).expect("sidecar builds");
    let file_reader = QztFileReader::open_read_at(container.as_slice(), container.len() as u64).expect("container opens");
    let lazy = QziFileSidecar::open_read_at(sidecar.as_slice(), sidecar.len() as u64, &file_reader).expect("sidecar opens");
    assert_eq!(lazy.manifest().ngram_n, Some(3));
    let report = lazy.search(&file_reader, "et do", SearchOptions::default()).expect("search runs");
    let offsets: Vec<u64> = report.hits.iter().map(|h| h.logical_offset).collect();
    assert_eq!(offsets, vec![37]);
    let missing = lazy.search(&file_reader, "zzz", SearchOptions::default()).expect("search runs");
    assert!(missing.hits.is_empty());
    assert_eq!(missing.planner.missing_keys.len(), 1);
    assert_eq!(build_search_sidecar(&container, SidecarIndexKind::Ngram { n: 0 }).err(), Some(QztError::ResourceLimitExceeded));
}

#[test]
fn sidecar_open_refuses_bad_headers_other_containers_and_tampering() {
    let container = corpus_container();
    let sidecar = build_search_sidecar(&container, SidecarIndexKind::Token).expect("sidecar builds");
    assert_eq!(QziSidecar::open(&container, &sidecar[..10]).err(), Some(QztError::InvalidHeader));
    let mut bad_magic = sidecar.clone();
    bad_magic[0] ^= 1;
    assert_eq!(QziSidecar::open(&container, &bad_magic).err(), Some(QztError::InvalidHeader));

    let other = pack_bytes_with_container_id(b"error disk full\ninfo all good\nerror net down\n", [4; 16], WriterOptions::default())
        .expect("container packs");
    assert_eq!(QziSidecar::open(&other, &sidecar).err(), Some(QztError::ContainerIdMismatch));

    let mut tampered = sidecar.clone();
    let last = tampered.len() - 1;
    tampered[last] ^= 1;
    assert_eq!(QziSidecar::open(&container, &tampered).err(), Some(QztError::ContainerCorrupt));

    let file_reader = QztFileReader::open_read_at(container.as_slice(), container.len() as u64).expect("container opens");
    assert_eq!(QziFileSidecar::open_read_at(&sidecar[..4], 4, &file_reader).err(), Some(QztError::InvalidHeader));
    assert_eq!(
        QziFileSidecar::open_read_at(tampered.as_slice(), tampered.len() as u64, &file_reader).err(),
        Some(QztError::ContainerCorrupt)
    );
}

#[test]
fn empty_container_sidecar_searches_without_reading_postings() {
    let container = qzt::skeleton::write_empty_container([9u8; 16]).expect("empty container writes");
    let sidecar = build_search_sidecar(&container, SidecarIndexKind::Token).expect("sidecar builds");
    assert_eq!(&sidecar[..8], &SIDECAR_MAGIC[..]);
    let reader = QztFileReader::open_read_at(container.as_slice(), container.len() as u64).expect("container opens");
    let file = QziFileSidecar::open_read_at(sidecar.as_slice(), sidecar.len() as u64, &reader).expect("sidecar opens");
    let report = file.search(&reader, "missing", SearchOptions::default()).expect("search answers");
    assert!(report.hits.is_empty());
    assert_eq!(report.planner.missing_keys.len(), 1);
    assert_eq!(report.planner.missing_keys[0], b"missing".to_vec());
}
