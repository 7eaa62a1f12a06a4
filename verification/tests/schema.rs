use qzt::cbor::{encode_deterministic, CborValue};
use qzt::error::QztError;
use qzt::schema::{
    decode_prologue, field, optional_checksum, reject_unknown_keys, text_pair, BlockDescriptor,
    BlockRef, Checksum, DocumentEntry, DocumentIndex, FooterPayload, IndexRoot, Metadata,
    MetadataOptions, SCHEMA_DOCUMENT_INDEX, SCHEMA_FOOTER,
};
use std::collections::BTreeMap;

fn fake_checksum() -> Checksum {
    Checksum::blake3(b"refactor-test")
}

fn version() -> CborValue {
    CborValue::Array(vec![CborValue::Integer(0), CborValue::Integer(1)])
}

#[test]
fn field_skips_non_text_keys_without_allocating() {
    let map: Vec<(CborValue, CborValue)> = vec![
        (CborValue::Integer(7), CborValue::Null),
        (CborValue::Text("keep".to_owned()), CborValue::Bool(true)),
    ];
    let value = field(&map, "keep", QztError::ContainerCorrupt).expect("text key matches");
    assert_eq!(value, &CborValue::Bool(true));

    let err = field(&map, "missing", QztError::ContainerCorrupt)
        .expect_err("missing key returns the supplied error");
    assert!(matches!(err, QztError::ContainerCorrupt));
}

#[test]
fn optional_checksum_returns_none_when_key_absent() {
    let map: Vec<(CborValue, CborValue)> = Vec::new();
    let result = optional_checksum(&map, "container_checksum", QztError::InvalidFooterPayload)
        .expect("absent optional checksum is Ok(None)");
    assert!(result.is_none());
}

#[test]
fn reject_unknown_keys_keeps_allowing_listed_keys() {
    let map: Vec<(CborValue, CborValue)> = vec![
        (CborValue::Text("offset".to_owned()), CborValue::Null),
        (CborValue::Text("size".to_owned()), CborValue::Null),
    ];
    reject_unknown_keys(&map, &["offset", "size"], QztError::ContainerCorrupt)
        .expect("listed keys pass");
}

#[test]
fn block_descriptor_constructors_set_distinct_types_and_required_flag() {
    let checksum = fake_checksum();

    let chunk_table = BlockDescriptor::chunk_table(0, 1, checksum.clone());
    assert_eq!(chunk_table.block_type, "chunk_table");
    assert!(chunk_table.required);
    assert_eq!(chunk_table.codec, "qzt-ctbl-fixed-v1");
    assert_eq!(chunk_table.flags, 0);

    let dictionary = BlockDescriptor::dictionary(2, 3, checksum.clone());
    assert_eq!(dictionary.block_type, "dictionary");
    assert!(!dictionary.required);
    assert_eq!(dictionary.codec, "qzt-dict-cbor-v1");
    assert_eq!(dictionary.flags, 0);

    let dense = BlockDescriptor::dense_line_index(4, 5, checksum.clone());
    assert_eq!(dense.block_type, "dense_line_index");
    assert!(!dense.required);
    assert_eq!(dense.codec, "qzt-line-delta-varint-v1");
    assert_eq!(dense.flags, 0);

    let document = BlockDescriptor::document_index(6, 7, checksum);
    assert_eq!(document.block_type, "document_index");
    assert!(!document.required);
    assert_eq!(document.codec, "qzt-doc-index-cbor-v1");
    assert_eq!(document.flags, 0);
}

#[test]
fn metadata_for_source_defaults_dictionary_mode_to_none() {
    let container_id = [0x11_u8; 16];
    let checksum = Checksum::blake3(b"input");
    let metadata = Metadata::for_source(container_id, 42, checksum, "lf", 7);
    assert_eq!(metadata.dictionary_mode, "none");
    assert_eq!(metadata.zstd_level, MetadataOptions::default().zstd_level);
    assert_eq!(
        metadata.target_chunk_size,
        MetadataOptions::default().target_chunk_size
    );
    assert_eq!(metadata.max_chunk_size, MetadataOptions::default().max_chunk_size);
    assert_eq!(metadata.profile, MetadataOptions::default().profile);
    assert!(!metadata.dense_line_index);
    assert!(!metadata.document_index);
}

#[test]
fn metadata_empty_matches_for_source_with_zero_size_and_lf_count() {
    let container_id = [0x22_u8; 16];
    let empty = Metadata::empty(container_id);
    let for_source = Metadata::for_source(container_id, 0, Checksum::blake3(&[]), "none", 0);
    assert_eq!(empty, for_source);
}

#[test]
fn decode_prologue_rejects_unknown_keys_before_schema_check() {
    let mut unknown = BTreeMap::new();
    unknown.insert("schema".to_owned(), CborValue::Text(SCHEMA_FOOTER.to_owned()));
    unknown.insert(
        "format_version".to_owned(),
        CborValue::Array(vec![CborValue::Integer(0), CborValue::Integer(1)]),
    );
    unknown.insert(
        "unknown_field".to_owned(),
        CborValue::Text("surprise".to_owned()),
    );
    let entries: Vec<(CborValue, CborValue)> = unknown
        .into_iter()
        .map(|(k, v)| (CborValue::Text(k), v))
        .collect();
    let bytes = encode_deterministic(&CborValue::Mapping(entries)).expect("encoding succeeds");

    let err = decode_prologue(
        &bytes,
        &["schema", "format_version"],
        SCHEMA_FOOTER,
        QztError::InvalidFooterPayload,
    )
    .expect_err("unknown key is rejected");
    assert!(matches!(err, QztError::InvalidFooterPayload));
}

#[test]
fn decode_prologue_rejects_wrong_schema_name() {
    let entries = vec![
        (
            CborValue::Text("schema".to_owned()),
            CborValue::Text("qzt.not-a-schema.v1".to_owned()),
        ),
        (
            CborValue::Text("format_version".to_owned()),
            CborValue::Array(vec![CborValue::Integer(0), CborValue::Integer(1)]),
        ),
    ];
    let bytes = encode_deterministic(&CborValue::Mapping(entries)).expect("encoding succeeds");

    let err = decode_prologue(
        &bytes,
        &["schema", "format_version"],
        SCHEMA_FOOTER,
        QztError::InvalidFooterPayload,
    )
    .expect_err("schema mismatch is rejected");
    assert!(matches!(err, QztError::InvalidFooterPayload));
}

#[test]
fn decode_prologue_rejects_wrong_format_version() {
    let entries = vec![
        (
            CborValue::Text("schema".to_owned()),
            CborValue::Text(SCHEMA_FOOTER.to_owned()),
        ),
        (
            CborValue::Text("format_version".to_owned()),
            CborValue::Array(vec![CborValue::Integer(1), CborValue::Integer(0)]),
        ),
    ];
    let bytes = encode_deterministic(&CborValue::Mapping(entries)).expect("encoding succeeds");

    let err = decode_prologue(
        &bytes,
        &["schema", "format_version"],
        SCHEMA_FOOTER,
        QztError::InvalidFooterPayload,
    )
    .expect_err("format_version mismatch is rejected");
    assert!(matches!(err, QztError::InvalidFooterPayload));
}

fn document_value(entry: &DocumentEntry) -> CborValue {
    CborValue::Mapping(vec![
        text_pair("doc_id", CborValue::Text(entry.doc_id.clone())),
        text_pair("doc_id_hash", CborValue::Bytes(entry.doc_id_hash.to_vec())),
        text_pair("logical_offset", CborValue::Integer(i128::from(entry.logical_offset))),
        text_pair("byte_length", CborValue::Integer(i128::from(entry.byte_length))),
        text_pair("first_line", CborValue::Integer(i128::from(entry.first_line))),
        text_pair("line_count", CborValue::Integer(i128::from(entry.line_count))),
        text_pair("chunk_start", CborValue::Integer(i128::from(entry.chunk_start))),
        text_pair("chunk_end", CborValue::Integer(i128::from(entry.chunk_end))),
        text_pair(
            "checksum",
            CborValue::Mapping(vec![
                text_pair("algorithm", CborValue::Text(entry.checksum.algorithm.clone())),
                text_pair("value", CborValue::Bytes(entry.checksum.value.to_vec())),
            ]),
        ),
        text_pair("metadata", CborValue::Mapping(Vec::new())),
    ])
}

#[test]
fn document_index_decode_rejects_duplicate_document_ids() {
    let documents = [
        DocumentEntry::new("same", 0, 1, 0, 1, 0, 1, Checksum::blake3(b"a")),
        DocumentEntry::new("same", 1, 1, 1, 1, 1, 2, Checksum::blake3(b"b")),
    ];
    let bytes = encode_deterministic(&CborValue::Mapping(vec![
        text_pair("schema", CborValue::Text(SCHEMA_DOCUMENT_INDEX.to_owned())),
        text_pair("format_version", version()),
        text_pair("container_id", CborValue::Bytes(vec![0x38; 16])),
        text_pair(
            "documents",
            CborValue::Array(documents.iter().map(document_value).collect()),
        ),
    ]))
    .expect("fixture encoding");

    assert_eq!(DocumentIndex::decode(&bytes), Err(QztError::ContainerCorrupt));
}

#[test]
fn schema_blocks_round_trip_through_their_encodings() {
    let checksum = Checksum::blake3(b"payload");
    let footer = FooterPayload {
        container_id: [7; 16],
        index_root: BlockRef { offset: 128, size: 40, checksum: checksum.clone() },
        metadata: BlockRef { offset: 168, size: 300, checksum: checksum.clone() },
        final_file_size: 4096,
        footer_flags: 0,
        container_checksum: Some(checksum.clone()),
    };
    assert_eq!(FooterPayload::decode(&footer.encode().unwrap()), Ok(footer.clone()));

    let mut flagged = footer;
    flagged.footer_flags = 1;
    assert_eq!(FooterPayload::decode(&flagged.encode().unwrap()), Err(QztError::InvalidFlags));

    let metadata = Metadata::for_source([9; 16], 12, checksum.clone(), "crlf", 3);
    assert_eq!(Metadata::decode(&metadata.encode().unwrap()), Ok(metadata));

    let root = IndexRoot {
        container_id: [9; 16],
        blocks: vec![BlockDescriptor::chunk_table(10, 128, checksum.clone())],
        original_size: 12,
        original_checksum: checksum.clone(),
        chunk_count: 1,
        line_count: 3,
    };
    assert_eq!(IndexRoot::decode(&root.encode().unwrap()), Ok(root.clone()));
    assert_eq!(root.chunk_table_block().unwrap().offset, 10);

    let mut missing = root;
    missing.blocks = vec![BlockDescriptor::dictionary(1, 2, checksum.clone())];
    assert_eq!(
        IndexRoot::decode(&missing.encode().unwrap()),
        Err(QztError::MissingRequiredBlock)
    );

    let index = DocumentIndex {
        container_id: [1; 16],
        documents: vec![DocumentEntry::new("doc", 0, 5, 0, 1, 0, 1, checksum)],
    };
    assert_eq!(DocumentIndex::decode(&index.encode().unwrap()), Ok(index));
}

#[test]
fn document_entry_hash_is_the_blake3_prefix_of_the_id() {
    let entry = DocumentEntry::new("abc", 0, 0, 0, 0, 0, 0, Checksum::blake3(b""));
    assert_eq!(&entry.doc_id_hash[..], &blake3::hash(b"abc").as_bytes()[..16]);
    assert_eq!(entry.checksum.value, *blake3::hash(b"").as_bytes());
}
