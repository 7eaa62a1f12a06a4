use qzt::chunk_table::ChunkEntry;
use qzt::dense_line_index::{line_start_offsets, reserve_exact, DenseLineEntry, DenseLineIndex};
use qzt::error::QztError;

fn entry(chunk_id: u64, logical_offset: u64, size: u64, line_count: u64, flags: u32) -> ChunkEntry {
    ChunkEntry {
        chunk_id,
        physical_offset: 0,
        compressed_size: 1,
        logical_offset,
        uncompressed_size: size,
        first_line: 0,
        line_count,
        dictionary_id: 0,
        flags,
        compressed_checksum_blake3: [0; 32],
        uncompressed_checksum_blake3: [0; 32],
    }
}

#[test]
fn reservation_failure_is_a_regular_error() {
    assert_eq!(
        reserve_exact(&mut Vec::<DenseLineEntry>::new(), usize::MAX),
        Err(QztError::ResourceLimitExceeded)
    );
    assert_eq!(
        reserve_exact(&mut Vec::<u64>::new(), usize::MAX),
        Err(QztError::ResourceLimitExceeded)
    );
}

#[test]
fn line_starts_skip_a_trailing_newline_and_honour_continuation() {
    assert_eq!(line_start_offsets(b"ab\ncd\n", 0).unwrap(), vec![0, 3]);
    assert_eq!(line_start_offsets(b"ab\ncd\n", 1).unwrap(), vec![3]);
    assert_eq!(line_start_offsets(b"", 0).unwrap(), Vec::<u64>::new());
}

#[test]
fn dense_index_round_trips_through_its_encoding() {
    let input = b"one\ntwo\nthree\nfour";
    let entries = vec![entry(0, 0, 8, 2, 0), entry(1, 8, 10, 2, 0)];
    let index = DenseLineIndex::from_original_bytes(input, &entries).unwrap();
    assert_eq!(index.entries[0].line_start_offsets, vec![0, 4]);
    assert_eq!(index.entries[1].line_start_offsets, vec![0, 6]);
    let bytes = index.encode().unwrap();
    assert_eq!(bytes, vec![2, 0, 2, 0, 4, 1, 2, 0, 6]);
    let decoded = DenseLineIndex::decode_for_chunks(&bytes, &entries).unwrap();
    assert_eq!(decoded, index);
    assert_eq!(decoded.line_start_offset(1, 1), Ok(6));
    assert_eq!(decoded.line_start_offset(1, 2), Err(QztError::LineOutOfRange));
    assert_eq!(decoded.verify_chunk(1, b"three\nfour", 0), Ok(()));
    assert_eq!(decoded.verify_chunk(1, b"three four", 0), Err(QztError::ChunkTableInvalid));
}

#[test]
fn dense_index_rejects_count_mismatch_and_trailing_bytes() {
    let input = b"one\ntwo\n";
    let entries = vec![entry(0, 0, 8, 3, 0)];
    assert_eq!(
        DenseLineIndex::from_original_bytes(input, &entries),
        Err(QztError::ChunkTableInvalid)
    );
    let entries = vec![entry(0, 0, 8, 2, 0)];
    assert_eq!(
        DenseLineIndex::decode_for_chunks(&[1, 0, 2, 0, 4, 9], &entries),
        Err(QztError::ChunkTableInvalid)
    );
    assert_eq!(
        DenseLineIndex::decode_for_chunks(&[1, 0, 2, 0, 4], &entries).unwrap().entries[0]
            .line_start_offsets,
        vec![0, 4]
    );
    assert_eq!(
        DenseLineIndex::from_original_bytes(input, &[entry(0, 4, 8, 1, 0)]),
        Err(QztError::ContainerCorrupt)
    );
}

#[test]
fn dense_index_limit_charges_entries_by_their_size_in_memory() {
    let input = b"one\ntwo\nthree\nfour";
    let entries = vec![entry(0, 0, 8, 2, 0), entry(1, 8, 10, 2, 0)];
    let bytes = DenseLineIndex::from_original_bytes(input, &entries).unwrap().encode().unwrap();
    let need = (2 * std::mem::size_of::<DenseLineEntry>() + 4 * std::mem::size_of::<u64>()) as u64;
    assert!(DenseLineIndex::decode_for_chunks_with_limit(&bytes, &entries, need).is_ok());
    assert_eq!(
        DenseLineIndex::decode_for_chunks_with_limit(&bytes, &entries, need - 1),
        Err(QztError::ResourceLimitExceeded)
    );
    assert_eq!(
        DenseLineIndex::decode_for_chunks_with_limit(&bytes, &entries, 2 * std::mem::size_of::<DenseLineEntry>() as u64 - 1),
        Err(QztError::ResourceLimitExceeded)
    );
}
