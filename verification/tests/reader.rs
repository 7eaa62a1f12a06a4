use qzt::chunker::ChunkerOptions;
use qzt::error::QztError;
use qzt::reader::{DocumentHasher, QztFileReader, QztReader, VerifyLevel};
use qzt::schema::{Checksum, DocumentEntry, DocumentIndex};
use qzt::writer::{export_all, pack_bytes, pack_bytes_with_container_id, pack_bytes_with_document_index, WriterOptions};

fn small_chunks() -> WriterOptions {
    WriterOptions { chunker: ChunkerOptions { target_chunk_size: 8, max_chunk_size: 8 }, zstd_level: 3 }
}

const TEXT: &[u8] = b"first line\nsecond\r\nthird line here\nlast";

#[test]
fn packed_text_exports_and_reads_back_exactly() {
    let container = pack_bytes(TEXT, small_chunks()).expect("text packs");
    assert_eq!(export_all(&container).expect("container exports"), TEXT);
    let reader = QztReader::open(&container).expect("container opens");
    let info = reader.info();
    assert_eq!(info.original_size, TEXT.len() as u64);
    assert_eq!(info.line_count, 4);
    assert!(info.chunk_count > 1);
    assert_eq!(reader.export_all().expect("export"), TEXT);
    assert_eq!(reader.read_range(6, 13).expect("range"), b"line\nsecond\r\n".to_vec());
    assert_eq!(reader.read_range(0, 0).expect("empty range"), Vec::<u8>::new());
    assert_eq!(reader.read_range(30, 100), Err(QztError::LogicalRangeOutOfBounds));
    assert_eq!(reader.read_line_raw(1).expect("line"), b"second\r\n".to_vec());
    assert_eq!(reader.read_line_text(3).expect("line"), "last");
    assert_eq!(reader.read_line_raw(4), Err(QztError::LineOutOfRange));
}

#[test]
fn every_verification_level_accepts_a_fresh_container() {
    let container = pack_bytes(TEXT, small_chunks()).expect("text packs");
    let reader = QztReader::open(&container).expect("container opens");
    let chunks = reader.info().chunk_count;
    let quick = reader.verify(VerifyLevel::Quick).expect("quick");
    assert_eq!((quick.checked_chunks, quick.decoded_bytes), (chunks, 0));
    let normal = reader.verify(VerifyLevel::Normal).expect("normal");
    assert_eq!(normal.level, VerifyLevel::Normal);
    let deep = reader.verify(VerifyLevel::Deep).expect("deep");
    assert_eq!(deep.level, VerifyLevel::Deep);
    assert_eq!(deep.decoded_bytes, TEXT.len() as u64);

    let file = QztFileReader::open_read_at(container.as_slice(), container.len() as u64).expect("opens");
    assert_eq!(file.verify(VerifyLevel::Deep).expect("deep"), deep);
    assert_eq!(file.read_range(6, 13).expect("range"), b"line\nsecond\r\n".to_vec());
}

#[test]
fn document_ranges_are_read_and_verified() {
    let text = b"alpha doc\nbeta doc\n";
    let documents = DocumentIndex {
        container_id: [9; 16],
        documents: vec![
            DocumentEntry::new("b", 10, 9, 1, 1, 0, 1, Checksum::blake3(b"beta doc\n")),
            DocumentEntry::new("a", 0, 10, 0, 1, 0, 1, Checksum::blake3(b"alpha doc\n")),
        ],
    };
    let container =
        pack_bytes_with_document_index(text, [9; 16], WriterOptions::default(), &documents).expect("container packs");
    let reader = QztReader::open(&container).expect("container opens");
    assert_eq!(reader.read_document("b").expect("document"), b"beta doc\n".to_vec());
    assert_eq!(reader.read_document("zz"), Err(QztError::DocumentNotFound));
    assert!(reader.read_document_verified("a", &Checksum::blake3(b"alpha doc\n")).is_ok());
    assert_eq!(
        reader.read_document_verified("a", &Checksum::blake3(b"other")),
        Err(QztError::VerifiedChecksumMismatch)
    );
    assert_eq!(reader.verify(VerifyLevel::Deep).expect("deep").decoded_bytes, text.len() as u64);
}

#[test]
fn damaged_containers_are_refused() {
    let container = pack_bytes_with_container_id(TEXT, [1; 16], small_chunks()).expect("text packs");
    assert!(QztReader::open(&container[..container.len() - 1]).is_err());
    let mut flipped = container.clone();
    let last = flipped.len() - 1;
    flipped[last] ^= 0xff;
    assert!(QztReader::open(&flipped).is_err());
    assert!(QztReader::open(b"not a container").is_err());
}

#[test]
fn document_index_of_another_container_is_refused() {
    let text = b"alpha\nbeta\n";
    let documents = DocumentIndex {
        container_id: [8; 16],
        documents: vec![DocumentEntry::new("b", 6, 5, 1, 1, 0, 1, Checksum::blake3(b"beta\n"))],
    };
    assert_eq!(
        pack_bytes_with_document_index(text, [9; 16], WriterOptions::default(), &documents),
        Err(QztError::ContainerIdMismatch)
    );
}

#[test]
fn short_inputs_are_refused_by_their_frame() {
    assert_eq!(QztReader::open(&[0u8; 100]).err(), Some(QztError::InvalidHeader));
    assert_eq!(QztReader::open(&[0u8; 150]).err(), Some(QztError::InvalidFooterTrailer));
}

fn hasher_entry(doc_id: &str, data: &[u8], offset: u64, length: u64) -> DocumentEntry {
    let start = offset as usize;
    let end = start + length as usize;
    DocumentEntry::new(doc_id, offset, length, 0, 0, 0, 0, Checksum::blake3(&data[start..end]))
}

fn feed_in_chunks(index: &DocumentIndex, data: &[u8], chunk: usize) -> Vec<Option<[u8; 32]>> {
    let mut hasher = DocumentHasher::new(index);
    let mut offset = 0_usize;
    while offset < data.len() {
        let end = (offset + chunk).min(data.len());
        hasher.feed(offset as u64, &data[offset..end]).expect("feed should succeed");
        offset = end;
    }
    hasher.finish()
}

fn expected_digest(data: &[u8], offset: u64, length: u64) -> [u8; 32] {
    let start = offset as usize;
    let end = (offset + length) as usize;
    *blake3::hash(&data[start..end]).as_bytes()
}

#[test]
fn hashes_document_contained_in_a_single_chunk() {
    let data = b"hello world!!!!!";
    let index = DocumentIndex { container_id: [0; 16], documents: vec![hasher_entry("a", data, 6, 5)] };
    let results = feed_in_chunks(&index, data, 16);
    assert_eq!(results[0], Some(expected_digest(data, 6, 5)));
}

#[test]
fn hashes_document_spanning_multiple_chunks() {
    let data = b"abcdefghijklmnopqrstuvwxyz0123456789";
    let index = DocumentIndex { container_id: [0; 16], documents: vec![hasher_entry("a", data, 2, 30)] };
    let results = feed_in_chunks(&index, data, 4);
    assert_eq!(results[0], Some(expected_digest(data, 2, 30)));
}

#[test]
fn hashes_out_of_order_documents_by_their_original_index() {
    let data = b"abcdefghijklmnopqrstuvwxyz012345";
    let index = DocumentIndex {
        container_id: [0; 16],
        documents: vec![hasher_entry("late", data, 20, 12), hasher_entry("early", data, 0, 8)],
    };
    let results = feed_in_chunks(&index, data, 5);
    assert_eq!(results[0], Some(expected_digest(data, 20, 12)));
    assert_eq!(results[1], Some(expected_digest(data, 0, 8)));
}

#[test]
fn hashes_overlapping_documents_independently() {
    let data = b"abcdefghijklmnop";
    let index = DocumentIndex {
        container_id: [0; 16],
        documents: vec![hasher_entry("wide", data, 0, 16), hasher_entry("inner", data, 4, 6)],
    };
    let results = feed_in_chunks(&index, data, 3);
    assert_eq!(results[0], Some(expected_digest(data, 0, 16)));
    assert_eq!(results[1], Some(expected_digest(data, 4, 6)));
}

#[test]
fn empty_documents_are_excluded_from_results() {
    let data = b"abcdefgh";
    let index = DocumentIndex {
        container_id: [0; 16],
        documents: vec![hasher_entry("empty", data, 4, 0), hasher_entry("real", data, 0, 4)],
    };
    let results = feed_in_chunks(&index, data, 8);
    assert!(results[0].is_none());
    assert_eq!(results[1], Some(expected_digest(data, 0, 4)));
}

#[test]
fn partially_fed_document_has_no_digest() {
    let data = b"abcd";
    let index = DocumentIndex { container_id: [0; 16], documents: vec![hasher_entry("a", data, 0, 4)] };
    let mut hasher = DocumentHasher::new(&index);
    hasher.feed(0, b"ab").expect("first chunk fits");
    let results = hasher.finish();
    assert!(results[0].is_none());
}

#[test]
fn positioned_and_in_memory_readers_agree_on_every_range() {
    let text = b"first line\nsecond line\nthird line without end";
    let options = WriterOptions {
        chunker: ChunkerOptions { target_chunk_size: 8, max_chunk_size: 8 },
        zstd_level: 0,
    };
    let container = pack_bytes_with_container_id(text, [4; 16], options).expect("packs");
    let memory = QztReader::open(&container).expect("opens in memory");
    let file = QztFileReader::open_read_at(container.as_slice(), container.len() as u64).expect("opens positioned");
    assert_eq!(memory.info(), file.info());
    assert_eq!(memory.export_all().expect("export"), file.export_all().expect("export"));
    for offset in 0..=text.len() as u64 + 1 {
        for length in 0..=4u64 {
            assert_eq!(memory.read_range(offset, length), file.read_range(offset, length));
        }
    }
}

#[test]
fn verified_reads_accept_only_the_digest_of_the_range() {
    let container = pack_bytes(b"alpha beta gamma", WriterOptions::default()).expect("packs");
    let reader = QztReader::open(&container).expect("opens");
    let range = reader.read_range(6, 4).expect("range");
    assert_eq!(reader.read_range_verified(6, 4, &Checksum::blake3(&range)), Ok(range.clone()));
    assert_eq!(
        reader.read_range_verified(6, 4, &Checksum::blake3(b"other")),
        Err(QztError::VerifiedChecksumMismatch)
    );
    assert_eq!(reader.read_range_verified(60, 4, &Checksum::blake3(&range)), Err(QztError::LogicalRangeOutOfBounds));
}
