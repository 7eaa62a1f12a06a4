use qzt::chunker::ChunkerOptions;
use qzt::error::QztError;
use qzt::writer::{export_all, pack_bytes, QztStreamWriter, WriterOptions};

fn apply(sink: &mut Vec<u8>, writes: &[(u64, Vec<u8>)]) {
    for (offset, bytes) in writes {
        let start = *offset as usize;
        if sink.len() < start + bytes.len() {
            sink.resize(start + bytes.len(), 0);
        }
        sink[start..start + bytes.len()].copy_from_slice(bytes);
    }
}

fn small_chunks() -> WriterOptions {
    WriterOptions { chunker: ChunkerOptions { target_chunk_size: 8, max_chunk_size: 12 }, zstd_level: 3 }
}

#[test]
fn stream_writer_gives_the_packed_container() {
    let text = b"alpha\nbeta\nerror gamma\nno newline at the end";
    let (mut writer, header) = QztStreamWriter::new(small_chunks(), 0).expect("stream starts");
    let mut sink = Vec::new();
    apply(&mut sink, &[(0, header)]);
    for piece in text.chunks(5) {
        let writes = writer.push(piece).expect("push");
        apply(&mut sink, &writes);
    }
    let writes = writer.finish().expect("finish");
    apply(&mut sink, &writes);
    assert_eq!(sink, pack_bytes(text, small_chunks()).expect("pack"));
    assert_eq!(export_all(&sink).expect("export"), text.to_vec());
}

#[test]
fn stream_writer_of_empty_input_is_an_empty_container() {
    let (writer, header) = QztStreamWriter::new(WriterOptions::default(), 0).expect("stream starts");
    let mut sink = Vec::new();
    apply(&mut sink, &[(0, header)]);
    apply(&mut sink, &writer.finish().expect("finish"));
    assert_eq!(export_all(&sink).expect("export"), Vec::<u8>::new());
}

#[test]
fn stream_writer_refuses_a_sink_that_is_not_empty() {
    assert_eq!(QztStreamWriter::new(WriterOptions::default(), 5).err(), Some(QztError::ContainerCorrupt));
}

#[test]
fn stream_writer_refuses_invalid_chunk_options() {
    let options = WriterOptions { chunker: ChunkerOptions { target_chunk_size: 0, max_chunk_size: 8 }, zstd_level: 3 };
    assert_eq!(QztStreamWriter::new(options, 0).err(), Some(QztError::ResourceLimitExceeded));
}

#[test]
fn stream_writer_refuses_invalid_utf8_when_a_chunk_closes() {
    let (mut writer, _header) = QztStreamWriter::new(small_chunks(), 0).expect("stream starts");
    assert!(writer.push(&[0xffu8; 20]).is_err());
    assert_eq!(writer.push(b"x").err(), Some(QztError::WriterAlreadyFinished));
}
