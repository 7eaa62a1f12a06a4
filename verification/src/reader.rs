//! Readers over an opened container: export, byte ranges, documents, lines
//! and verification.

use vstd::prelude::*;
use crate::bytes_util::{bytes_equal, extend_bytes, slice_to_vec, text_from_utf8};
use crate::chunk_table::{spec_table_consistent, ChunkEntry, STARTS_WITH_LINE_CONTINUATION};
use crate::codec::{zstd_decode_limited, zstd_decode_prefix};
use crate::error::{QztError, Result};
use crate::hashing::blake3_digest;
use crate::io::ReadAt;
use crate::limits::{spec_default_resource_limits, ResourceLimits};
use crate::schema::{Checksum, DictionaryEntry, DocumentEntry, DocumentIndex};
use crate::skeleton::{
    open_skeleton_details_read_at, open_skeleton_details_with_limits, positioned_source,
    slice_source, spec_file_bytes, spec_io_failure, spec_region, spec_skeleton_error,
    spec_no_dense_block, spec_open_failure, spec_skeleton_holds, BlockSource, SkeletonDetails,
};

verus! {

// ---------------------------------------------------------------------------
// Decoding one chunk
// ---------------------------------------------------------------------------

/// The bytes of the first dictionary with id `id`.
pub open spec fn spec_find_dictionary(dicts: Seq<DictionaryEntry>, id: u32) -> Option<Seq<u8>>
    decreases dicts.len(),
{
    if dicts.len() == 0 {
        None
    } else if dicts[0].dictionary_id == id {
        Some(dicts[0].bytes@)
    } else {
        spec_find_dictionary(dicts.drop_first(), id)
    }
}

/// The decoded bytes of chunk `e` of container `s` whose dictionaries are
/// `dicts`, or the error decoding it raises: the compressed bytes' digest, the
/// dictionary, the zstd frame read to at most one byte past the recorded size,
/// the size and the digest of the decoded bytes.
pub open spec fn spec_decode_entry(s: Seq<u8>, dicts: Seq<DictionaryEntry>, e: ChunkEntry) -> Result<Seq<u8>> {
    match spec_region(s, e.physical_offset, e.compressed_size) {
        Err(x) => Err(x),
        Ok(c) => if blake3_digest(c) != e.compressed_checksum_blake3@ {
            Err(QztError::CompressedChunkChecksumMismatch)
        } else {
            let dictionary = if e.dictionary_id == 0 {
                Some(Seq::<u8>::empty())
            } else {
                spec_find_dictionary(dicts, e.dictionary_id)
            };
            match dictionary {
                None => Err(QztError::MissingDictionary),
                Some(dict) => if e.uncompressed_size > usize::MAX || e.uncompressed_size + 1 > u64::MAX {
                    Err(QztError::ResourceLimitExceeded)
                } else {
                    match zstd_decode_prefix(c, dict, (e.uncompressed_size + 1) as u64) {
                        None => Err(QztError::ZstdDecodeError),
                        Some(out) => if out.len() > e.uncompressed_size {
                            Err(QztError::ResourceLimitExceeded)
                        } else if out.len() != e.uncompressed_size {
                            Err(QztError::ChunkSizeMismatch)
                        } else if blake3_digest(out) != e.uncompressed_checksum_blake3@ {
                            Err(QztError::UncompressedChunkChecksumMismatch)
                        } else {
                            Ok(out)
                        },
                    }
                },
            }
        },
    }
}

fn find_dictionary<'a>(dicts: &'a Vec<DictionaryEntry>, id: u32) -> (r: Option<&'a [u8]>)
    ensures
        match (r, spec_find_dictionary(dicts@, id)) {
            (Some(b), Some(sb)) => b@ == sb,
            (None, None) => true,
            _ => false,
        },
{
    let mut i: usize = 0;
    assert(dicts@.subrange(0, dicts@.len() as int) =~= dicts@);
    while i < dicts.len()
        invariant
            i <= dicts@.len(),
            spec_find_dictionary(dicts@, id) == spec_find_dictionary(dicts@.subrange(i as int, dicts@.len() as int), id),
        decreases dicts@.len() - i,
    {
        let ghost rest = dicts@.subrange(i as int, dicts@.len() as int);
        assert(rest.drop_first() =~= dicts@.subrange(i + 1, dicts@.len() as int));
        if dicts[i].dictionary_id == id {
            return Some(dicts[i].bytes.as_slice());
        }
        i = i + 1;
    }
    None
}

/// Decodes chunk `entry`, checking both of its digests and its size.
pub(crate) fn decode_entry<S: BlockSource>(src: &S, dicts: &Vec<DictionaryEntry>, entry: &ChunkEntry) -> (r: Result<Vec<u8>>)
    ensures
        match (r, spec_decode_entry(src.spec_bytes(), dicts@, *entry)) {
            (Ok(d), Ok(sd)) => d@ == sd,
            (Err(e), Err(se)) => e == se || (!src.spec_exact() && spec_io_failure(e)),
            (Err(e), Ok(_)) => !src.spec_exact() && spec_io_failure(e),
            _ => false,
        },
{
    let compressed = src.fetch(entry.physical_offset, entry.compressed_size)?;
    let actual = Checksum::blake3(compressed.as_slice());
    if !bytes_equal(&actual.value, &entry.compressed_checksum_blake3) {
        return Err(QztError::CompressedChunkChecksumMismatch);
    }
    let empty: [u8; 0] = [];
    let dictionary: &[u8] = if entry.dictionary_id == 0 {
        assert(empty@ =~= Seq::<u8>::empty());
        empty.as_slice()
    } else {
        match find_dictionary(dicts, entry.dictionary_id) {
            Some(d) => d,
            None => {
                return Err(QztError::MissingDictionary);
            },
        }
    };
    if entry.uncompressed_size as u128 > usize::MAX as u128 || entry.uncompressed_size == u64::MAX {
        return Err(QztError::ResourceLimitExceeded);
    }
    let decoded = match zstd_decode_limited(compressed.as_slice(), dictionary, entry.uncompressed_size + 1) {
        Some(d) => d,
        None => {
            return Err(QztError::ZstdDecodeError);
        },
    };
    if decoded.len() as u64 > entry.uncompressed_size {
        return Err(QztError::ResourceLimitExceeded);
    }
    if decoded.len() as u64 != entry.uncompressed_size {
        return Err(QztError::ChunkSizeMismatch);
    }
    let digest = Checksum::blake3(decoded.as_slice());
    if !bytes_equal(&digest.value, &entry.uncompressed_checksum_blake3) {
        return Err(QztError::UncompressedChunkChecksumMismatch);
    }
    Ok(decoded)
}

// ---------------------------------------------------------------------------
// Byte ranges of the original
// ---------------------------------------------------------------------------

/// The part of `offset..end` that chunks `k..` of `es` cover, decoded and in
/// order, or the first error decoding one of the chunks that meet the range
/// raises. Chunks that end before `offset` are not decoded; the walk stops at
/// the first chunk that starts at or after `end`.
pub open spec fn spec_read_chunks(
    s: Seq<u8>,
    dicts: Seq<DictionaryEntry>,
    es: Seq<ChunkEntry>,
    k: int,
    offset: u64,
    end: u64,
) -> Result<Seq<u8>>
    decreases es.len() - k,
{
    if k < 0 || k >= es.len() || es[k].logical_offset >= end {
        Ok(Seq::empty())
    } else {
        let e = es[k];
        let chunk_end = e.logical_offset + e.uncompressed_size;
        if chunk_end <= offset {
            spec_read_chunks(s, dicts, es, k + 1, offset, end)
        } else {
            match spec_decode_entry(s, dicts, e) {
                Err(x) => Err(x),
                Ok(out) => {
                    let lo = (if offset > e.logical_offset { offset as int } else { e.logical_offset as int }) - e.logical_offset;
                    let hi = (if end < chunk_end { end as int } else { chunk_end }) - e.logical_offset;
                    match spec_read_chunks(s, dicts, es, k + 1, offset, end) {
                        Err(x) => Err(x),
                        Ok(rest) => Ok(out.subrange(lo, hi) + rest),
                    }
                },
            }
        }
    }
}

/// The original bytes `offset..offset + length` of container `s` opened as
/// `d`, or the error reading them raises.
pub open spec fn spec_read_range(s: Seq<u8>, d: SkeletonDetails, offset: u64, length: u64) -> Result<Seq<u8>> {
    if offset + length > u64::MAX || offset + length > d.summary.original_size {
        Err(QztError::LogicalRangeOutOfBounds)
    } else if length == 0 {
        Ok(Seq::empty())
    } else {
        match spec_read_chunks(s, d.dictionaries@, d.chunk_entries@, 0, offset, (offset + length) as u64) {
            Err(x) => Err(x),
            Ok(out) => if out.len() != length {
                Err(QztError::ContainerCorrupt)
            } else {
                Ok(out)
            },
        }
    }
}

proof fn lemma_read_chunks_skip(
    s: Seq<u8>,
    dicts: Seq<DictionaryEntry>,
    es: Seq<ChunkEntry>,
    k: int,
    start: int,
    offset: u64,
    end: u64,
)
    requires
        0 <= k <= start <= es.len(),
        offset < end,
        forall|j: int| k <= j < start ==> #[trigger] es[j].logical_offset + es[j].uncompressed_size <= offset,
    ensures
        spec_read_chunks(s, dicts, es, k, offset, end) == spec_read_chunks(s, dicts, es, start, offset, end),
    decreases start - k,
{
    if k < start {
        assert(es[k].logical_offset + es[k].uncompressed_size <= offset);
        lemma_read_chunks_skip(s, dicts, es, k + 1, start, offset, end);
    }
}

/// The first chunk that ends after `offset`.
pub(crate) fn range_start_chunk_index(entries: &Vec<ChunkEntry>, offset: u64, Ghost(original_size): Ghost<u64>, Ghost(line_count): Ghost<u64>) -> (r: usize)
    requires
        spec_table_consistent(entries@, original_size, line_count),
    ensures
        r <= entries@.len(),
        forall|j: int| 0 <= j < r ==> #[trigger] entries@[j].logical_offset + entries@[j].uncompressed_size <= offset,
        r < entries@.len() ==> entries@[r as int].logical_offset + entries@[r as int].uncompressed_size > offset,
{
    let mut low: usize = 0;
    let mut high: usize = entries.len();
    while low < high
        invariant
            low <= high <= entries@.len(),
            spec_table_consistent(entries@, original_size, line_count),
            forall|j: int| 0 <= j < low ==> #[trigger] entries@[j].logical_offset + entries@[j].uncompressed_size <= offset,
            forall|j: int| high <= j < entries@.len() ==> #[trigger] entries@[j].logical_offset + entries@[j].uncompressed_size > offset,
        decreases high - low,
    {
        let mid = low + (high - low) / 2;
        proof {
            crate::chunk_table::lemma_consistent_inside(entries@, original_size, line_count, mid as int);
        }
        let chunk_end = entries[mid].logical_offset + entries[mid].uncompressed_size;
        if chunk_end <= offset {
            proof {
                assert forall|j: int| 0 <= j < mid + 1 implies #[trigger] entries@[j].logical_offset + entries@[j].uncompressed_size <= offset by {
                    if j < mid {
                        crate::chunk_table::lemma_consistent_order(entries@, original_size, line_count, j, mid as int);
                    }
                }
            }
            low = mid + 1;
        } else {
            proof {
                assert forall|j: int| mid <= j < entries@.len() implies #[trigger] entries@[j].logical_offset + entries@[j].uncompressed_size > offset by {
                    if j > mid {
                        crate::chunk_table::lemma_consistent_order(entries@, original_size, line_count, mid as int, j);
                    }
                }
            }
            high = mid;
        }
    }
    low
}

/// Reads original bytes `offset..offset + length`, decoding only the chunks
/// that meet the range.
pub(crate) fn read_range_from_entries<S: BlockSource>(
    src: &S,
    details: &SkeletonDetails,
    offset: u64,
    length: u64,
) -> (r: Result<Vec<u8>>)
    requires
        spec_table_consistent(details.chunk_entries@, details.summary.original_size, details.summary.line_count),
    ensures
        match (r, spec_read_range(src.spec_bytes(), *details, offset, length)) {
            (Ok(b), Ok(sb)) => b@ == sb,
            (Err(e), Err(se)) => e == se || (!src.spec_exact() && spec_io_failure(e)),
            (Err(e), Ok(_)) => !src.spec_exact() && spec_io_failure(e),
            _ => false,
        },
{
    let entries = &details.chunk_entries;
    let ghost es = entries@;
    let ghost dicts = details.dictionaries@;
    let ghost s = src.spec_bytes();
    let ghost original_size = details.summary.original_size;
    let ghost line_count = details.summary.line_count;
    let end = crate::primitives::checked_logical_end(offset, length)?;
    if end > details.summary.original_size {
        return Err(QztError::LogicalRangeOutOfBounds);
    }
    if length == 0 {
        return Ok(Vec::new());
    }
    let start = range_start_chunk_index(entries, offset, Ghost(original_size), Ghost(line_count));
    proof {
        lemma_read_chunks_skip(s, dicts, es, 0, start as int, offset, end);
    }
    let mut output: Vec<u8> = Vec::new();
    let mut index = start;
    while index < entries.len() && entries[index].logical_offset < end
        invariant
            start <= index <= es.len(),
            es == entries@,
            offset < end,
            spec_table_consistent(es, original_size, line_count),
            start < es.len() ==> es[start as int].logical_offset + es[start as int].uncompressed_size > offset,
            spec_read_chunks(s, dicts, es, 0, offset, end) == match spec_read_chunks(s, dicts, es, index as int, offset, end) {
                Ok(rest) => Ok(output@ + rest),
                Err(x) => Err::<Seq<u8>, QztError>(x),
            },
            s == src.spec_bytes(),
            dicts == details.dictionaries@,
            es == details.chunk_entries@,
            original_size == details.summary.original_size,
            end == offset + length,
            end <= original_size,
            length > 0,
        decreases es.len() - index,
    {
        let entry = &entries[index];
        proof {
            crate::chunk_table::lemma_consistent_inside(es, original_size, line_count, index as int);
            if index > start {
                crate::chunk_table::lemma_consistent_order(es, original_size, line_count, start as int, index as int);
            }
        }
        let chunk_end = entry.logical_offset + entry.uncompressed_size;
        let decoded = match decode_entry(src, &details.dictionaries, entry) {
            Ok(d) => d,
            Err(e) => {
                proof {
                    assert(es[index as int].logical_offset + es[index as int].uncompressed_size > offset);
                    assert(es[index as int].logical_offset < end);
                    if spec_decode_entry(s, dicts, es[index as int]) is Err {
                        assert(spec_read_chunks(s, dicts, es, index as int, offset, end) == spec_decode_entry(s, dicts, es[index as int]));
                    }
                }
                return Err(e);
            },
        };
        let copy_start = if offset > entry.logical_offset { offset } else { entry.logical_offset };
        let copy_end = if end < chunk_end { end } else { chunk_end };
        let local_start = (copy_start - entry.logical_offset) as usize;
        let local_end = (copy_end - entry.logical_offset) as usize;
        let piece = slice_to_vec(decoded.as_slice(), local_start, local_end);
        let ghost before = output@;
        extend_bytes(&mut output, piece.as_slice());
        proof {
            match spec_read_chunks(s, dicts, es, index + 1, offset, end) {
                Ok(rest) => {
                    assert(before + (piece@ + rest) =~= output@ + rest);
                },
                Err(x) => {},
            }
        }
        index = index + 1;
    }
    assert(spec_read_chunks(s, dicts, es, index as int, offset, end) == Ok::<Seq<u8>, QztError>(Seq::empty()));
    assert(output@ + Seq::<u8>::empty() =~= output@);
    if output.len() as u64 != length {
        return Err(QztError::ContainerCorrupt);
    }
    Ok(output)
}

// ---------------------------------------------------------------------------
// Whole export
// ---------------------------------------------------------------------------

/// Chunks `k..` of `es`, decoded and concatenated in order, or the first
/// error decoding one raises.
pub open spec fn spec_export_chunks(s: Seq<u8>, dicts: Seq<DictionaryEntry>, es: Seq<ChunkEntry>, k: int) -> Result<Seq<u8>>
    decreases es.len() - k,
{
    if k < 0 || k >= es.len() {
        Ok(Seq::empty())
    } else {
        match spec_decode_entry(s, dicts, es[k]) {
            Err(x) => Err(x),
            Ok(out) => match spec_export_chunks(s, dicts, es, k + 1) {
                Err(x) => Err(x),
                Ok(rest) => Ok(out + rest),
            },
        }
    }
}

/// The original bytes of container `s` opened as `d`: every chunk decoded, in
/// order, or the first error decoding one raises.
pub open spec fn spec_export(s: Seq<u8>, d: SkeletonDetails) -> Result<Seq<u8>> {
    spec_export_chunks(s, d.dictionaries@, d.chunk_entries@, 0)
}

/// Appends every decoded chunk, in order, to `output`.
pub(crate) fn export_entries<S: BlockSource>(src: &S, details: &SkeletonDetails, output: &mut Vec<u8>) -> (r: Result<()>)
    ensures
        match (r, spec_export(src.spec_bytes(), *details)) {
            (Ok(()), Ok(x)) => final(output)@ == old(output)@ + x,
            (Err(e), Err(se)) => e == se || (!src.spec_exact() && spec_io_failure(e)),
            (Err(e), Ok(_)) => !src.spec_exact() && spec_io_failure(e),
            _ => false,
        },
{
    let ghost s = src.spec_bytes();
    let ghost dicts = details.dictionaries@;
    let ghost es = details.chunk_entries@;
    let ghost orig = output@;
    let mut index: usize = 0;
    while index < details.chunk_entries.len()
        invariant
            index <= es.len(),
            s == src.spec_bytes(),
            dicts == details.dictionaries@,
            es == details.chunk_entries@,
            spec_export_chunks(s, dicts, es, 0) == match spec_export_chunks(s, dicts, es, index as int) {
                Ok(rest) => Ok(output@.subrange(orig.len() as int, output@.len() as int) + rest),
                Err(x) => Err::<Seq<u8>, QztError>(x),
            },
            output@.len() >= orig.len(),
            output@.subrange(0, orig.len() as int) == orig,
        decreases es.len() - index,
    {
        let decoded = match decode_entry(src, &details.dictionaries, &details.chunk_entries[index]) {
            Ok(d) => d,
            Err(e) => {
                return Err(e);
            },
        };
        let ghost before = output@;
        extend_bytes(output, decoded.as_slice());
        proof {
            assert(output@.subrange(0, orig.len() as int) =~= before.subrange(0, orig.len() as int));
            assert(output@.subrange(orig.len() as int, output@.len() as int) =~= before.subrange(orig.len() as int, before.len() as int) + decoded@);
            match spec_export_chunks(s, dicts, es, index + 1) {
                Ok(rest) => {
                    assert(before.subrange(orig.len() as int, before.len() as int) + (decoded@ + rest)
                        =~= output@.subrange(orig.len() as int, output@.len() as int) + rest);
                },
                Err(x) => {},
            }
        }
        index = index + 1;
    }
    proof {
        assert(output@.subrange(orig.len() as int, output@.len() as int) + Seq::<u8>::empty()
            =~= output@.subrange(orig.len() as int, output@.len() as int));
        assert(output@ =~= orig + output@.subrange(orig.len() as int, output@.len() as int));
    }
    Ok(())
}

// ---------------------------------------------------------------------------
// Documents and checksums
// ---------------------------------------------------------------------------

/// The first document with id `id`.
pub open spec fn spec_find_document(docs: Seq<DocumentEntry>, id: Seq<char>) -> Option<DocumentEntry>
    decreases docs.len(),
{
    if docs.len() == 0 {
        None
    } else if docs[0].doc_id@ == id {
        Some(docs[0])
    } else {
        spec_find_document(docs.drop_first(), id)
    }
}

/// The document `id` of container details `d`, or why there is none.
pub open spec fn spec_document_of(d: SkeletonDetails, id: Seq<char>) -> Result<DocumentEntry> {
    match d.document_index {
        None => Err(QztError::MissingRequiredBlock),
        Some(index) => match spec_find_document(index.documents@, id) {
            None => Err(QztError::DocumentNotFound),
            Some(doc) => Ok(doc),
        },
    }
}

fn find_document<'a>(details: &'a SkeletonDetails, doc_id: &str) -> (r: Result<&'a DocumentEntry>)
    ensures
        match (r, spec_document_of(*details, doc_id@)) {
            (Ok(doc), Ok(sdoc)) => *doc == sdoc,
            (Err(e), Err(se)) => e == se,
            _ => false,
        },
{
    let index = match &details.document_index {
        Some(index) => index,
        None => {
            return Err(QztError::MissingRequiredBlock);
        },
    };
    let docs = &index.documents;
    let mut i: usize = 0;
    assert(docs@.subrange(0, docs@.len() as int) =~= docs@);
    while i < docs.len()
        invariant
            i <= docs@.len(),
            spec_find_document(docs@, doc_id@) == spec_find_document(docs@.subrange(i as int, docs@.len() as int), doc_id@),
            spec_document_of(*details, doc_id@) == match spec_find_document(docs@, doc_id@) {
                None => Err::<DocumentEntry, QztError>(QztError::DocumentNotFound),
                Some(d) => Ok(d),
            },
        decreases docs@.len() - i,
    {
        let ghost rest = docs@.subrange(i as int, docs@.len() as int);
        assert(rest.drop_first() =~= docs@.subrange(i + 1, docs@.len() as int));
        if crate::schema::text_is(&docs[i].doc_id, doc_id) {
            return Ok(&docs[i]);
        }
        i = i + 1;
    }
    Err(QztError::DocumentNotFound)
}

/// The error checking `bytes` against an expected checksum raises.
pub open spec fn spec_expected_checksum_error(bytes: Seq<u8>, expected: Checksum) -> Option<QztError> {
    if expected.algorithm@ != "blake3"@ {
        Some(QztError::ContainerCorrupt)
    } else if blake3_digest(bytes) != expected.value@ {
        Some(QztError::VerifiedChecksumMismatch)
    } else {
        None
    }
}

/// A verified range read returns the bytes of the plain read exactly when the
/// expected checksum is their BLAKE3 digest; a BLAKE3 checksum of other bytes
/// is a verified-checksum mismatch, and any other algorithm a corrupt request.
pub proof fn lemma_verified_read_checks_digest(x: Seq<u8>, expected: Checksum)
    ensures
        crate::schema::spec_is_blake3_checksum(expected, blake3_digest(x)) ==> spec_expected_checksum_error(x, expected) is None,
        expected.algorithm@ == "blake3"@ && expected.value@ != blake3_digest(x)
            ==> spec_expected_checksum_error(x, expected) == Some(QztError::VerifiedChecksumMismatch),
        expected.algorithm@ != "blake3"@ ==> spec_expected_checksum_error(x, expected) == Some(QztError::ContainerCorrupt),
{
}

fn verify_expected_checksum(bytes: &[u8], expected: &Checksum) -> (r: Result<()>)
    ensures
        match r {
            Ok(()) => spec_expected_checksum_error(bytes@, *expected) is None,
            Err(e) => spec_expected_checksum_error(bytes@, *expected) == Some(e),
        },
{
    if !crate::schema::text_is(&expected.algorithm, crate::schema::CHECKSUM_ALGORITHM_BLAKE3) {
        return Err(QztError::ContainerCorrupt);
    }
    let actual = Checksum::blake3(bytes);
    if !bytes_equal(&actual.value, &expected.value) {
        return Err(QztError::VerifiedChecksumMismatch);
    }
    Ok(())
}

// ---------------------------------------------------------------------------
// Readers
// ---------------------------------------------------------------------------

/// Reader for an in-memory QZT container.
pub struct QztReader {
    bytes: Vec<u8>,
    details: SkeletonDetails,
    limits: Ghost<ResourceLimits>,
}

/// Reader for a positioned QZT source.
pub struct QztFileReader<R: ReadAt> {
    source: R,
    len: u64,
    details: SkeletonDetails,
    limits: Ghost<ResourceLimits>,
}

/// Reader-visible container summary.
#[derive(Debug, Clone, Copy, PartialEq, Eq)]
pub struct QztInfo {
    pub container_id: [u8; 16],
    pub original_size: u64,
    pub chunk_count: u64,
    pub line_count: u64,
}

/// Verification level.
#[derive(Debug, Clone, Copy, PartialEq, Eq)]
#[non_exhaustive]
pub enum VerifyLevel {
    Quick,
    Normal,
    Deep,
}

/// Verification result.
#[derive(Debug, Clone, Copy, PartialEq, Eq)]
pub struct VerifyReport {
    pub level: VerifyLevel,
    pub checked_chunks: u64,
    pub decoded_bytes: u64,
}

/// The summary a reader reports for container details `d`.
pub open spec fn spec_info(d: SkeletonDetails) -> QztInfo {
    QztInfo {
        container_id: d.summary.container_id,
        original_size: d.summary.original_size,
        chunk_count: d.summary.chunk_count,
        line_count: d.summary.line_count,
    }
}

/// What reading text of `offset..offset + length` gives: the bytes when they
/// are UTF-8, `InvalidUtf8Boundary` when they are not.
pub open spec fn spec_text_outcome(bytes: Result<Seq<u8>>, t: Result<String>) -> bool {
    match (bytes, t) {
        (Ok(b), Ok(text)) => vstd::utf8::valid_utf8(b) && vstd::utf8::encode_utf8(text@) == b,
        (Ok(b), Err(e)) => !vstd::utf8::valid_utf8(b) && e == QztError::InvalidUtf8Boundary,
        (Err(se), Err(e)) => se == e,
        _ => false,
    }
}

fn bytes_to_text(bytes: Vec<u8>, error: QztError) -> (r: Result<String>)
    ensures
        match r {
            Ok(t) => vstd::utf8::valid_utf8(bytes@) && vstd::utf8::encode_utf8(t@) == bytes@,
            Err(e) => !vstd::utf8::valid_utf8(bytes@) && e == error,
        },
{
    match text_from_utf8(bytes.as_slice()) {
        Some(t) => Ok(t),
        None => Err(error),
    }
}

impl QztReader {
    #[verifier::type_invariant]
    spec fn opened(self) -> bool {
        &&& spec_skeleton_error(self.bytes@, self.limits@) is None
        &&& spec_skeleton_holds(self.bytes@, self.limits@, self.details)
    }

    /// The container bytes.
    pub closed spec fn spec_bytes(&self) -> Seq<u8> {
        self.bytes@
    }

    /// The structure the container was opened to.
    pub closed spec fn spec_details(&self) -> SkeletonDetails {
        self.details
    }

    /// The limits the container was opened under.
    pub closed spec fn spec_limits(&self) -> ResourceLimits {
        self.limits@
    }

    /// Opens an in-memory QZT container and performs quick structural validation.
    pub fn open(bytes: &[u8]) -> (r: Result<Self>)
        ensures
            match r {
                Ok(reader) => reader.spec_bytes() == bytes@ && reader.spec_limits() == spec_default_resource_limits()
                    && spec_skeleton_error(bytes@, spec_default_resource_limits()) is None
                    && spec_skeleton_holds(bytes@, spec_default_resource_limits(), reader.spec_details()),
                Err(e) => spec_open_failure(bytes@, spec_default_resource_limits(), e),
            },
            spec_skeleton_error(bytes@, spec_default_resource_limits()) is None && spec_no_dense_block(bytes@) ==> r is Ok,
    {
        Self::open_with_limits(bytes, ResourceLimits::default())
    }

    /// Opens an in-memory QZT container with explicit resource limits.
    pub fn open_with_limits(bytes: &[u8], limits: ResourceLimits) -> (r: Result<Self>)
        ensures
            match r {
                Ok(reader) => reader.spec_bytes() == bytes@ && reader.spec_limits() == limits
                    && spec_skeleton_error(bytes@, limits) is None
                    && spec_skeleton_holds(bytes@, limits, reader.spec_details()),
                Err(e) => spec_open_failure(bytes@, limits, e),
            },
            spec_skeleton_error(bytes@, limits) is None && spec_no_dense_block(bytes@) ==> r is Ok,
    {
        let owned = slice_to_vec(bytes, 0, bytes.len());
        assert(bytes@.subrange(0, bytes@.len() as int) =~= bytes@);
        let details = open_skeleton_details_with_limits(owned.as_slice(), limits)?;
        Ok(QztReader { bytes: owned, details, limits: Ghost(limits) })
    }

    /// The container summary.
    pub fn info(&self) -> (r: QztInfo)
        ensures
            r == spec_info(self.spec_details()),
    {
        QztInfo {
            container_id: self.details.summary.container_id,
            original_size: self.details.summary.original_size,
            chunk_count: self.details.summary.chunk_count,
            line_count: self.details.summary.line_count,
        }
    }

    /// Appends the whole original to `writer`, chunk by chunk.
    pub fn export_to(&self, writer: &mut Vec<u8>) -> (r: Result<()>)
        ensures
            match (r, spec_export(self.spec_bytes(), self.spec_details())) {
                (Ok(()), Ok(x)) => final(writer)@ == old(writer)@ + x,
                (Err(e), Err(se)) => e == se,
                _ => false,
            },
    {
        export_entries(&slice_source(self.bytes.as_slice()), &self.details, writer)
    }

    /// The whole original.
    pub fn export_all(&self) -> (r: Result<Vec<u8>>)
        ensures
            match (r, spec_export(self.spec_bytes(), self.spec_details())) {
                (Ok(b), Ok(x)) => b@ == x,
                (Err(e), Err(se)) => e == se,
                _ => false,
            },
    {
        let mut output: Vec<u8> = Vec::new();
        self.export_to(&mut output)?;
        Ok(output)
    }

    /// The original bytes `offset..offset + length`.
    pub fn read_range(&self, offset: u64, length: u64) -> (r: Result<Vec<u8>>)
        ensures
            match (r, spec_read_range(self.spec_bytes(), self.spec_details(), offset, length)) {
                (Ok(b), Ok(sb)) => b@ == sb,
                (Err(e), Err(se)) => e == se,
                _ => false,
            },
    {
        proof {
            use_type_invariant(self);
            crate::skeleton::lemma_opened_table_consistent(self.bytes@, self.limits@, self.details);
        }
        read_range_from_entries(&slice_source(self.bytes.as_slice()), &self.details, offset, length)
    }

    /// The original bytes `offset..offset + length` as text.
    pub fn read_text_range(&self, offset: u64, length: u64) -> (r: Result<String>)
        ensures
            spec_text_outcome(spec_read_range(self.spec_bytes(), self.spec_details(), offset, length), r),
    {
        let bytes = self.read_range(offset, length)?;
        bytes_to_text(bytes, QztError::InvalidUtf8Boundary)
    }

    /// The original bytes `offset..offset + length`, checked against `expected`.
    pub fn read_range_verified(&self, offset: u64, length: u64, expected: &Checksum) -> (r: Result<Vec<u8>>)
        ensures
            match (r, spec_read_range(self.spec_bytes(), self.spec_details(), offset, length)) {
                (Ok(b), Ok(sb)) => b@ == sb && spec_expected_checksum_error(sb, *expected) is None,
                (Err(e), Ok(sb)) => spec_expected_checksum_error(sb, *expected) == Some(e),
                (Err(e), Err(se)) => e == se,
                _ => false,
            },
    {
        let bytes = self.read_range(offset, length)?;
        verify_expected_checksum(bytes.as_slice(), expected)?;
        Ok(bytes)
    }

    /// The bytes of document `doc_id`.
    pub fn read_document(&self, doc_id: &str) -> (r: Result<Vec<u8>>)
        ensures
            match spec_document_of(self.spec_details(), doc_id@) {
                Err(se) => r == Err::<Vec<u8>, QztError>(se),
                Ok(doc) => match (r, spec_read_range(self.spec_bytes(), self.spec_details(), doc.logical_offset, doc.byte_length)) {
                    (Ok(b), Ok(sb)) => b@ == sb,
                    (Err(e), Err(se)) => e == se,
                    _ => false,
                },
            },
    {
        let document = find_document(&self.details, doc_id)?;
        self.read_range(document.logical_offset, document.byte_length)
    }

    /// The bytes of document `doc_id`, checked against `expected`.
    pub fn read_document_verified(&self, doc_id: &str, expected: &Checksum) -> (r: Result<Vec<u8>>)
        ensures
            match spec_document_of(self.spec_details(), doc_id@) {
                Err(se) => r == Err::<Vec<u8>, QztError>(se),
                Ok(doc) => match (r, spec_read_range(self.spec_bytes(), self.spec_details(), doc.logical_offset, doc.byte_length)) {
                    (Ok(b), Ok(sb)) => b@ == sb && spec_expected_checksum_error(sb, *expected) is None,
                    (Err(e), Ok(sb)) => spec_expected_checksum_error(sb, *expected) == Some(e),
                    (Err(e), Err(se)) => e == se,
                    _ => false,
                },
            },
    {
        let bytes = self.read_document(doc_id)?;
        verify_expected_checksum(bytes.as_slice(), expected)?;
        Ok(bytes)
    }
    /// Line `line_zero_based` with its LF, as bytes.
    pub fn read_line_raw(&self, line_zero_based: u64) -> (r: Result<Vec<u8>>)
        ensures
            match (r, spec_read_line(self.spec_bytes(), self.spec_details(), line_zero_based)) {
                (Ok(b), Ok(sb)) => b@ == sb,
                (Err(e), Err(se)) => e == se,
                _ => false,
            },
    {
        proof {
            use_type_invariant(self);
            crate::skeleton::lemma_opened_table_consistent(self.bytes@, self.limits@, self.details);
        }
        read_line_from_entries(&slice_source(self.bytes.as_slice()), &self.details, line_zero_based)
    }

    /// Line `line_zero_based` with its LF, as text; `InvalidUtf8` when it is not UTF-8.
    pub fn read_line_text(&self, line_zero_based: u64) -> (r: Result<String>)
        ensures
            match (spec_read_line(self.spec_bytes(), self.spec_details(), line_zero_based), r) {
                (Ok(b), Ok(text)) => vstd::utf8::encode_utf8(text@) == b,
                (Ok(b), Err(e)) => !vstd::utf8::valid_utf8(b) && e == QztError::InvalidUtf8,
                (Err(se), Err(e)) => se == e,
                _ => false,
            },
    {
        let bytes = self.read_line_raw(line_zero_based)?;
        bytes_to_text(bytes, QztError::InvalidUtf8)
    }
}

impl<R: ReadAt> QztFileReader<R> {
    #[verifier::type_invariant]
    spec fn opened(self) -> bool {
        &&& spec_skeleton_error(spec_file_bytes(self.source.spec_content(), self.len), self.limits@) is None
        &&& spec_skeleton_holds(spec_file_bytes(self.source.spec_content(), self.len), self.limits@, self.details)
    }

    /// The container bytes: the source taken as `len` bytes long.
    pub closed spec fn spec_bytes(&self) -> Seq<u8> {
        spec_file_bytes(self.source.spec_content(), self.len)
    }

    /// The structure the container was opened to.
    pub closed spec fn spec_details(&self) -> SkeletonDetails {
        self.details
    }

    /// The positioned source.
    pub closed spec fn spec_source(&self) -> R {
        self.source
    }

    /// Opens a QZT reader over a positioned source with default resource limits.
    pub fn open_read_at(source: R, len: u64) -> (r: Result<Self>)
        ensures
            match r {
                Ok(reader) => reader.spec_source() == source
                    && reader.spec_bytes() == spec_file_bytes(source.spec_content(), len)
                    && spec_skeleton_error(reader.spec_bytes(), spec_default_resource_limits()) is None
                    && spec_skeleton_holds(reader.spec_bytes(), spec_default_resource_limits(), reader.spec_details()),
                Err(e) => spec_skeleton_error(spec_file_bytes(source.spec_content(), len), spec_default_resource_limits())
                    == Some(e) || spec_io_failure(e),
            },
            source.spec_reliable() && len <= source.spec_content().len() && len <= usize::MAX
                ==> (r matches Err(e) ==> spec_open_failure(spec_file_bytes(source.spec_content(), len), spec_default_resource_limits(), e)),
            source.spec_reliable() && len <= source.spec_content().len() && len <= usize::MAX
                && spec_skeleton_error(spec_file_bytes(source.spec_content(), len), spec_default_resource_limits()) is None
                && spec_no_dense_block(spec_file_bytes(source.spec_content(), len)) ==> r is Ok,
    {
        Self::open_read_at_with_limits(source, len, ResourceLimits::default())
    }

    /// Opens a QZT reader over a positioned source with explicit resource limits.
    pub fn open_read_at_with_limits(source: R, len: u64, limits: ResourceLimits) -> (r: Result<Self>)
        ensures
            match r {
                Ok(reader) => reader.spec_source() == source
                    && reader.spec_bytes() == spec_file_bytes(source.spec_content(), len)
                    && spec_skeleton_error(reader.spec_bytes(), limits) is None
                    && spec_skeleton_holds(reader.spec_bytes(), limits, reader.spec_details()),
                Err(e) => spec_skeleton_error(spec_file_bytes(source.spec_content(), len), limits) == Some(e)
                    || spec_io_failure(e),
            },
            source.spec_reliable() && len <= source.spec_content().len() && len <= usize::MAX
                ==> (r matches Err(e) ==> spec_open_failure(spec_file_bytes(source.spec_content(), len), limits, e)),
            source.spec_reliable() && len <= source.spec_content().len() && len <= usize::MAX
                && spec_skeleton_error(spec_file_bytes(source.spec_content(), len), limits) is None
                && spec_no_dense_block(spec_file_bytes(source.spec_content(), len)) ==> r is Ok,
    {
        let details = open_skeleton_details_read_at(&source, len, limits)?;
        Ok(QztFileReader { source, len, details, limits: Ghost(limits) })
    }

    /// Returns the wrapped positioned source.
    pub fn into_inner(self) -> (r: R)
        ensures
            r == self.spec_source(),
    {
        self.source
    }

    /// Parsed structural details (metadata, chunk table, indexes).
    pub fn skeleton_details(&self) -> (r: &SkeletonDetails)
        ensures
            *r == self.spec_details(),
            spec_table_consistent(r.chunk_entries@, r.summary.original_size, r.summary.line_count),
    {
        proof {
            use_type_invariant(self);
            crate::skeleton::lemma_opened_table_consistent(
                spec_file_bytes(self.source.spec_content(), self.len), self.limits@, self.details);
        }
        &self.details
    }

    /// The container summary.
    pub fn info(&self) -> (r: QztInfo)
        ensures
            r == spec_info(self.spec_details()),
    {
        QztInfo {
            container_id: self.details.summary.container_id,
            original_size: self.details.summary.original_size,
            chunk_count: self.details.summary.chunk_count,
            line_count: self.details.summary.line_count,
        }
    }

    /// Appends the whole original to `writer`, chunk by chunk.
    pub fn export_to(&self, writer: &mut Vec<u8>) -> (r: Result<()>)
        ensures
            match (r, spec_export(self.spec_bytes(), self.spec_details())) {
                (Ok(()), Ok(x)) => final(writer)@ == old(writer)@ + x,
                (Err(e), Err(se)) => e == se || spec_io_failure(e),
                (Err(e), Ok(_)) => spec_io_failure(e),
                _ => false,
            },
    {
        export_entries(&positioned_source(&self.source, self.len), &self.details, writer)
    }

    /// The whole original.
    pub fn export_all(&self) -> (r: Result<Vec<u8>>)
        ensures
            match (r, spec_export(self.spec_bytes(), self.spec_details())) {
                (Ok(b), Ok(x)) => b@ == x,
                (Err(e), Err(se)) => e == se || spec_io_failure(e),
                (Err(e), Ok(_)) => spec_io_failure(e),
                _ => false,
            },
    {
        let mut output: Vec<u8> = Vec::new();
        self.export_to(&mut output)?;
        Ok(output)
    }

    /// The original bytes `offset..offset + length`.
    pub fn read_range(&self, offset: u64, length: u64) -> (r: Result<Vec<u8>>)
        ensures
            match (r, spec_read_range(self.spec_bytes(), self.spec_details(), offset, length)) {
                (Ok(b), Ok(sb)) => b@ == sb,
                (Err(e), Err(se)) => e == se || spec_io_failure(e),
                (Err(e), Ok(_)) => spec_io_failure(e),
                _ => false,
            },
    {
        proof {
            use_type_invariant(self);
            crate::skeleton::lemma_opened_table_consistent(
                spec_file_bytes(self.source.spec_content(), self.len), self.limits@, self.details);
        }
        read_range_from_entries(&positioned_source(&self.source, self.len), &self.details, offset, length)
    }

    /// The original bytes `offset..offset + length` as text.
    pub fn read_text_range(&self, offset: u64, length: u64) -> (r: Result<String>)
        ensures
            spec_text_outcome(spec_read_range(self.spec_bytes(), self.spec_details(), offset, length), r)
                || (r matches Err(e) && spec_io_failure(e)),
    {
        let bytes = self.read_range(offset, length)?;
        bytes_to_text(bytes, QztError::InvalidUtf8Boundary)
    }

    /// The original bytes `offset..offset + length`, checked against `expected`.
    pub fn read_range_verified(&self, offset: u64, length: u64, expected: &Checksum) -> (r: Result<Vec<u8>>)
        ensures
            match (r, spec_read_range(self.spec_bytes(), self.spec_details(), offset, length)) {
                (Ok(b), Ok(sb)) => b@ == sb && spec_expected_checksum_error(sb, *expected) is None,
                (Err(e), Ok(sb)) => spec_expected_checksum_error(sb, *expected) == Some(e) || spec_io_failure(e),
                (Err(e), Err(se)) => e == se || spec_io_failure(e),
                _ => false,
            },
    {
        let bytes = self.read_range(offset, length)?;
        verify_expected_checksum(bytes.as_slice(), expected)?;
        Ok(bytes)
    }

    /// The bytes of document `doc_id`.
    pub fn read_document(&self, doc_id: &str) -> (r: Result<Vec<u8>>)
        ensures
            match spec_document_of(self.spec_details(), doc_id@) {
                Err(se) => r == Err::<Vec<u8>, QztError>(se),
                Ok(doc) => match (r, spec_read_range(self.spec_bytes(), self.spec_details(), doc.logical_offset, doc.byte_length)) {
                    (Ok(b), Ok(sb)) => b@ == sb,
                    (Err(e), Err(se)) => e == se || spec_io_failure(e),
                    (Err(e), Ok(_)) => spec_io_failure(e),
                    _ => false,
                },
            },
    {
        let document = find_document(&self.details, doc_id)?;
        self.read_range(document.logical_offset, document.byte_length)
    }

    /// The bytes of document `doc_id`, checked against `expected`.
    pub fn read_document_verified(&self, doc_id: &str, expected: &Checksum) -> (r: Result<Vec<u8>>)
        ensures
            match spec_document_of(self.spec_details(), doc_id@) {
                Err(se) => r == Err::<Vec<u8>, QztError>(se),
                Ok(doc) => match (r, spec_read_range(self.spec_bytes(), self.spec_details(), doc.logical_offset, doc.byte_length)) {
                    (Ok(b), Ok(sb)) => b@ == sb && spec_expected_checksum_error(sb, *expected) is None,
                    (Err(e), Ok(sb)) => spec_expected_checksum_error(sb, *expected) == Some(e) || spec_io_failure(e),
                    (Err(e), Err(se)) => e == se || spec_io_failure(e),
                    _ => false,
                },
            },
    {
        let bytes = self.read_document(doc_id)?;
        verify_expected_checksum(bytes.as_slice(), expected)?;
        Ok(bytes)
    }

    /// Line `line_zero_based` with its LF, as bytes.
    pub fn read_line_raw(&self, line_zero_based: u64) -> (r: Result<Vec<u8>>)
        ensures
            match (r, spec_read_line(self.spec_bytes(), self.spec_details(), line_zero_based)) {
                (Ok(b), Ok(sb)) => b@ == sb,
                (Err(e), Err(se)) => e == se || spec_io_failure(e),
                (Err(e), Ok(_)) => spec_io_failure(e),
                _ => false,
            },
    {
        proof {
            use_type_invariant(self);
            crate::skeleton::lemma_opened_table_consistent(
                spec_file_bytes(self.source.spec_content(), self.len), self.limits@, self.details);
        }
        read_line_from_entries(&positioned_source(&self.source, self.len), &self.details, line_zero_based)
    }

    /// Line `line_zero_based` with its LF, as text; `InvalidUtf8` when it is not UTF-8.
    pub fn read_line_text(&self, line_zero_based: u64) -> (r: Result<String>)
        ensures
            match (spec_read_line(self.spec_bytes(), self.spec_details(), line_zero_based), r) {
                (Ok(b), Ok(text)) => vstd::utf8::encode_utf8(text@) == b,
                (Ok(b), Err(e)) => (!vstd::utf8::valid_utf8(b) && e == QztError::InvalidUtf8) || spec_io_failure(e),
                (Err(se), Err(e)) => se == e || spec_io_failure(e),
                _ => false,
            },
    {
        let bytes = self.read_line_raw(line_zero_based)?;
        bytes_to_text(bytes, QztError::InvalidUtf8)
    }
}

// ---------------------------------------------------------------------------
// Lines
// ---------------------------------------------------------------------------

/// Where the first LF at or after `start` in `d` is, if there is one.
pub open spec fn spec_first_lf(d: Seq<u8>, start: int) -> Option<int>
    decreases d.len() - start,
{
    if start < 0 || start >= d.len() {
        None
    } else if d[start] == 10 {
        Some(start)
    } else {
        spec_first_lf(d, start + 1)
    }
}

/// The bytes of `d` from `start` up to and including its first LF, or to the
/// end when there is none.
pub open spec fn spec_until_lf(d: Seq<u8>, start: int) -> Seq<u8> {
    match spec_first_lf(d, start) {
        Some(i) => d.subrange(start, i + 1),
        None => d.subrange(start, d.len() as int),
    }
}

/// The rest of a line that continues into chunks `k..`: their bytes up to and
/// including the first LF, or the first error decoding one raises.
pub open spec fn spec_line_rest(s: Seq<u8>, dicts: Seq<DictionaryEntry>, es: Seq<ChunkEntry>, k: int) -> Result<Seq<u8>>
    decreases es.len() - k,
{
    if k < 0 || k >= es.len() {
        Ok(Seq::empty())
    } else {
        match spec_decode_entry(s, dicts, es[k]) {
            Err(x) => Err(x),
            Ok(out) => if spec_first_lf(out, 0) is Some {
                Ok(spec_until_lf(out, 0))
            } else {
                match spec_line_rest(s, dicts, es, k + 1) {
                    Err(x) => Err(x),
                    Ok(rest) => Ok(out + rest),
                }
            },
        }
    }
}

/// The first chunk, from `k` on, whose lines end after line `line`.
pub open spec fn spec_line_chunk(es: Seq<ChunkEntry>, line: u64, k: int) -> int
    decreases es.len() - k,
{
    if k < 0 || k >= es.len() {
        es.len() as int
    } else if es[k].first_line + es[k].line_count > line {
        k
    } else {
        spec_line_chunk(es, line, k + 1)
    }
}

/// Line `line` (from zero) of container `s` opened as `d`, with its LF, or
/// the error reading it raises. The line starts in the chunk that holds its
/// start, at the offset the dense line index records, or else at the offset
/// the chunk's own LFs give; it runs through later chunks until an LF.
pub open spec fn spec_read_line(s: Seq<u8>, d: SkeletonDetails, line: u64) -> Result<Seq<u8>> {
    let es = d.chunk_entries@;
    let dicts = d.dictionaries@;
    let k = spec_line_chunk(es, line, 0);
    if line >= d.summary.line_count || k >= es.len() || es[k].first_line > line {
        Err(QztError::LineOutOfRange)
    } else {
        match spec_decode_entry(s, dicts, es[k]) {
            Err(x) => Err(x),
            Ok(out) => {
                let local = line - es[k].first_line;
                let start: Result<int> = match d.dense_line_index {
                    Some(dense) => if local > usize::MAX {
                        Err(QztError::LineOutOfRange)
                    } else if k < dense@.len() && local < dense@[k].1.len() {
                        if dense@[k].1[local] > usize::MAX {
                            Err(QztError::ResourceLimitExceeded)
                        } else {
                            Ok(dense@[k].1[local] as int)
                        }
                    } else {
                        Err(QztError::LineOutOfRange)
                    },
                    None => {
                        let starts = crate::dense_line_index::spec_local_line_starts(out, es[k].flags);
                        if local < starts.len() {
                            Ok(starts[local] as int)
                        } else {
                            Err(QztError::LineOutOfRange)
                        }
                    },
                };
                match start {
                    Err(x) => Err(x),
                    Ok(at) => if at > out.len() {
                        Err(QztError::LineOutOfRange)
                    } else if spec_first_lf(out, at) is Some {
                        Ok(spec_until_lf(out, at))
                    } else {
                        match spec_line_rest(s, dicts, es, k + 1) {
                            Err(x) => Err(x),
                            Ok(rest) => Ok(spec_until_lf(out, at) + rest),
                        }
                    },
                }
            },
        }
    }
}

/// Every line start after an LF in the first `n` bytes of `d` follows its LF
/// and has exactly one more LF before it than the start before it.
proof fn lemma_lf_starts_facts(d: Seq<u8>, n: int)
    requires
        0 <= n <= d.len(),
        d.len() <= u64::MAX,
    ensures
        n < d.len() ==> crate::dense_line_index::spec_lf_starts(d, n).len() == crate::benchmark::spec_lf_total(d, n),
        forall|j: int| 0 <= j < crate::dense_line_index::spec_lf_starts(d, n).len() ==> {
            let p = (#[trigger] crate::dense_line_index::spec_lf_starts(d, n)[j]) as int;
            &&& 0 < p <= n
            &&& p < d.len()
            &&& d[p - 1] == 10
            &&& crate::benchmark::spec_lf_total(d, p) == j + 1
        },
    decreases n,
{
    if n > 0 {
        lemma_lf_starts_facts(d, n - 1);
        let pre = crate::dense_line_index::spec_lf_starts(d, n - 1);
        let cur = crate::dense_line_index::spec_lf_starts(d, n);
        if d[n - 1] == 10 && n < d.len() {
            assert(cur == pre.push(n as u64));
            assert(crate::benchmark::spec_lf_total(d, n) == crate::benchmark::spec_lf_total(d, n - 1) + 1);
            assert forall|j: int| 0 <= j < cur.len() implies {
                let p = (#[trigger] cur[j]) as int;
                &&& 0 < p <= n
                &&& p < d.len()
                &&& d[p - 1] == 10
                &&& crate::benchmark::spec_lf_total(d, p) == j + 1
            } by {
                if j < pre.len() {
                    assert(cur[j] == pre[j]);
                }
            }
        } else {
            assert(cur == pre);
            assert(n < d.len() ==> crate::benchmark::spec_lf_total(d, n) == crate::benchmark::spec_lf_total(d, n - 1));
        }
    }
}

proof fn lemma_line_chunk_from(es: Seq<ChunkEntry>, line: u64, k: int)
    requires
        0 <= k,
    ensures
        k <= spec_line_chunk(es, line, k) <= es.len() || (k > es.len() && spec_line_chunk(es, line, k) == es.len()),
    decreases es.len() - k,
{
    if k < es.len() {
        lemma_line_chunk_from(es, line, k + 1);
    }
}

/// Line `line` of `s` opened as `d` is read from offset `p` of the chunk that
/// holds it: `p` is a line start of that chunk (its start or right after an
/// LF) with exactly as many of the chunk's LFs before it as the line's number
/// within the chunk (one more when the chunk continues the line before it),
/// and the bytes read begin with the chunk's bytes from `p` through its LF.
pub open spec fn spec_line_read_from(s: Seq<u8>, d: SkeletonDetails, line: u64, p: int) -> bool {
    let es = d.chunk_entries@;
    let k = spec_line_chunk(es, line, 0);
    let out = spec_decode_entry(s, d.dictionaries@, es[k])->Ok_0;
    let local = line - es[k].first_line;
    let cont: int = if es[k].flags & STARTS_WITH_LINE_CONTINUATION == 0 { 0 } else { 1 };
    let x = spec_read_line(s, d, line)->Ok_0;
    &&& 0 <= p < out.len()
    &&& (p == 0 || out[p - 1] == 10)
    &&& crate::benchmark::spec_lf_total(out, p) == local + cont
    &&& x.len() >= spec_until_lf(out, p).len()
    &&& x.subrange(0, spec_until_lf(out, p).len() as int) == spec_until_lf(out, p)
}

/// In a container without a dense line index, a line is read from the line
/// start of its chunk that follows as many of the chunk's LFs as the line's
/// number within the chunk (one more when the chunk continues the line
/// before it), through its LF.
pub proof fn lemma_read_line_starts_after_its_line_feeds(s: Seq<u8>, d: SkeletonDetails, line: u64)
    requires
        d.dense_line_index is None,
        spec_read_line(s, d, line) is Ok,
    ensures
        0 <= spec_line_chunk(d.chunk_entries@, line, 0) < d.chunk_entries@.len(),
        d.chunk_entries@[spec_line_chunk(d.chunk_entries@, line, 0)].first_line <= line,
        spec_decode_entry(s, d.dictionaries@, d.chunk_entries@[spec_line_chunk(d.chunk_entries@, line, 0)]) is Ok,
        exists|p: int| spec_line_read_from(s, d, line, p),
{
    let es = d.chunk_entries@;
    let k = spec_line_chunk(es, line, 0);
    let out = spec_decode_entry(s, d.dictionaries@, es[k])->Ok_0;
    let local = line - es[k].first_line;
    let flags = es[k].flags;
    let starts = crate::dense_line_index::spec_local_line_starts(out, flags);
    let lfs = crate::dense_line_index::spec_lf_starts(out, out.len() as int);
    lemma_line_chunk_from(es, line, 0);
    assert(out.len() == es[k].uncompressed_size);
    lemma_lf_starts_facts(out, out.len() as int);
    let at = starts[local] as int;
    let x = spec_read_line(s, d, line)->Ok_0;
    let u = spec_until_lf(out, at);
    if flags & STARTS_WITH_LINE_CONTINUATION == 0 && out.len() > 0 {
        assert(starts == seq![0u64] + lfs);
        if local > 0 {
            assert(starts[local] == lfs[local - 1]);
        }
    } else {
        assert(starts == lfs);
    }
    if spec_first_lf(out, at) is Some {
        assert(x == u);
        assert(x.subrange(0, u.len() as int) =~= u);
    } else {
        let rest = spec_line_rest(s, d.dictionaries@, es, k + 1)->Ok_0;
        assert(x == u + rest);
        assert(x.subrange(0, u.len() as int) =~= u);
    }
    assert(crate::benchmark::spec_lf_total(out, at) == local + (if flags & STARTS_WITH_LINE_CONTINUATION == 0 { 0int } else { 1int }));
    assert(spec_line_read_from(s, d, line, at));
}

/// Appends `decoded[start..]` up to and including its first LF; whether an LF was found.
fn append_until_lf(decoded: &[u8], start: usize, output: &mut Vec<u8>) -> (r: bool)
    requires
        start <= decoded@.len(),
    ensures
        final(output)@ == old(output)@ + spec_until_lf(decoded@, start as int),
        r == spec_first_lf(decoded@, start as int) is Some,
{
    let ghost orig = output@;
    let mut i = start;
    while i < decoded.len()
        invariant
            start <= i <= decoded@.len(),
            orig == old(output)@,
            output@ == orig + decoded@.subrange(start as int, i as int),
            spec_first_lf(decoded@, start as int) == spec_first_lf(decoded@, i as int),
        decreases decoded@.len() - i,
    {
        output.push(decoded[i]);
        assert(output@ =~= orig + decoded@.subrange(start as int, i + 1));
        if decoded[i] == 10 {
            assert(spec_first_lf(decoded@, i as int) == Some(i as int));
            assert(spec_first_lf(decoded@, start as int) == Some(i as int));
            assert(spec_until_lf(decoded@, start as int) == decoded@.subrange(start as int, i + 1));
            return true;
        }
        assert(spec_first_lf(decoded@, i as int) == spec_first_lf(decoded@, i + 1));
        i = i + 1;
    }
    assert(spec_first_lf(decoded@, i as int) is None);
    false
}

proof fn lemma_line_chunk(es: Seq<ChunkEntry>, line: u64, k: int, r: int)
    requires
        0 <= k <= r <= es.len(),
        forall|j: int| k <= j < r ==> #[trigger] es[j].first_line + es[j].line_count <= line,
        r < es.len() ==> es[r].first_line + es[r].line_count > line,
    ensures
        spec_line_chunk(es, line, k) == r,
    decreases r - k,
{
    if k < r {
        lemma_line_chunk(es, line, k + 1, r);
    }
}

/// The first chunk whose lines end after line `line`.
fn line_start_chunk_index(entries: &Vec<ChunkEntry>, line: u64, Ghost(original_size): Ghost<u64>, Ghost(line_count): Ghost<u64>) -> (r: usize)
    requires
        spec_table_consistent(entries@, original_size, line_count),
    ensures
        r == spec_line_chunk(entries@, line, 0),
{
    let mut low: usize = 0;
    let mut high: usize = entries.len();
    while low < high
        invariant
            low <= high <= entries@.len(),
            spec_table_consistent(entries@, original_size, line_count),
            forall|j: int| 0 <= j < low ==> #[trigger] entries@[j].first_line + entries@[j].line_count <= line,
            forall|j: int| high <= j < entries@.len() ==> #[trigger] entries@[j].first_line + entries@[j].line_count > line,
        decreases high - low,
    {
        let mid = low + (high - low) / 2;
        proof {
            crate::chunk_table::lemma_consistent_inside(entries@, original_size, line_count, mid as int);
        }
        let line_end = entries[mid].first_line + entries[mid].line_count;
        if line_end <= line {
            proof {
                assert forall|j: int| 0 <= j < mid + 1 implies #[trigger] entries@[j].first_line + entries@[j].line_count <= line by {
                    if j < mid {
                        crate::chunk_table::lemma_consistent_order(entries@, original_size, line_count, j, mid as int);
                    }
                }
            }
            low = mid + 1;
        } else {
            proof {
                assert forall|j: int| mid <= j < entries@.len() implies #[trigger] entries@[j].first_line + entries@[j].line_count > line by {
                    if j > mid {
                        crate::chunk_table::lemma_consistent_order(entries@, original_size, line_count, mid as int, j);
                    }
                }
            }
            high = mid;
        }
    }
    proof {
        lemma_line_chunk(entries@, line, 0, low as int);
    }
    low
}

/// Line `line` (from zero), with its LF.
pub(crate) fn read_line_from_entries<S: BlockSource>(src: &S, details: &SkeletonDetails, line: u64) -> (r: Result<Vec<u8>>)
    requires
        spec_table_consistent(details.chunk_entries@, details.summary.original_size, details.summary.line_count),
    ensures
        match (r, spec_read_line(src.spec_bytes(), *details, line)) {
            (Ok(b), Ok(sb)) => b@ == sb,
            (Err(e), Err(se)) => e == se || (!src.spec_exact() && spec_io_failure(e)),
            (Err(e), Ok(_)) => !src.spec_exact() && spec_io_failure(e),
            _ => false,
        },
{
    let ghost s = src.spec_bytes();
    let ghost es = details.chunk_entries@;
    let ghost dicts = details.dictionaries@;
    if line >= details.summary.line_count {
        return Err(QztError::LineOutOfRange);
    }
    let start_index = line_start_chunk_index(&details.chunk_entries, line, Ghost(details.summary.original_size), Ghost(details.summary.line_count));
    if start_index >= details.chunk_entries.len() {
        return Err(QztError::LineOutOfRange);
    }
    let start_entry = &details.chunk_entries[start_index];
    if start_entry.first_line > line {
        return Err(QztError::LineOutOfRange);
    }
    let start_decoded = decode_entry(src, &details.dictionaries, start_entry)?;
    let local_index_u64 = line - start_entry.first_line;
    let local_start_u64: u64 = match &details.dense_line_index {
        Some(dense) => {
            if local_index_u64 as u128 > usize::MAX as u128 {
                return Err(QztError::LineOutOfRange);
            }
            let value = dense.line_start_offset(start_index, local_index_u64 as usize)?;
            if value as u128 > usize::MAX as u128 {
                return Err(QztError::ResourceLimitExceeded);
            }
            value
        },
        None => {
            let starts = crate::dense_line_index::line_start_offsets(start_decoded.as_slice(), start_entry.flags)?;
            if local_index_u64 >= starts.len() as u64 {
                return Err(QztError::LineOutOfRange);
            }
            starts[local_index_u64 as usize]
        },
    };
    if local_start_u64 > start_decoded.len() as u64 {
        return Err(QztError::LineOutOfRange);
    }
    let local_start = local_start_u64 as usize;
    let mut output: Vec<u8> = Vec::new();
    if append_until_lf(start_decoded.as_slice(), local_start, &mut output) {
        return Ok(output);
    }
    let ghost head = output@;
    assert(spec_read_line(s, *details, line) == match spec_line_rest(s, dicts, es, start_index + 1) {
        Ok(rest) => Ok(head + rest),
        Err(x) => Err::<Seq<u8>, QztError>(x),
    });
    let mut current = start_index + 1;
    while current < details.chunk_entries.len()
        invariant
            start_index < current <= es.len(),
            spec_read_line(s, *details, line) == match spec_line_rest(s, dicts, es, start_index + 1) {
                Ok(rest) => Ok(head + rest),
                Err(x) => Err::<Seq<u8>, QztError>(x),
            },
            es == details.chunk_entries@,
            dicts == details.dictionaries@,
            s == src.spec_bytes(),
            output@.len() >= head.len(),
            output@.subrange(0, head.len() as int) == head,
            spec_line_rest(s, dicts, es, start_index + 1) == match spec_line_rest(s, dicts, es, current as int) {
                Ok(rest) => Ok(output@.subrange(head.len() as int, output@.len() as int) + rest),
                Err(x) => Err::<Seq<u8>, QztError>(x),
            },
        decreases es.len() - current,
    {
        let decoded = match decode_entry(src, &details.dictionaries, &details.chunk_entries[current]) {
            Ok(d) => d,
            Err(e) => {
                return Err(e);
            },
        };
        let ghost before = output@;
        let found = append_until_lf(decoded.as_slice(), 0, &mut output);
        proof {
            assert(output@.subrange(0, head.len() as int) =~= before.subrange(0, head.len() as int));
            assert(decoded@.subrange(0, decoded@.len() as int) =~= decoded@);
            assert(output@.subrange(head.len() as int, output@.len() as int)
                =~= before.subrange(head.len() as int, before.len() as int) + spec_until_lf(decoded@, 0));
            if !found {
                match spec_line_rest(s, dicts, es, current + 1) {
                    Ok(rest) => {
                        assert(before.subrange(head.len() as int, before.len() as int) + (decoded@ + rest)
                            =~= output@.subrange(head.len() as int, output@.len() as int) + rest);
                    },
                    Err(x) => {},
                }
            }
        }
        if found {
            proof {
                assert(output@ =~= head + output@.subrange(head.len() as int, output@.len() as int));
            }
            return Ok(output);
        }
        current = current + 1;
    }
    proof {
        assert(output@ =~= head + output@.subrange(head.len() as int, output@.len() as int));
        assert(output@.subrange(head.len() as int, output@.len() as int) + Seq::<u8>::empty()
            =~= output@.subrange(head.len() as int, output@.len() as int));
    }
    Ok(output)
}

// ---------------------------------------------------------------------------
// Verification
// ---------------------------------------------------------------------------

/// The first error checking the compressed bytes of chunks `k..` raises: a
/// range outside the container or a digest other than the recorded one.
pub open spec fn spec_compressed_error(s: Seq<u8>, es: Seq<ChunkEntry>, k: int) -> Option<QztError>
    decreases es.len() - k,
{
    if k < 0 || k >= es.len() {
        None
    } else {
        match spec_region(s, es[k].physical_offset, es[k].compressed_size) {
            Err(x) => Some(x),
            Ok(c) => if blake3_digest(c) != es[k].compressed_checksum_blake3@ {
                Some(QztError::CompressedChunkChecksumMismatch)
            } else {
                spec_compressed_error(s, es, k + 1)
            },
        }
    }
}

/// What normal verification of container `s` opened as `d` gives: every
/// chunk's compressed digest, then the container checksum over the bytes
/// before the footer payload, when the footer records one.
pub open spec fn spec_verify_normal(s: Seq<u8>, d: SkeletonDetails) -> Result<VerifyReport> {
    let report = VerifyReport { level: VerifyLevel::Normal, checked_chunks: d.summary.chunk_count, decoded_bytes: 0 };
    match spec_compressed_error(s, d.chunk_entries@, 0) {
        Some(e) => Err(e),
        None => match d.footer_payload.container_checksum {
            None => Ok(report),
            Some(c) => if d.footer_payload_offset > s.len() {
                Err(QztError::PhysicalRangeOutOfBounds)
            } else if c.algorithm@ != "blake3"@ || blake3_digest(s.subrange(0, d.footer_payload_offset as int)) != c.value@ {
                Err(QztError::ContainerCorrupt)
            } else {
                Ok(report)
            },
        },
    }
}

pub(crate) fn verify_normal_entries<S: BlockSource>(src: &S, details: &SkeletonDetails) -> (r: Result<VerifyReport>)
    ensures
        match (r, spec_verify_normal(src.spec_bytes(), *details)) {
            (Ok(rep), Ok(srep)) => rep == srep,
            (Err(e), Err(se)) => e == se || (!src.spec_exact() && spec_io_failure(e)),
            (Err(e), Ok(_)) => !src.spec_exact() && spec_io_failure(e),
            _ => false,
        },
{
    let ghost s = src.spec_bytes();
    let ghost es = details.chunk_entries@;
    let mut i: usize = 0;
    while i < details.chunk_entries.len()
        invariant
            i <= es.len(),
            es == details.chunk_entries@,
            s == src.spec_bytes(),
            spec_compressed_error(s, es, 0) == spec_compressed_error(s, es, i as int),
        decreases es.len() - i,
    {
        let entry = &details.chunk_entries[i];
        let compressed = match src.fetch(entry.physical_offset, entry.compressed_size) {
            Ok(c) => c,
            Err(e) => {
                return Err(e);
            },
        };
        let actual = Checksum::blake3(compressed.as_slice());
        if !bytes_equal(&actual.value, &entry.compressed_checksum_blake3) {
            return Err(QztError::CompressedChunkChecksumMismatch);
        }
        i = i + 1;
    }
    match &details.footer_payload.container_checksum {
        Some(expected) => {
            let actual = src.hash_prefix(details.footer_payload_offset)?;
            if !crate::schema::text_is(&expected.algorithm, crate::schema::CHECKSUM_ALGORITHM_BLAKE3)
                || !bytes_equal(&actual, &expected.value) {
                return Err(QztError::ContainerCorrupt);
            }
        },
        None => {},
    }
    Ok(VerifyReport { level: VerifyLevel::Normal, checked_chunks: details.summary.chunk_count, decoded_bytes: 0 })
}

// ---------------------------------------------------------------------------
// Ranges are slices of the export
// ---------------------------------------------------------------------------

proof fn lemma_read_chunks_from_export(
    s: Seq<u8>,
    dicts: Seq<DictionaryEntry>,
    es: Seq<ChunkEntry>,
    k: int,
    offset: u64,
    end: u64,
    original_size: u64,
    line_count: u64,
    rest: Seq<u8>,
)
    requires
        spec_table_consistent(es, original_size, line_count),
        0 <= k <= es.len(),
        spec_export_chunks(s, dicts, es, k) == Ok::<Seq<u8>, QztError>(rest),
        offset < end <= original_size,
    ensures
        ({
            let lo: int = if k < es.len() { es[k].logical_offset as int } else { original_size as int };
            &&& lo <= original_size
            &&& rest.len() == original_size - lo
            &&& lo >= end ==> spec_read_chunks(s, dicts, es, k, offset, end) == Ok::<Seq<u8>, QztError>(Seq::empty())
            &&& lo < end ==> spec_read_chunks(s, dicts, es, k, offset, end) == Ok::<Seq<u8>, QztError>(
                rest.subrange((if offset > lo { offset as int } else { lo }) - lo, end - lo))
        }),
    decreases es.len() - k,
{
    if k < es.len() {
        crate::chunk_table::lemma_consistent_inside(es, original_size, line_count, k);
        let e = es[k];
        let out = spec_decode_entry(s, dicts, e)->Ok_0;
        let rest2 = spec_export_chunks(s, dicts, es, k + 1)->Ok_0;
        assert(out.len() == e.uncompressed_size);
        assert(rest == out + rest2);
        lemma_read_chunks_from_export(s, dicts, es, k + 1, offset, end, original_size, line_count, rest2);
        let lo2: int = if k + 1 < es.len() { es[k + 1].logical_offset as int } else { original_size as int };
        if k + 1 < es.len() {
            crate::chunk_table::lemma_consistent_inside(es, original_size, line_count, k + 1);
            assert(spec_sum_sizes_step(es, k));
        } else {
            assert(spec_sum_sizes_step(es, k));
        }
        assert(lo2 == e.logical_offset + e.uncompressed_size);
        let lo = e.logical_offset as int;
        if lo < end {
            let chunk_end = lo + e.uncompressed_size;
            if chunk_end <= offset {
                assert(rest.subrange(offset - lo, end - lo) =~= rest2.subrange(offset - lo2, end - lo2));
            } else {
                let a: int = if offset > lo { offset as int } else { lo };
                let hi: int = if end < chunk_end { end as int } else { chunk_end };
                if lo2 < end {
                    assert(out.subrange(a - lo, hi - lo) + rest2.subrange(0, end - lo2) =~= rest.subrange(a - lo, end - lo));
                } else {
                    assert(out.subrange(a - lo, hi - lo) + Seq::<u8>::empty() =~= rest.subrange(a - lo, end - lo));
                }
            }
        }
    } else {
        assert(rest =~= Seq::<u8>::empty());
    }
}

/// Spelled-out step of the running sum of chunk sizes.
spec fn spec_sum_sizes_step(es: Seq<ChunkEntry>, k: int) -> bool {
    crate::chunk_table::spec_sum_sizes(es, k + 1) == crate::chunk_table::spec_sum_sizes(es, k) + es[k].uncompressed_size
}

/// A range read of an opened container is the matching slice of the whole
/// export: when exporting gives `x`, reading `offset..offset + length` inside
/// the original gives `x[offset..offset + length]`.
pub proof fn lemma_read_range_is_export_slice(
    s: Seq<u8>,
    limits: ResourceLimits,
    d: SkeletonDetails,
    offset: u64,
    length: u64,
    x: Seq<u8>,
)
    requires
        spec_skeleton_error(s, limits) is None,
        spec_skeleton_holds(s, limits, d),
        spec_export(s, d) == Ok::<Seq<u8>, QztError>(x),
        offset + length <= d.summary.original_size,
    ensures
        x.len() == d.summary.original_size,
        spec_read_range(s, d, offset, length) == Ok::<Seq<u8>, QztError>(x.subrange(offset as int, offset + length)),
{
    crate::skeleton::lemma_opened_table_consistent(s, limits, d);
    let es = d.chunk_entries@;
    if es.len() > 0 {
        crate::chunk_table::lemma_consistent_inside(es, d.summary.original_size, d.summary.line_count, 0);
    } else {
        assert(crate::chunk_table::spec_sum_sizes(es, 0) == 0);
    }
    if length > 0 {
        lemma_read_chunks_from_export(s, d.dictionaries@, es, 0, offset, (offset + length) as u64,
            d.summary.original_size, d.summary.line_count, x);
    } else {
        lemma_read_chunks_from_export_len(s, d.dictionaries@, es, 0, d.summary.original_size, d.summary.line_count, x);
        assert(x.subrange(offset as int, offset + length) =~= Seq::<u8>::empty());
    }
}

proof fn lemma_read_chunks_from_export_len(
    s: Seq<u8>,
    dicts: Seq<DictionaryEntry>,
    es: Seq<ChunkEntry>,
    k: int,
    original_size: u64,
    line_count: u64,
    rest: Seq<u8>,
)
    requires
        spec_table_consistent(es, original_size, line_count),
        0 <= k <= es.len(),
        spec_export_chunks(s, dicts, es, k) == Ok::<Seq<u8>, QztError>(rest),
    ensures
        rest.len() == original_size - (if k < es.len() { es[k].logical_offset as int } else { original_size as int }),
    decreases es.len() - k,
{
    if k < es.len() {
        crate::chunk_table::lemma_consistent_inside(es, original_size, line_count, k);
        let rest2 = spec_export_chunks(s, dicts, es, k + 1)->Ok_0;
        lemma_read_chunks_from_export_len(s, dicts, es, k + 1, original_size, line_count, rest2);
        if k + 1 < es.len() {
            crate::chunk_table::lemma_consistent_inside(es, original_size, line_count, k + 1);
        }
        assert(spec_sum_sizes_step(es, k));
    }
}


// ---------------------------------------------------------------------------
// Cached range reads
// ---------------------------------------------------------------------------

/// The most recently decoded chunk, reused by consecutive range reads so that
/// ascending reads inside one chunk decode it once.
pub struct ChunkDecodeCache {
    chunk_id: Option<u64>,
    decoded: Vec<u8>,
    physical_decoded_bytes: u64,
}

impl ChunkDecodeCache {
    /// Whether the cached chunk, if any, is chunk `chunk_id` of `d` decoded from `s`.
    pub closed spec fn holds(&self, s: Seq<u8>, d: SkeletonDetails) -> bool {
        match self.chunk_id {
            None => true,
            Some(id) => id < d.chunk_entries@.len()
                && spec_decode_entry(s, d.dictionaries@, d.chunk_entries@[id as int]) == Ok::<Seq<u8>, QztError>(self.decoded@),
        }
    }

    /// Uncompressed bytes decoded through this cache so far.
    pub closed spec fn spec_physical(&self) -> u64 {
        self.physical_decoded_bytes
    }

    /// An empty cache.
    pub fn new() -> (r: Self)
        ensures
            forall|s: Seq<u8>, d: SkeletonDetails| r.holds(s, d),
            r.spec_physical() == 0,
    {
        ChunkDecodeCache { chunk_id: None, decoded: Vec::new(), physical_decoded_bytes: 0 }
    }

    /// Total uncompressed bytes decoded through this cache (cache misses only).
    pub fn physical_decoded_bytes(&self) -> (r: u64)
        ensures
            r == self.spec_physical(),
    {
        self.physical_decoded_bytes
    }
}

/// Makes chunk `k` the cached chunk, decoding it unless it is cached already.
fn cache_chunk<S: BlockSource>(src: &S, details: &SkeletonDetails, k: usize, cache: &mut ChunkDecodeCache) -> (r: Result<()>)
    requires
        k < details.chunk_entries@.len(),
        details.chunk_entries@[k as int].chunk_id == k,
        old(cache).holds(src.spec_bytes(), *details),
    ensures
        final(cache).holds(src.spec_bytes(), *details),
        final(cache).spec_physical() >= old(cache).spec_physical(),
        r is Ok ==> final(cache).chunk_id == Some(k as u64),
        match r {
            Ok(()) => true,
            Err(e) => match spec_decode_entry(src.spec_bytes(), details.dictionaries@, details.chunk_entries@[k as int]) {
                Err(se) => e == se || (!src.spec_exact() && spec_io_failure(e)) || e == QztError::ResourceLimitExceeded,
                Ok(_) => (!src.spec_exact() && spec_io_failure(e)) || e == QztError::ResourceLimitExceeded,
            },
        },
{
    let entry = &details.chunk_entries[k];
    match cache.chunk_id {
        Some(id) => {
            if id == entry.chunk_id {
                return Ok(());
            }
        },
        None => {},
    }
    let decoded = decode_entry(src, &details.dictionaries, entry)?;
    let next = match cache.physical_decoded_bytes.checked_add(entry.uncompressed_size) {
        Some(n) => n,
        None => {
            return Err(QztError::ResourceLimitExceeded);
        },
    };
    cache.decoded = decoded;
    cache.chunk_id = Some(entry.chunk_id);
    cache.physical_decoded_bytes = next;
    Ok(())
}

/// Reads original bytes `offset..offset + length` through `cache`.
pub(crate) fn read_range_cached_from_entries<S: BlockSource>(
    src: &S,
    details: &SkeletonDetails,
    offset: u64,
    length: u64,
    cache: &mut ChunkDecodeCache,
) -> (r: Result<Vec<u8>>)
    requires
        spec_table_consistent(details.chunk_entries@, details.summary.original_size, details.summary.line_count),
        old(cache).holds(src.spec_bytes(), *details),
    ensures
        final(cache).holds(src.spec_bytes(), *details),
        match (r, spec_read_range(src.spec_bytes(), *details, offset, length)) {
            (Ok(b), Ok(sb)) => b@ == sb,
            (Err(e), Err(se)) => e == se || (!src.spec_exact() && spec_io_failure(e)) || e == QztError::ResourceLimitExceeded,
            (Err(e), Ok(_)) => (!src.spec_exact() && spec_io_failure(e)) || e == QztError::ResourceLimitExceeded,
            _ => false,
        },
{
    let entries = &details.chunk_entries;
    let ghost es = entries@;
    let ghost dicts = details.dictionaries@;
    let ghost s = src.spec_bytes();
    let ghost original_size = details.summary.original_size;
    let ghost line_count = details.summary.line_count;
    let end = crate::primitives::checked_logical_end(offset, length)?;
    if end > details.summary.original_size {
        return Err(QztError::LogicalRangeOutOfBounds);
    }
    if length == 0 {
        return Ok(Vec::new());
    }
    let start = range_start_chunk_index(entries, offset, Ghost(original_size), Ghost(line_count));
    proof {
        lemma_read_chunks_skip(s, dicts, es, 0, start as int, offset, end);
    }
    let mut output: Vec<u8> = Vec::new();
    let mut index = start;
    while index < entries.len() && entries[index].logical_offset < end
        invariant
            start <= index <= es.len(),
            es == entries@,
            offset < end,
            spec_table_consistent(es, original_size, line_count),
            start < es.len() ==> es[start as int].logical_offset + es[start as int].uncompressed_size > offset,
            spec_read_chunks(s, dicts, es, 0, offset, end) == match spec_read_chunks(s, dicts, es, index as int, offset, end) {
                Ok(rest) => Ok(output@ + rest),
                Err(x) => Err::<Seq<u8>, QztError>(x),
            },
            s == src.spec_bytes(),
            dicts == details.dictionaries@,
            es == details.chunk_entries@,
            original_size == details.summary.original_size,
            end == offset + length,
            end <= original_size,
            length > 0,
            cache.holds(s, *details),
        decreases es.len() - index,
    {
        let entry = &entries[index];
        proof {
            crate::chunk_table::lemma_consistent_inside(es, original_size, line_count, index as int);
            if index > start {
                crate::chunk_table::lemma_consistent_order(es, original_size, line_count, start as int, index as int);
            }
        }
        let chunk_end = entry.logical_offset + entry.uncompressed_size;
        match cache_chunk(src, details, index, cache) {
            Ok(()) => {},
            Err(e) => {
                proof {
                    assert(es[index as int].logical_offset + es[index as int].uncompressed_size > offset);
                    assert(es[index as int].logical_offset < end);
                    if spec_decode_entry(s, dicts, es[index as int]) is Err {
                        assert(spec_read_chunks(s, dicts, es, index as int, offset, end) == spec_decode_entry(s, dicts, es[index as int]));
                    }
                }
                return Err(e);
            },
        }
        let copy_start = if offset > entry.logical_offset { offset } else { entry.logical_offset };
        let copy_end = if end < chunk_end { end } else { chunk_end };
        let local_start = (copy_start - entry.logical_offset) as usize;
        let local_end = (copy_end - entry.logical_offset) as usize;
        proof {
            assert(cache.decoded@.len() == entry.uncompressed_size) by {
                lemma_decoded_len(s, dicts, *entry);
            }
        }
        let piece = slice_to_vec(cache.decoded.as_slice(), local_start, local_end);
        let ghost before = output@;
        extend_bytes(&mut output, piece.as_slice());
        proof {
            match spec_read_chunks(s, dicts, es, index + 1, offset, end) {
                Ok(rest) => {
                    assert(before + (piece@ + rest) =~= output@ + rest);
                },
                Err(x) => {},
            }
        }
        index = index + 1;
    }
    assert(spec_read_chunks(s, dicts, es, index as int, offset, end) == Ok::<Seq<u8>, QztError>(Seq::empty()));
    assert(output@ + Seq::<u8>::empty() =~= output@);
    if output.len() as u64 != length {
        return Err(QztError::ContainerCorrupt);
    }
    Ok(output)
}

/// A decoded chunk has the chunk's uncompressed size.
proof fn lemma_decoded_len(s: Seq<u8>, dicts: Seq<DictionaryEntry>, e: ChunkEntry)
    requires
        spec_decode_entry(s, dicts, e) is Ok,
    ensures
        spec_decode_entry(s, dicts, e)->Ok_0.len() == e.uncompressed_size,
{
}

/// A reader whose original can be read by range through a decode cache.
pub(crate) trait CachedRangeRead {
    /// The container bytes.
    spec fn range_bytes(&self) -> Seq<u8>;

    /// The structure the container was opened to.
    spec fn range_details(&self) -> SkeletonDetails;

    /// Whether reads of the container cannot fail for outside reasons.
    spec fn range_exact(&self) -> bool;

    fn read_range_cached(&self, offset: u64, length: u64, cache: &mut ChunkDecodeCache) -> (r: Result<Vec<u8>>)
        requires
            old(cache).holds(self.range_bytes(), self.range_details()),
        ensures
            final(cache).holds(self.range_bytes(), self.range_details()),
            match (r, spec_read_range(self.range_bytes(), self.range_details(), offset, length)) {
                (Ok(b), Ok(sb)) => b@ == sb,
                (Err(e), Err(se)) => e == se || (!self.range_exact() && spec_io_failure(e)) || e == QztError::ResourceLimitExceeded,
                (Err(e), Ok(_)) => (!self.range_exact() && spec_io_failure(e)) || e == QztError::ResourceLimitExceeded,
                _ => false,
            },
    ;
}

impl CachedRangeRead for QztReader {
    open spec fn range_bytes(&self) -> Seq<u8> {
        self.spec_bytes()
    }

    open spec fn range_details(&self) -> SkeletonDetails {
        self.spec_details()
    }

    open spec fn range_exact(&self) -> bool {
        true
    }

    fn read_range_cached(&self, offset: u64, length: u64, cache: &mut ChunkDecodeCache) -> (r: Result<Vec<u8>>) {
        proof {
            use_type_invariant(self);
            crate::skeleton::lemma_opened_table_consistent(self.bytes@, self.limits@, self.details);
        }
        read_range_cached_from_entries(&slice_source(self.bytes.as_slice()), &self.details, offset, length, cache)
    }
}

impl<R: ReadAt> CachedRangeRead for QztFileReader<R> {
    open spec fn range_bytes(&self) -> Seq<u8> {
        self.spec_bytes()
    }

    open spec fn range_details(&self) -> SkeletonDetails {
        self.spec_details()
    }

    open spec fn range_exact(&self) -> bool {
        false
    }

    fn read_range_cached(&self, offset: u64, length: u64, cache: &mut ChunkDecodeCache) -> (r: Result<Vec<u8>>) {
        proof {
            use_type_invariant(self);
            crate::skeleton::lemma_opened_table_consistent(
                spec_file_bytes(self.source.spec_content(), self.len), self.limits@, self.details);
        }
        read_range_cached_from_entries(&positioned_source(&self.source, self.len), &self.details, offset, length, cache)
    }
}

impl<R: ReadAt> QztFileReader<R> {
    /// The BLAKE3 checksum of the footer payload region, which binds search
    /// sidecars to this exact container.
    pub fn footer_checksum(&self) -> (r: Result<Checksum>)
        ensures
            match r {
                Ok(c) => self.spec_bytes().len() >= 64 && crate::schema::spec_is_blake3_checksum(c, blake3_digest(
                    self.spec_bytes().subrange(self.spec_details().footer_payload_offset as int, self.spec_bytes().len() - 64))),
                Err(e) => e == QztError::InvalidFooterTrailer || e == QztError::PhysicalRangeOutOfBounds || spec_io_failure(e),
            },
            self.spec_source().spec_reliable() && self.spec_bytes().len() <= self.spec_source().spec_content().len() ==> r is Ok,
    {
        proof {
            use_type_invariant(self);
            crate::skeleton::lemma_footer_before_trailer(self.spec_bytes(), self.limits@, self.details);
            assert(spec_file_bytes(self.source.spec_content(), self.len).len() == self.len);
        }
        if self.len < 64 {
            return Err(QztError::InvalidFooterTrailer);
        }
        let h = crate::skeleton::hash_span_at(&self.source, self.len, self.details.footer_payload_offset, self.len - 64)?;
        proof {
            assert(spec_file_bytes(self.source.spec_content(), self.len).len() == self.len);
        }
        Ok(Checksum::from_raw_bytes(h))
    }

    /// Decodes chunk `k`, checking both of its digests and its size.
    pub(crate) fn decode_chunk(&self, k: usize) -> (r: Result<Vec<u8>>)
        requires
            k < self.spec_details().chunk_entries@.len(),
        ensures
            match (r, spec_decode_entry(self.spec_bytes(), self.spec_details().dictionaries@, self.spec_details().chunk_entries@[k as int])) {
                (Ok(d), Ok(sd)) => d@ == sd,
                (Err(e), Err(se)) => e == se || spec_io_failure(e),
                (Err(e), Ok(_)) => spec_io_failure(e),
                _ => false,
            },
    {
        decode_entry(&positioned_source(&self.source, self.len), &self.details.dictionaries, &self.details.chunk_entries[k])
    }
}

// ---------------------------------------------------------------------------
// Deep verification
// ---------------------------------------------------------------------------

/// End of a document range, saturated at `u64::MAX`.
pub open spec fn spec_sat_end(start: u64, len: u64) -> u64 {
    if start + len > u64::MAX { u64::MAX } else { (start + len) as u64 }
}

/// The digest of a non-empty document range once `p` covers it.
pub open spec fn spec_doc_digest(p: Seq<u8>, start: u64, len: u64) -> Option<Seq<u8>> {
    let end = spec_sat_end(start, len);
    if len > 0 && end <= p.len() {
        Some(blake3_digest(p.subrange(start as int, end as int)))
    } else {
        None
    }
}

/// Feeding the part of a chunk that meets a document's range extends the
/// document's hashed bytes to the new end of the fed bytes.
proof fn lemma_feed_step(p0: Seq<u8>, d: Seq<u8>, start: u64, end: u64, h0: Seq<u8>, h1: Seq<u8>)
    requires
        end > p0.len(),
        start <= end,
        h0 == p0.subrange(if start < p0.len() { start as int } else { p0.len() as int }, p0.len() as int),
        ({
            let p1 = p0 + d;
            let lower = if p0.len() > start { p0.len() as int } else { start as int };
            let upper = if p1.len() < end { p1.len() as int } else { end as int };
            h1 == if lower < upper { h0 + p1.subrange(lower, upper) } else { h0 }
        }),
    ensures
        ({
            let p1 = p0 + d;
            h1 == p1.subrange(if start < p1.len() { start as int } else { p1.len() as int }, if end < p1.len() { end as int } else { p1.len() as int })
        }),
{
    let p1 = p0 + d;
    let upper = if p1.len() < end { p1.len() as int } else { end as int };
    if start < p0.len() {
        assert(p0.subrange(start as int, p0.len() as int) =~= p1.subrange(start as int, p0.len() as int));
        if p0.len() < upper {
            assert(p1.subrange(start as int, p0.len() as int) + p1.subrange(p0.len() as int, upper) =~= p1.subrange(start as int, upper));
        }
    } else {
        assert(h0 =~= Seq::<u8>::empty());
        if start < upper {
            assert(Seq::<u8>::empty() + p1.subrange(start as int, upper) =~= p1.subrange(start as int, upper));
        } else {
            assert(p1.subrange(if start < p1.len() { start as int } else { p1.len() as int }, upper) =~= Seq::<u8>::empty());
        }
    }
}

// ---------------------------------------------------------------------------
// Readers over the same bytes agree
// ---------------------------------------------------------------------------

/// Dictionary lists with the same ids and bytes, position by position, find
/// the same bytes for every id.
proof fn lemma_find_dictionary_agrees(a: Seq<DictionaryEntry>, b: Seq<DictionaryEntry>, id: u32)
    requires
        a.len() == b.len(),
        forall|k: int| 0 <= k < a.len() ==> (#[trigger] a[k]).dictionary_id == b[k].dictionary_id && a[k].bytes@ == b[k].bytes@,
    ensures
        spec_find_dictionary(a, id) == spec_find_dictionary(b, id),
    decreases a.len(),
{
    if a.len() > 0 && a[0].dictionary_id != id {
        assert forall|k: int| 0 <= k < a.drop_first().len() implies (#[trigger] a.drop_first()[k]).dictionary_id
            == b.drop_first()[k].dictionary_id && a.drop_first()[k].bytes@ == b.drop_first()[k].bytes@ by {
            assert(a.drop_first()[k] == a[k + 1] && b.drop_first()[k] == b[k + 1]);
        }
        lemma_find_dictionary_agrees(a.drop_first(), b.drop_first(), id);
    }
}

/// Two structures of one container give the same dictionary ids and bytes.
proof fn lemma_dictionaries_agree(s: Seq<u8>, limits: ResourceLimits, d1: SkeletonDetails, d2: SkeletonDetails)
    requires
        spec_skeleton_holds(s, limits, d1),
        spec_skeleton_holds(s, limits, d2),
    ensures
        d1.dictionaries@.len() == d2.dictionaries@.len(),
        forall|k: int| 0 <= k < d1.dictionaries@.len() ==> (#[trigger] d1.dictionaries@[k]).dictionary_id
            == d2.dictionaries@[k].dictionary_id && d1.dictionaries@[k].bytes@ == d2.dictionaries@[k].bytes@,
{
    assert forall|k: int| 0 <= k < d1.dictionaries@.len() implies (#[trigger] d1.dictionaries@[k]).dictionary_id
        == d2.dictionaries@[k].dictionary_id && d1.dictionaries@[k].bytes@ == d2.dictionaries@[k].bytes@ by {
        let hb = crate::skeleton::spec_header_region(s);
        let mi = crate::skeleton::spec_index_root_map(s);
        let vs = crate::schema::spec_blocks_of(mi);
        let items = crate::skeleton::spec_dictionary_stage(s, limits, vs, vs.len() as int, hb.subrange(48, 64))->Ok_0;
        assert(crate::schema::spec_dictionary_entry_matches(items[k], d1.dictionaries@[k]));
        assert(crate::schema::spec_dictionary_entry_matches(items[k], d2.dictionaries@[k]));
    }
}

/// Chunk reads over dictionaries that find the same bytes agree.
proof fn lemma_read_chunks_agree(
    s: Seq<u8>,
    a: Seq<DictionaryEntry>,
    b: Seq<DictionaryEntry>,
    es: Seq<ChunkEntry>,
    k: int,
    offset: u64,
    end: u64,
)
    requires
        forall|id: u32| #[trigger] spec_find_dictionary(a, id) == spec_find_dictionary(b, id),
    ensures
        spec_read_chunks(s, a, es, k, offset, end) == spec_read_chunks(s, b, es, k, offset, end),
        spec_export_chunks(s, a, es, k) == spec_export_chunks(s, b, es, k),
    decreases es.len() - k,
{
    if 0 <= k < es.len() {
        assert(spec_find_dictionary(a, es[k].dictionary_id) == spec_find_dictionary(b, es[k].dictionary_id));
        assert(spec_decode_entry(s, a, es[k]) == spec_decode_entry(s, b, es[k]));
        lemma_read_chunks_agree(s, a, b, es, k + 1, offset, end);
    }
}

/// Every structure a container opens to gives the same summary, the same
/// export and the same bytes for every logical range: what a reader returns
/// depends on the container bytes alone, not on the reader that opened them.
pub proof fn lemma_opened_structures_agree(s: Seq<u8>, limits: ResourceLimits, d1: SkeletonDetails, d2: SkeletonDetails)
    requires
        spec_skeleton_holds(s, limits, d1),
        spec_skeleton_holds(s, limits, d2),
    ensures
        spec_info(d1) == spec_info(d2),
        spec_export(s, d1) == spec_export(s, d2),
        forall|offset: u64, length: u64| #[trigger] spec_read_range(s, d1, offset, length) == spec_read_range(s, d2, offset, length),
{
    lemma_dictionaries_agree(s, limits, d1, d2);
    assert forall|id: u32| #[trigger] spec_find_dictionary(d1.dictionaries@, id) == spec_find_dictionary(d2.dictionaries@, id) by {
        lemma_find_dictionary_agrees(d1.dictionaries@, d2.dictionaries@, id);
    }
    assert(d1.chunk_entries@ == d2.chunk_entries@);
    assert(d1.summary.container_id@ == d2.summary.container_id@);
    assert(d1.summary.container_id =~= d2.summary.container_id);
    lemma_read_chunks_agree(s, d1.dictionaries@, d2.dictionaries@, d1.chunk_entries@, 0, 0, 0);
    assert forall|offset: u64, length: u64| #[trigger] spec_read_range(s, d1, offset, length) == spec_read_range(s, d2, offset, length) by {
        lemma_read_chunks_agree(s, d1.dictionaries@, d2.dictionaries@, d1.chunk_entries@, 0, offset, (offset + length) as u64);
    }
}

/// A positioned reader and an in-memory reader opened on the same container
/// bytes report the same summary, export the same original and read the same
/// bytes (or raise the same error) for every range; the positioned reader may
/// in addition fail where its source fails to read.
pub proof fn lemma_file_and_memory_readers_agree<R: ReadAt>(m: QztReader, f: QztFileReader<R>)
    requires
        m.spec_bytes() == f.spec_bytes(),
        spec_skeleton_holds(m.spec_bytes(), spec_default_resource_limits(), m.spec_details()),
        spec_skeleton_holds(f.spec_bytes(), spec_default_resource_limits(), f.spec_details()),
    ensures
        spec_info(m.spec_details()) == spec_info(f.spec_details()),
        spec_export(m.spec_bytes(), m.spec_details()) == spec_export(f.spec_bytes(), f.spec_details()),
        forall|offset: u64, length: u64| #[trigger] spec_read_range(m.spec_bytes(), m.spec_details(), offset, length)
            == spec_read_range(f.spec_bytes(), f.spec_details(), offset, length),
{
    lemma_opened_structures_agree(m.spec_bytes(), spec_default_resource_limits(), m.spec_details(), f.spec_details());
}

/// Single-pass BLAKE3 hashing of document ranges, fed decoded chunks in
/// logical order so document checksums need no second decode.
pub struct DocumentHasher {
    starts: Vec<u64>,
    lens: Vec<u64>,
    hashers: Vec<blake3::Hasher>,
    results: Vec<Option<[u8; 32]>>,
    fed: u64,
    prefix: Ghost<Seq<u8>>,
}

impl DocumentHasher {
    /// The original bytes fed so far, from logical offset zero.
    pub closed spec fn fed_bytes(&self) -> Seq<u8> {
        self.prefix@
    }

    /// Start offset of each document range, in document-index order.
    pub closed spec fn range_starts(&self) -> Seq<u64> {
        self.starts@
    }

    /// Byte length of each document range, in document-index order.
    pub closed spec fn range_lens(&self) -> Seq<u64> {
        self.lens@
    }

    /// Every document's state agrees with the bytes fed so far.
    pub closed spec fn inv(&self) -> bool {
        let p = self.prefix@;
        &&& self.lens@.len() == self.starts@.len()
        &&& self.hashers@.len() == self.starts@.len()
        &&& self.results@.len() == self.starts@.len()
        &&& p.len() == self.fed
        &&& forall|i: int| 0 <= i < self.starts@.len() ==> {
            let start = #[trigger] self.starts@[i];
            let len = self.lens@[i];
            let end = spec_sat_end(start, len);
            &&& (spec_doc_digest(p, start, len) matches Some(h) ==> self.results@[i] matches Some(v) && v@ == h)
            &&& (spec_doc_digest(p, start, len) is None ==> self.results@[i] is None)
            &&& (len > 0 && end > p.len() ==> crate::hashing::hasher_input(self.hashers@[i])
                == p.subrange(if start < p.len() { start as int } else { p.len() as int }, p.len() as int))
        }
    }

    /// A hasher for the document ranges of `index`, fed nothing yet.
    pub fn new(index: &DocumentIndex) -> (r: Self)
        ensures
            r.inv(),
            r.fed_bytes() == Seq::<u8>::empty(),
            r.range_starts().len() == index.documents@.len(),
            r.range_lens().len() == index.documents@.len(),
            forall|i: int| 0 <= i < index.documents@.len() ==> r.range_starts()[i] == (#[trigger] index.documents@[i]).logical_offset
                && r.range_lens()[i] == index.documents@[i].byte_length,
    {
        Self::for_entries(&index.documents)
    }

    /// A hasher for the ranges of `documents`, fed nothing yet.
    fn for_entries(documents: &Vec<DocumentEntry>) -> (r: Self)
        ensures
            r.inv(),
            r.prefix@ == Seq::<u8>::empty(),
            r.starts@.len() == documents@.len(),
            forall|i: int| 0 <= i < documents@.len() ==> r.starts@[i] == (#[trigger] documents@[i]).logical_offset
                && r.lens@[i] == documents@[i].byte_length,
    {
        let mut starts: Vec<u64> = Vec::new();
        let mut lens: Vec<u64> = Vec::new();
        let mut hashers: Vec<blake3::Hasher> = Vec::new();
        let mut results: Vec<Option<[u8; 32]>> = Vec::new();
        let mut i: usize = 0;
        while i < documents.len()
            invariant
                i <= documents@.len(),
                starts@.len() == i,
                lens@.len() == i,
                hashers@.len() == i,
                results@.len() == i,
                forall|j: int| 0 <= j < i ==> starts@[j] == (#[trigger] documents@[j]).logical_offset
                    && lens@[j] == documents@[j].byte_length,
                forall|j: int| 0 <= j < i ==> (#[trigger] results@[j]) is None,
                forall|j: int| 0 <= j < i ==> crate::hashing::hasher_input(#[trigger] hashers@[j]) == Seq::<u8>::empty(),
            decreases documents@.len() - i,
        {
            starts.push(documents[i].logical_offset);
            lens.push(documents[i].byte_length);
            hashers.push(crate::hashing::hasher_new());
            results.push(None);
            i = i + 1;
        }
        let r = DocumentHasher { starts, lens, hashers, results, fed: 0, prefix: Ghost(Seq::empty()) };
        proof {
            assert forall|j: int| 0 <= j < r.starts@.len() implies {
                let p = r.prefix@;
                let start = #[trigger] r.starts@[j];
                let len = r.lens@[j];
                let end = spec_sat_end(start, len);
                &&& (spec_doc_digest(p, start, len) matches Some(h) ==> r.results@[j] matches Some(v) && v@ == h)
                &&& (spec_doc_digest(p, start, len) is None ==> r.results@[j] is None)
                &&& (len > 0 && end > p.len() ==> crate::hashing::hasher_input(r.hashers@[j])
                    == p.subrange(if start < p.len() { start as int } else { p.len() as int }, p.len() as int))
            } by {
                assert(r.prefix@.subrange(0, 0) =~= Seq::<u8>::empty());
            }
        }
        r
    }

    /// Feeds the decoded chunk that follows everything fed so far.
    pub fn feed(&mut self, chunk_offset: u64, decoded: &[u8]) -> (r: Result<()>)
        requires
            old(self).inv(),
            chunk_offset == old(self).fed_bytes().len(),
        ensures
            final(self).range_starts() == old(self).range_starts(),
            final(self).range_lens() == old(self).range_lens(),
            final(self).inv(),
            r is Ok <==> chunk_offset + decoded@.len() <= u64::MAX,
            r is Ok ==> final(self).fed_bytes() == old(self).fed_bytes() + decoded@,
            r is Err ==> r == Err::<(), QztError>(QztError::ResourceLimitExceeded) && final(self).fed_bytes() == old(self).fed_bytes(),
    {
        let chunk_len = decoded.len() as u64;
        if chunk_offset > u64::MAX - chunk_len {
            return Err(QztError::ResourceLimitExceeded);
        }
        let chunk_end = chunk_offset + chunk_len;
        let ghost p0 = self.prefix@;
        let ghost p1 = p0 + decoded@;
        let mut i: usize = 0;
        while i < self.starts.len()
            invariant
                i <= self.starts@.len(),
                self.starts@ == old(self).starts@,
                self.lens@ == old(self).lens@,
                self.lens@.len() == self.starts@.len(),
                self.hashers@.len() == self.starts@.len(),
                self.results@.len() == self.starts@.len(),
                self.fed == chunk_offset,
                self.prefix@ == p0,
                p0.len() == chunk_offset,
                p1 == p0 + decoded@,
                chunk_end == chunk_offset + decoded@.len(),
                forall|j: int| i <= j < self.starts@.len() ==> {
                    let start = #[trigger] self.starts@[j];
                    let len = self.lens@[j];
                    let end = spec_sat_end(start, len);
                    &&& self.results@[j] == old(self).results@[j]
                    &&& self.hashers@[j] == old(self).hashers@[j]
                    &&& (spec_doc_digest(p0, start, len) matches Some(h) ==> self.results@[j] matches Some(v) && v@ == h)
                    &&& (spec_doc_digest(p0, start, len) is None ==> self.results@[j] is None)
                    &&& (len > 0 && end > p0.len() ==> crate::hashing::hasher_input(self.hashers@[j])
                        == p0.subrange(if start < p0.len() { start as int } else { p0.len() as int }, p0.len() as int))
                },
                forall|j: int| 0 <= j < i ==> {
                    let start = #[trigger] self.starts@[j];
                    let len = self.lens@[j];
                    let end = spec_sat_end(start, len);
                    &&& (spec_doc_digest(p1, start, len) matches Some(h) ==> self.results@[j] matches Some(v) && v@ == h)
                    &&& (spec_doc_digest(p1, start, len) is None ==> self.results@[j] is None)
                    &&& (len > 0 && end > p1.len() ==> crate::hashing::hasher_input(self.hashers@[j])
                        == p1.subrange(if start < p1.len() { start as int } else { p1.len() as int }, p1.len() as int))
                },
            decreases self.starts@.len() - i,
        {
            let start = self.starts[i];
            let len = self.lens[i];
            let end = if start > u64::MAX - len { u64::MAX } else { start + len };
            assert(end == spec_sat_end(start, len));
            let ghost h0 = crate::hashing::hasher_input(self.hashers@[i as int]);
            if len > 0 && end > chunk_offset {
                let lower = if chunk_offset > start { chunk_offset } else { start };
                let upper = if chunk_end < end { chunk_end } else { end };
                if lower < upper {
                    assert(decoded@.len() == decoded.len());
                    let local_start = (lower - chunk_offset) as usize;
                    let local_end = (upper - chunk_offset) as usize;
                    let slice = crate::skeleton::slice_subrange(decoded, local_start, local_end);
                    crate::hashing::hasher_update(&mut self.hashers[i], slice);
                    assert(slice@ =~= p1.subrange(lower as int, upper as int));
                }
                proof {
                    lemma_feed_step(p0, decoded@, start, end, h0, crate::hashing::hasher_input(self.hashers@[i as int]));
                }
                if end <= chunk_end {
                    let digest = crate::hashing::hasher_finalize(&self.hashers[i]);
                    self.results.set(i, Some(digest));
                }
            } else {
                proof {
                    if len > 0 {
                        assert(p1.subrange(start as int, end as int) =~= p0.subrange(start as int, end as int));
                    }
                }
            }
            i = i + 1;
        }
        self.fed = chunk_end;
        self.prefix = Ghost(p1);
        Ok(())
    }

    /// The digest of every document the fed bytes cover; none for an empty
    /// document or one reaching past them.
    pub fn finish(self) -> (r: Vec<Option<[u8; 32]>>)
        requires
            self.inv(),
        ensures
            r@.len() == self.range_starts().len(),
            forall|i: int| 0 <= i < r@.len() ==> (match spec_doc_digest(self.fed_bytes(), self.range_starts()[i], self.range_lens()[i]) {
                Some(h) => (#[trigger] r@[i]) matches Some(v) && v@ == h,
                None => r@[i] is None,
            }),
    {
        self.results
    }
}

/// `r` is the first chunk whose range ends after `offset`.
pub open spec fn spec_ends_after_at(es: Seq<ChunkEntry>, offset: int, r: int) -> bool {
    &&& 0 <= r <= es.len()
    &&& forall|j: int| 0 <= j < r ==> #[trigger] es[j].logical_offset + es[j].uncompressed_size <= offset
    &&& r < es.len() ==> es[r].logical_offset + es[r].uncompressed_size > offset
}

/// The first chunk whose range ends after `offset`.
pub open spec fn spec_first_ending_after(es: Seq<ChunkEntry>, offset: int) -> int {
    choose|r: int| spec_ends_after_at(es, offset, r)
}

proof fn lemma_first_ending_after(es: Seq<ChunkEntry>, offset: int, r: int)
    requires
        spec_ends_after_at(es, offset, r),
    ensures
        spec_first_ending_after(es, offset) == r,
{
    let c = spec_first_ending_after(es, offset);
    assert(spec_ends_after_at(es, offset, c));
    if c < r {
        assert(es[c].logical_offset + es[c].uncompressed_size <= offset);
    } else if r < c {
        assert(es[r].logical_offset + es[r].uncompressed_size <= offset);
    }
}

/// Chunk span `[first, last + 1)` covering a logical document range; empty
/// for an empty document.
pub open spec fn spec_doc_chunk_range(es: Seq<ChunkEntry>, offset: u64, length: u64) -> Result<(u64, u64)> {
    if length == 0 {
        Ok((0, 0))
    } else if offset + length > u64::MAX {
        Err(QztError::LogicalRangeOutOfBounds)
    } else {
        let f = spec_first_ending_after(es, offset as int);
        let l = spec_first_ending_after(es, offset + length - 1);
        if f >= es.len() || l >= es.len() || es[l].chunk_id == u64::MAX {
            Err(QztError::ChunkTableInvalid)
        } else {
            Ok((es[f].chunk_id, (es[l].chunk_id + 1) as u64))
        }
    }
}

/// The chunk span of a document range, found by two binary searches.
fn document_chunk_range(entries: &Vec<ChunkEntry>, offset: u64, length: u64, Ghost(size): Ghost<u64>, Ghost(lines): Ghost<u64>)
    -> (r: Result<(u64, u64)>)
    requires
        spec_table_consistent(entries@, size, lines),
    ensures
        r == spec_doc_chunk_range(entries@, offset, length),
{
    if length == 0 {
        return Ok((0, 0));
    }
    let end = crate::primitives::checked_logical_end(offset, length)?;
    let first_index = range_start_chunk_index(entries, offset, Ghost(size), Ghost(lines));
    let last_index = range_start_chunk_index(entries, end - 1, Ghost(size), Ghost(lines));
    proof {
        lemma_first_ending_after(entries@, offset as int, first_index as int);
        lemma_first_ending_after(entries@, end - 1, last_index as int);
    }
    if first_index >= entries.len() || last_index >= entries.len() {
        return Err(QztError::ChunkTableInvalid);
    }
    let first = entries[first_index].chunk_id;
    let last = entries[last_index].chunk_id;
    if last == u64::MAX {
        return Err(QztError::ChunkTableInvalid);
    }
    Ok((first, last + 1))
}

/// Why document entry `doc` does not describe original bytes `x` of `size`
/// bytes and `lines` lines split into chunks `es`, if it does not: its byte
/// and line ranges, its id hash, its checksum, then its chunk span.
pub open spec fn spec_document_error(doc: DocumentEntry, x: Seq<u8>, size: u64, lines: u64, es: Seq<ChunkEntry>) -> Option<QztError> {
    let end = doc.logical_offset + doc.byte_length;
    if end > u64::MAX || end > size {
        Some(QztError::LogicalRangeOutOfBounds)
    } else if doc.first_line + doc.line_count > u64::MAX {
        Some(QztError::LogicalRangeOutOfBounds)
    } else if doc.first_line + doc.line_count > lines {
        Some(QztError::LineOutOfRange)
    } else if doc.doc_id_hash@ != blake3_digest(vstd::utf8::encode_utf8(doc.doc_id@)).subrange(0, 16) {
        Some(QztError::ContainerCorrupt)
    } else if !(doc.checksum.algorithm@ == "blake3"@ && doc.checksum.value@ == blake3_digest(x.subrange(doc.logical_offset as int, end))) {
        Some(QztError::ContainerCorrupt)
    } else {
        match spec_doc_chunk_range(es, doc.logical_offset, doc.byte_length) {
            Err(e) => Some(e),
            Ok((a, b)) => if doc.chunk_start != a || doc.chunk_end != b {
                Some(QztError::ChunkTableInvalid)
            } else {
                None
            },
        }
    }
}

/// The first error among the first `n` document entries.
pub open spec fn spec_documents_error(docs: Seq<DocumentEntry>, x: Seq<u8>, size: u64, lines: u64, es: Seq<ChunkEntry>, n: int) -> Option<QztError>
    decreases n,
{
    if n <= 0 {
        None
    } else if spec_documents_error(docs, x, size, lines, es, n - 1) is Some {
        spec_documents_error(docs, x, size, lines, es, n - 1)
    } else {
        spec_document_error(docs[n - 1], x, size, lines, es)
    }
}

proof fn lemma_documents_error_stable(docs: Seq<DocumentEntry>, x: Seq<u8>, size: u64, lines: u64, es: Seq<ChunkEntry>, n: int, m: int)
    requires
        0 <= n <= m,
        spec_documents_error(docs, x, size, lines, es, n) is Some,
    ensures
        spec_documents_error(docs, x, size, lines, es, m) == spec_documents_error(docs, x, size, lines, es, n),
    decreases m - n,
{
    if n < m {
        lemma_documents_error_stable(docs, x, size, lines, es, n, m - 1);
    }
}

/// Checks every document entry against the original bytes, given the
/// digests of the non-empty documents.
fn verify_document_index_ranges(
    documents: &Vec<DocumentEntry>,
    original_size: u64,
    line_count: u64,
    entries: &Vec<ChunkEntry>,
    hashes: &Vec<Option<[u8; 32]>>,
    Ghost(x): Ghost<Seq<u8>>,
    Ghost(table_lines): Ghost<u64>,
) -> (r: Result<()>)
    requires
        spec_table_consistent(entries@, original_size, table_lines),
        x.len() == original_size,
        hashes@.len() == documents@.len(),
        forall|i: int| 0 <= i < hashes@.len() ==> (match spec_doc_digest(x, documents@[i].logical_offset, documents@[i].byte_length) {
            Some(h) => (#[trigger] hashes@[i]) matches Some(v) && v@ == h,
            None => hashes@[i] is None,
        }),
    ensures
        r == match spec_documents_error(documents@, x, original_size, line_count, entries@, documents@.len() as int) {
            Some(e) => Err::<(), QztError>(e),
            None => Ok::<(), QztError>(()),
        },
{
    let ghost docs = documents@;
    let mut i: usize = 0;
    while i < documents.len()
        invariant
            i <= docs.len(),
            docs == documents@,
            spec_table_consistent(entries@, original_size, table_lines),
            x.len() == original_size,
            hashes@.len() == docs.len(),
            forall|k: int| 0 <= k < hashes@.len() ==> (match spec_doc_digest(x, docs[k].logical_offset, docs[k].byte_length) {
                Some(h) => (#[trigger] hashes@[k]) matches Some(v) && v@ == h,
                None => hashes@[k] is None,
            }),
            spec_documents_error(docs, x, original_size, line_count, entries@, i as int) is None,
        decreases docs.len() - i,
    {
        let document = &documents[i];
        proof {
            if spec_document_error(docs[i as int], x, original_size, line_count, entries@) is Some {
                lemma_documents_error_stable(docs, x, original_size, line_count, entries@, i + 1, docs.len() as int);
            }
        }
        let end = crate::primitives::checked_logical_end(document.logical_offset, document.byte_length)?;
        if end > original_size {
            return Err(QztError::LogicalRangeOutOfBounds);
        }
        let line_end = crate::primitives::checked_logical_end(document.first_line, document.line_count)?;
        if line_end > line_count {
            return Err(QztError::LineOutOfRange);
        }
        let doc_hash = crate::hashing::blake3_hash(document.doc_id.as_str().as_bytes());
        if !bytes_equal(crate::skeleton::slice_subrange(&doc_hash, 0, 16), &document.doc_id_hash) {
            return Err(QztError::ContainerCorrupt);
        }
        let actual = if document.byte_length == 0 {
            let empty: [u8; 0] = [];
            proof {
                assert(empty@ =~= x.subrange(document.logical_offset as int, end as int));
            }
            Checksum::blake3(&empty)
        } else {
            match hashes[i] {
                Some(value) => Checksum::from_raw_bytes(value),
                None => {
                    return Err(QztError::ContainerCorrupt);
                },
            }
        };
        if !actual.same_as(&document.checksum) {
            proof {
                reveal_strlit("blake3");
            }
            return Err(QztError::ContainerCorrupt);
        }
        let (chunk_start, chunk_end) = document_chunk_range(entries, document.logical_offset, document.byte_length,
            Ghost(original_size), Ghost(table_lines))?;
        if document.chunk_start != chunk_start || document.chunk_end != chunk_end {
            return Err(QztError::ChunkTableInvalid);
        }
        i = i + 1;
    }
    Ok(())
}

/// The flags a chunk starting after original bytes `acc` must carry: a line
/// continuation unless it opens the text or follows an LF.
pub open spec fn spec_expected_flags(e: ChunkEntry, acc: Seq<u8>) -> u32 {
    if e.logical_offset > 0 && !(acc.len() > 0 && acc.last() == 10u8) {
        STARTS_WITH_LINE_CONTINUATION
    } else {
        0
    }
}

/// The dense line index, when there is one, holds the line starts of chunk `k`.
pub open spec fn spec_dense_chunk_ok(d: SkeletonDetails, k: int, dec: Seq<u8>, flags: u32) -> bool {
    match d.dense_line_index {
        None => true,
        Some(di) => k < di@.len() && di@[k].1 == crate::dense_line_index::spec_local_line_starts(dec, flags),
    }
}

/// Deep checks of chunks `k..` after original bytes `acc` holding `lines`
/// line starts: flags, first line, decoding, UTF-8, dense index and line
/// count of each chunk; the original bytes and line starts, or the first error.
pub open spec fn spec_deep_chunks(s: Seq<u8>, d: SkeletonDetails, k: int, acc: Seq<u8>, lines: int) -> Result<(Seq<u8>, int)>
    decreases d.chunk_entries@.len() - k,
{
    let es = d.chunk_entries@;
    if k < 0 || k >= es.len() {
        Ok((acc, lines))
    } else {
        let e = es[k];
        if e.flags != spec_expected_flags(e, acc) || e.first_line != lines {
            Err(QztError::ChunkTableInvalid)
        } else {
            match spec_decode_entry(s, d.dictionaries@, e) {
                Err(x) => Err(x),
                Ok(dec) => {
                    let n = crate::dense_line_index::spec_local_line_starts(dec, e.flags).len() as int;
                    if !vstd::utf8::valid_utf8(dec) {
                        Err(QztError::InvalidUtf8)
                    } else if !spec_dense_chunk_ok(d, k, dec, e.flags) || e.line_count != n {
                        Err(QztError::ChunkTableInvalid)
                    } else if lines + n > u64::MAX || acc.len() + dec.len() > u64::MAX {
                        Err(QztError::ResourceLimitExceeded)
                    } else {
                        spec_deep_chunks(s, d, k + 1, acc + dec, lines + n)
                    }
                },
            }
        }
    }
}

/// What deep verification of container `s` opened as `d` gives: normal
/// verification, then every chunk decoded and checked, then the original
/// size, checksum, line count and newline mode, then every document entry.
pub open spec fn spec_verify_deep(s: Seq<u8>, d: SkeletonDetails) -> Result<VerifyReport> {
    match spec_verify_normal(s, d) {
        Err(e) => Err(e),
        Ok(_) => match spec_deep_chunks(s, d, 0, Seq::empty(), 0) {
            Err(e) => Err(e),
            Ok((x, lines)) => {
                let m = d.metadata;
                if x.len() != d.summary.original_size {
                    Err(QztError::ChunkSizeMismatch)
                } else if !(m.original_checksum.algorithm@ == "blake3"@ && m.original_checksum.value@ == blake3_digest(x)) {
                    Err(QztError::UncompressedChunkChecksumMismatch)
                } else if lines != m.line_count {
                    Err(QztError::ContainerCorrupt)
                } else if crate::chunker::spec_mode_name(crate::chunker::spec_newline_mode(x)) != m.newline_mode@ {
                    Err(QztError::NewlineModeMismatch)
                } else {
                    let report = VerifyReport { level: VerifyLevel::Deep, checked_chunks: d.summary.chunk_count, decoded_bytes: d.summary.original_size };
                    match d.document_index {
                        None => Ok(report),
                        Some(di) => match spec_documents_error(di.documents@, x, d.summary.original_size, m.line_count, d.chunk_entries@, di.documents@.len() as int) {
                            Some(e) => Err(e),
                            None => Ok(report),
                        },
                    }
                }
            },
        },
    }
}

/// Newline counts below `n` depend only on the bytes below `n`.
proof fn lemma_newline_counts_prefix(a: Seq<u8>, b: Seq<u8>, n: int)
    requires
        0 <= n <= a.len(),
    ensures
        crate::chunker::spec_lf_count(a + b, n) == crate::chunker::spec_lf_count(a, n),
        crate::chunker::spec_crlf_count(a + b, n) == crate::chunker::spec_crlf_count(a, n),
    decreases n,
{
    if n > 0 {
        lemma_newline_counts_prefix(a, b, n - 1);
        assert((a + b)[n - 1] == a[n - 1]);
        if n >= 2 {
            assert((a + b)[n - 2] == a[n - 2]);
        }
    }
}

/// Deep verification of the chunks of an opened container.
pub(crate) fn verify_deep_entries<S: BlockSource>(src: &S, details: &SkeletonDetails) -> (r: Result<VerifyReport>)
    requires
        spec_table_consistent(details.chunk_entries@, details.summary.original_size, details.summary.line_count),
    ensures
        match (r, spec_verify_deep(src.spec_bytes(), *details)) {
            (Ok(rep), Ok(srep)) => rep == srep,
            (Err(e), Err(se)) => e == se || (!src.spec_exact() && spec_io_failure(e)),
            (Err(e), Ok(_)) => !src.spec_exact() && spec_io_failure(e),
            _ => false,
        },
{
    match verify_normal_entries(src, details) {
        Ok(_) => {},
        Err(e) => {
            return Err(e);
        },
    }
    let ghost s = src.spec_bytes();
    let ghost d = *details;
    let ghost es = details.chunk_entries@;
    let empty_documents: Vec<DocumentEntry> = Vec::new();
    let documents = match &details.document_index {
        Some(di) => &di.documents,
        None => &empty_documents,
    };
    let mut document_hasher = DocumentHasher::for_entries(documents);
    let mut original_hasher = crate::hashing::hasher_new();
    let mut line_starts: u64 = 0;
    let mut lf_count: u64 = 0;
    let mut crlf_count: u64 = 0;
    let mut previous_lf = false;
    let mut previous_cr = false;
    let mut decoded_bytes: u64 = 0;
    let ghost mut acc: Seq<u8> = Seq::empty();
    let mut k: usize = 0;
    while k < details.chunk_entries.len()
        invariant
            k <= es.len(),
            s == src.spec_bytes(),
            d == *details,
            es == details.chunk_entries@,
            spec_table_consistent(es, details.summary.original_size, details.summary.line_count),
            spec_verify_normal(s, d) is Ok,
            spec_deep_chunks(s, d, 0, Seq::empty(), 0) == spec_deep_chunks(s, d, k as int, acc, line_starts as int),
            crate::hashing::hasher_input(original_hasher) == acc,
            acc.len() == decoded_bytes,
            decoded_bytes == crate::chunk_table::spec_sum_sizes(es, k as int),
            lf_count == crate::chunker::spec_lf_count(acc, acc.len() as int),
            crlf_count == crate::chunker::spec_crlf_count(acc, acc.len() as int),
            lf_count + crlf_count <= acc.len(),
            previous_lf == (acc.len() > 0 && acc.last() == 10u8),
            previous_cr == (acc.len() > 0 && acc.last() == 13u8),
            document_hasher.inv(),
            document_hasher.prefix@ == acc,
            document_hasher.starts@.len() == documents@.len(),
            forall|i: int| 0 <= i < documents@.len() ==> document_hasher.starts@[i] == (#[trigger] documents@[i]).logical_offset
                && document_hasher.lens@[i] == documents@[i].byte_length,
        decreases es.len() - k,
    {
        let entry = &details.chunk_entries[k];
        proof {
            crate::chunk_table::lemma_consistent_inside(es, details.summary.original_size, details.summary.line_count, k as int);
        }
        let expected_flags: u32 = if entry.logical_offset > 0 && !previous_lf { STARTS_WITH_LINE_CONTINUATION } else { 0 };
        if entry.flags != expected_flags || entry.first_line != line_starts {
            return Err(QztError::ChunkTableInvalid);
        }
        let decoded = match decode_entry(src, &details.dictionaries, entry) {
            Ok(x) => x,
            Err(e) => {
                return Err(e);
            },
        };
        if text_from_utf8(decoded.as_slice()).is_none() {
            return Err(QztError::InvalidUtf8);
        }
        match &details.dense_line_index {
            Some(dense) => {
                if dense.verify_chunk(k, decoded.as_slice(), entry.flags).is_err() {
                    return Err(QztError::ChunkTableInvalid);
                }
            },
            None => {},
        }
        let starts = match crate::dense_line_index::line_start_offsets(decoded.as_slice(), entry.flags) {
            Ok(v) => v,
            Err(e) => {
                return Err(e);
            },
        };
        let n = starts.len() as u64;
        if entry.line_count != n {
            return Err(QztError::ChunkTableInvalid);
        }
        let len = decoded.len() as u64;
        if line_starts > u64::MAX - n || decoded_bytes > u64::MAX - len {
            return Err(QztError::ResourceLimitExceeded);
        }
        crate::hashing::hasher_update(&mut original_hasher, decoded.as_slice());
        let ghost y0 = acc;
        let mut j: usize = 0;
        while j < decoded.len()
            invariant
                j <= decoded@.len(),
                y0.len() + decoded@.len() <= u64::MAX,
                lf_count == crate::chunker::spec_lf_count(y0 + decoded@.subrange(0, j as int), y0.len() + j),
                crlf_count == crate::chunker::spec_crlf_count(y0 + decoded@.subrange(0, j as int), y0.len() + j),
                lf_count + crlf_count <= y0.len() + j,
                previous_lf == (y0.len() + j > 0 && (y0 + decoded@.subrange(0, j as int)).last() == 10u8),
                previous_cr == (y0.len() + j > 0 && (y0 + decoded@.subrange(0, j as int)).last() == 13u8),
            decreases decoded@.len() - j,
        {
            let b = decoded[j];
            let ghost y = y0 + decoded@.subrange(0, j as int);
            let ghost y1 = y0 + decoded@.subrange(0, j + 1);
            proof {
                assert(y1 =~= y + seq![b]);
                lemma_newline_counts_prefix(y, seq![b], y.len() as int);
                assert(y1[y.len() as int] == b);
                if y.len() > 0 {
                    assert(y1[y.len() - 1] == y.last());
                }
            }
            if b == 10 {
                if previous_cr {
                    crlf_count = crlf_count + 1;
                } else {
                    lf_count = lf_count + 1;
                }
            }
            previous_lf = b == 10;
            previous_cr = b == 13;
            j = j + 1;
        }
        proof {
            assert(decoded@.subrange(0, j as int) =~= decoded@);
        }
        line_starts = line_starts + n;
        if document_hasher.feed(decoded_bytes, decoded.as_slice()).is_err() {
            return Err(QztError::ResourceLimitExceeded);
        }
        decoded_bytes = decoded_bytes + len;
        proof {
            acc = acc + decoded@;
        }
        k = k + 1;
    }
    if decoded_bytes != details.summary.original_size {
        return Err(QztError::ChunkSizeMismatch);
    }
    let digest = crate::hashing::hasher_finalize(&original_hasher);
    if !Checksum::from_raw_bytes(digest).same_as(&details.metadata.original_checksum) {
        return Err(QztError::UncompressedChunkChecksumMismatch);
    }
    if line_starts != details.metadata.line_count {
        return Err(QztError::ContainerCorrupt);
    }
    let mode = crate::chunker::NewlineMode::from_counts(lf_count, crlf_count);
    if !crate::schema::text_is(&details.metadata.newline_mode, mode.as_str()) {
        return Err(QztError::NewlineModeMismatch);
    }
    match &details.document_index {
        Some(di) => {
            let hashes = document_hasher.finish();
            verify_document_index_ranges(&di.documents, details.summary.original_size, details.metadata.line_count,
                &details.chunk_entries, &hashes, Ghost(acc), Ghost(details.summary.line_count))?;
        },
        None => {},
    }
    Ok(VerifyReport { level: VerifyLevel::Deep, checked_chunks: details.summary.chunk_count, decoded_bytes })
}

/// What verification at `level` of container `s` opened as `d` gives: the
/// structure alone, every compressed digest and the container checksum, or
/// every chunk decoded and every recorded fact re-derived.
pub open spec fn spec_verify(s: Seq<u8>, d: SkeletonDetails, level: VerifyLevel) -> Result<VerifyReport> {
    match level {
        VerifyLevel::Quick => Ok(VerifyReport { level: VerifyLevel::Quick, checked_chunks: d.summary.chunk_count, decoded_bytes: 0 }),
        VerifyLevel::Normal => spec_verify_normal(s, d),
        VerifyLevel::Deep => spec_verify_deep(s, d),
    }
}

impl QztReader {
    /// Verifies the container at `level`.
    pub fn verify(&self, level: VerifyLevel) -> (r: Result<VerifyReport>)
        ensures
            r == spec_verify(self.spec_bytes(), self.spec_details(), level),
    {
        proof {
            use_type_invariant(self);
            crate::skeleton::lemma_opened_table_consistent(self.bytes@, self.limits@, self.details);
        }
        match level {
            VerifyLevel::Quick => Ok(VerifyReport { level: VerifyLevel::Quick, checked_chunks: self.details.summary.chunk_count, decoded_bytes: 0 }),
            VerifyLevel::Normal => verify_normal_entries(&slice_source(self.bytes.as_slice()), &self.details),
            VerifyLevel::Deep => verify_deep_entries(&slice_source(self.bytes.as_slice()), &self.details),
        }
    }
}

impl<R: ReadAt> QztFileReader<R> {
    /// Verifies the container at `level`, streaming its bytes from the source.
    pub fn verify(&self, level: VerifyLevel) -> (r: Result<VerifyReport>)
        ensures
            match (r, spec_verify(self.spec_bytes(), self.spec_details(), level)) {
                (Ok(rep), Ok(srep)) => rep == srep,
                (Err(e), Err(se)) => e == se || spec_io_failure(e),
                (Err(e), Ok(_)) => spec_io_failure(e),
                _ => false,
            },
    {
        proof {
            use_type_invariant(self);
            crate::skeleton::lemma_opened_table_consistent(
                spec_file_bytes(self.source.spec_content(), self.len), self.limits@, self.details);
        }
        match level {
            VerifyLevel::Quick => Ok(VerifyReport { level: VerifyLevel::Quick, checked_chunks: self.details.summary.chunk_count, decoded_bytes: 0 }),
            VerifyLevel::Normal => verify_normal_entries(&positioned_source(&self.source, self.len), &self.details),
            VerifyLevel::Deep => verify_deep_entries(&positioned_source(&self.source, self.len), &self.details),
        }
    }
}

} // verus!
