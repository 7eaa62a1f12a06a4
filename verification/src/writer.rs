//! Packing original bytes into a container: planned chunks compressed as
//! independent zstd frames, then metadata, optional indexes, the chunk table,
//! the index root, the footer payload and the trailer.

use vstd::prelude::*;
use vstd::utf8::*;
use crate::bytes_util::{extend_bytes, slice_to_vec};
use crate::chunk_table::{spec_entry_bytes, ChunkEntry, CHUNK_ENTRY_LEN};
use crate::chunker::{
    choose_chunk_end, plan_chunks, spec_chunk_ends_ok, spec_is_plan, spec_lines_before, spec_options_valid,
    spec_plan_ends, spec_planned_chunk, ChunkPlan, ChunkerOptions, NewlineMode, PlannedChunk,
};
use crate::codec::{zstd_decode_prefix, zstd_encode_all, zstd_frame};
use crate::dense_line_index::DenseLineIndex;
use crate::error::{QztError, Result};
use crate::fixed::{FooterTrailer, Header};
use crate::format::{FOOTER_TRAILER_LEN, HEADER_LEN};
use crate::hashing::{blake3_digest, blake3_hash};
use crate::cbor::spec_encode_det;
use crate::schema::{
    copy_checksum, spec_descriptor_is, spec_document_index_item, spec_footer_item, spec_index_root_item,
    spec_is_blake3_checksum, spec_metadata_fields, spec_metadata_item, BlockDescriptor, BlockRef, Checksum,
    DocumentIndex, FooterPayload, IndexRoot, Metadata, MetadataOptions,
};
use crate::skeleton::fixed_point_footer_payload;

verus! {

/// Writer options for the no-dictionary writer.
#[derive(Debug, Clone, Copy, PartialEq, Eq)]
pub struct WriterOptions {
    pub chunker: ChunkerOptions,
    pub zstd_level: i32,
}

impl Default for WriterOptions {
    /// 4 MiB target and 16 MiB maximum chunks at zstd's default level.
    fn default() -> (r: Self)
        ensures
            r.chunker.target_chunk_size == 4194304,
            r.chunker.max_chunk_size == 16777216,
            r.zstd_level == 0,
    {
        WriterOptions {
            chunker: ChunkerOptions { target_chunk_size: 4194304, max_chunk_size: 16777216 },
            zstd_level: 0,
        }
    }
}

// ---------------------------------------------------------------------------
// Compressing planned chunks
// ---------------------------------------------------------------------------

/// Where chunk `k` of a plan with chunk ends `ends` starts.
pub open spec fn spec_chunk_start(ends: Seq<int>, k: int) -> int {
    if k <= 0 {
        0
    } else {
        ends[k - 1]
    }
}

/// The input bytes of chunk `k` of a plan with chunk ends `ends`.
pub open spec fn spec_chunk_bytes(input: Seq<u8>, ends: Seq<int>, k: int) -> Seq<u8> {
    input.subrange(spec_chunk_start(ends, k), ends[k])
}

/// The total length of the first `n` frames.
pub open spec fn spec_frames_len(cs: Seq<Seq<u8>>, n: int) -> int
    decreases n,
{
    if n <= 0 {
        0
    } else {
        spec_frames_len(cs, n - 1) + cs[n - 1].len()
    }
}

/// The first `n` frames, concatenated.
pub open spec fn spec_frames(cs: Seq<Seq<u8>>, n: int) -> Seq<u8>
    decreases n,
{
    if n <= 0 {
        Seq::empty()
    } else {
        spec_frames(cs, n - 1) + cs[n - 1]
    }
}

/// The error compressing the first `n` chunks of `ends` at `level` raises,
/// with frames placed one after another from `base`.
pub open spec fn spec_compress_error(input: Seq<u8>, ends: Seq<int>, level: i32, n: int, base: int) -> Option<QztError>
    decreases n,
{
    if n <= 0 {
        None
    } else if spec_compress_error(input, ends, level, n - 1, base) is Some {
        spec_compress_error(input, ends, level, n - 1, base)
    } else {
        match zstd_frame(spec_chunk_bytes(input, ends, n - 1), level) {
            None => Some(QztError::ZstdEncodeError),
            Some(c) => if c.len() == 0 {
                Some(QztError::ChunkSizeMismatch)
            } else if base + spec_frames_len(spec_frames_of(input, ends, level, n), n) > u64::MAX {
                Some(QztError::PhysicalRangeOutOfBounds)
            } else {
                None
            },
        }
    }
}

/// The frames zstd writes for the first `n` chunks.
pub open spec fn spec_frames_of(input: Seq<u8>, ends: Seq<int>, level: i32, n: int) -> Seq<Seq<u8>> {
    Seq::new(n as nat, |k: int| zstd_frame(spec_chunk_bytes(input, ends, k), level)->Some_0)
}

/// `es` and `cs` are the entries and frames written for the chunks of
/// `input` that end at `ends`, at `level`, with frames placed one after
/// another from `base`.
pub open spec fn spec_chunks_written(
    input: Seq<u8>,
    ends: Seq<int>,
    level: i32,
    base: int,
    es: Seq<ChunkEntry>,
    cs: Seq<Seq<u8>>,
) -> bool {
    &&& es.len() == ends.len()
    &&& cs.len() == ends.len()
    &&& forall|k: int| 0 <= k < ends.len() ==> spec_chunk_written(input, ends, level, k,
        base + spec_frames_len(cs, k), #[trigger] es[k], cs[k])
    &&& base + spec_frames_len(cs, cs.len() as int) <= u64::MAX
}

proof fn lemma_frames_prefix(a: Seq<Seq<u8>>, b: Seq<Seq<u8>>, n: int)
    requires
        0 <= n <= a.len(),
        n <= b.len(),
        forall|k: int| 0 <= k < n ==> a[k] == b[k],
    ensures
        spec_frames(a, n) == spec_frames(b, n),
        spec_frames_len(a, n) == spec_frames_len(b, n),
    decreases n,
{
    if n > 0 {
        lemma_frames_prefix(a, b, n - 1);
    }
}

proof fn lemma_frames_len(cs: Seq<Seq<u8>>, n: int)
    requires
        0 <= n <= cs.len(),
    ensures
        spec_frames(cs, n).len() == spec_frames_len(cs, n),
    decreases n,
{
    if n > 0 {
        lemma_frames_len(cs, n - 1);
    }
}

/// The bytes of each frame.
pub open spec fn spec_frames_view(v: Seq<Vec<u8>>) -> Seq<Seq<u8>> {
    Seq::new(v.len(), |i: int| v[i]@)
}

/// Entry `k` and frame `c` are what compressing chunk `k` writes at `physical_offset`.
pub open spec fn spec_chunk_written(input: Seq<u8>, ends: Seq<int>, level: i32, k: int, physical_offset: int, e: ChunkEntry, c: Seq<u8>) -> bool {
    let chunk = spec_chunk_bytes(input, ends, k);
    &&& zstd_frame(chunk, level) == Some(c)
    &&& forall|limit: u64| limit >= chunk.len() ==> #[trigger] zstd_decode_prefix(c, Seq::<u8>::empty(), limit) == Some(chunk)
    &&& c.len() > 0
    &&& spec_planned_chunk(input, ends, k, PlannedChunk {
        chunk_id: e.chunk_id,
        logical_offset: e.logical_offset,
        uncompressed_size: e.uncompressed_size,
        first_line: e.first_line,
        line_count: e.line_count,
        flags: e.flags,
    })
    &&& e.dictionary_id == 0
    &&& e.physical_offset == physical_offset
    &&& e.compressed_size == c.len()
    &&& e.compressed_checksum_blake3@ == blake3_digest(c)
    &&& e.uncompressed_checksum_blake3@ == blake3_digest(chunk)
}

fn compress_chunk(input: &[u8], chunk: &PlannedChunk, level: i32, physical_offset: u64, Ghost(ends): Ghost<Seq<int>>, Ghost(k): Ghost<int>) -> (r: Result<(Vec<u8>, ChunkEntry)>)
    requires
        0 <= k < ends.len(),
        spec_planned_chunk(input@, ends, k, *chunk),
        spec_chunk_start(ends, k) < ends[k] <= input@.len(),
    ensures
        match r {
            Ok((c, e)) => spec_chunk_written(input@, ends, level, k, physical_offset as int, e, c@),
            Err(e) => match zstd_frame(spec_chunk_bytes(input@, ends, k), level) {
                None => e == QztError::ZstdEncodeError,
                Some(c) => c.len() == 0 && e == QztError::ChunkSizeMismatch,
            },
        },
{
    let total = input.len();
    assert(chunk.logical_offset == spec_chunk_start(ends, k));
    assert(chunk.logical_offset + chunk.uncompressed_size == ends[k]);
    let start = chunk.logical_offset as usize;
    let end = start + chunk.uncompressed_size as usize;
    let uncompressed = slice_to_vec(input, start, end);
    assert(uncompressed@ == spec_chunk_bytes(input@, ends, k));
    let compressed = match zstd_encode_all(uncompressed.as_slice(), level) {
        Some(c) => c,
        None => {
            return Err(QztError::ZstdEncodeError);
        },
    };
    if compressed.len() == 0 {
        return Err(QztError::ChunkSizeMismatch);
    }
    let entry = ChunkEntry {
        chunk_id: chunk.chunk_id,
        physical_offset,
        compressed_size: compressed.len() as u64,
        logical_offset: chunk.logical_offset,
        uncompressed_size: chunk.uncompressed_size,
        first_line: chunk.first_line,
        line_count: chunk.line_count,
        dictionary_id: 0,
        flags: chunk.flags,
        compressed_checksum_blake3: blake3_hash(compressed.as_slice()),
        uncompressed_checksum_blake3: blake3_hash(uncompressed.as_slice()),
    };
    Ok((compressed, entry))
}

/// Compresses every planned chunk, placing the frames one after another
/// right after the header.
fn compress_chunks(input: &[u8], plan: &ChunkPlan, level: i32, Ghost(options): Ghost<ChunkerOptions>) -> (r: Result<(Vec<Vec<u8>>, Vec<ChunkEntry>)>)
    requires
        spec_options_valid(options),
        spec_is_plan(input@, options, *plan),
    ensures
        match r {
            Ok((cs, es)) => spec_chunks_written(input@, spec_plan_ends(input@, 0, Seq::empty(), options)->Some_0, level, 128, es@, spec_frames_view(cs@))
                && spec_compress_error(input@, spec_plan_ends(input@, 0, Seq::empty(), options)->Some_0, level,
                    plan.chunks@.len() as int, 128) is None,
            Err(e) => spec_compress_error(input@, spec_plan_ends(input@, 0, Seq::empty(), options)->Some_0, level,
                plan.chunks@.len() as int, 128) == Some(e),
        },
{
    let ghost ends = spec_plan_ends(input@, 0, Seq::empty(), options)->Some_0;
    proof {
        crate::chunker::lemma_plan_partitions_input(input@, options);
    }
    let mut frames: Vec<Vec<u8>> = Vec::new();
    let mut entries: Vec<ChunkEntry> = Vec::new();
    let mut physical_offset: u64 = HEADER_LEN as u64;
    let ghost mut cs: Seq<Seq<u8>> = Seq::empty();
    let mut k: usize = 0;
    while k < plan.chunks.len()
        invariant
            k <= ends.len(),
            ends.len() == plan.chunks@.len(),
            ends == spec_plan_ends(input@, 0, Seq::empty(), options)->Some_0,
            spec_chunk_ends_ok(input@, ends, options),
            forall|j: int| 0 <= j < ends.len() ==> spec_planned_chunk(input@, ends, j, #[trigger] plan.chunks@[j]),
            frames@.len() == k,
            entries@.len() == k,
            cs == spec_frames_view(frames@),
            cs == spec_frames_of(input@, ends, level, k as int),
            physical_offset == 128 + spec_frames_len(cs, k as int),
            spec_compress_error(input@, ends, level, k as int, 128) is None,
            forall|j: int| 0 <= j < k ==> spec_chunk_written(input@, ends, level, j,
                128 + spec_frames_len(cs, j), #[trigger] entries@[j], cs[j]),
        decreases ends.len() - k,
    {
        proof {
            assert(spec_planned_chunk(input@, ends, k as int, plan.chunks@[k as int]));
        }
        let (compressed, entry) = match compress_chunk(input, &plan.chunks[k], level, physical_offset, Ghost(ends), Ghost(k as int)) {
            Ok(pair) => pair,
            Err(e) => {
                proof {
                    lemma_compress_error_sticks(input@, ends, level, k + 1, ends.len() as int, 128);
                }
                return Err(e);
            },
        };
        let ghost ncs = cs.push(compressed@);
        proof {
            assert(ncs =~= spec_frames_of(input@, ends, level, k + 1));
            lemma_frames_prefix(cs, ncs, k as int);
        }
        if physical_offset as u128 + compressed.len() as u128 > u64::MAX as u128 {
            proof {
                lemma_compress_error_sticks(input@, ends, level, k + 1, ends.len() as int, 128);
            }
            return Err(QztError::PhysicalRangeOutOfBounds);
        }
        let next = physical_offset + compressed.len() as u64;
        frames.push(compressed);
        entries.push(entry);
        proof {
            assert(spec_frames_view(frames@) =~= ncs);
            assert forall|j: int| 0 <= j < k + 1 implies spec_chunk_written(input@, ends, level, j,
                128 + spec_frames_len(ncs, j), #[trigger] entries@[j], ncs[j]) by {
                if j < k {
                    lemma_frames_prefix(cs, ncs, j);
                }
            }
            cs = ncs;
        }
        physical_offset = next;
        k = k + 1;
    }
    Ok((frames, entries))
}

proof fn lemma_compress_error_sticks(input: Seq<u8>, ends: Seq<int>, level: i32, m: int, n: int, base: int)
    requires
        0 <= m <= n,
    ensures
        spec_compress_error(input, ends, level, m, base) is Some ==> spec_compress_error(input, ends, level, n, base)
            == spec_compress_error(input, ends, level, m, base),
    decreases n - m,
{
    if m < n {
        lemma_compress_error_sticks(input, ends, level, m, n - 1, base);
    }
}

// ---------------------------------------------------------------------------
// Assembling a container
// ---------------------------------------------------------------------------

/// The fixed records of the first `n` entries, concatenated.
pub open spec fn spec_table_bytes(es: Seq<ChunkEntry>, n: int) -> Seq<u8>
    decreases n,
{
    if n <= 0 {
        Seq::empty()
    } else {
        spec_table_bytes(es, n - 1) + spec_entry_bytes(es[n - 1])
    }
}

fn encode_chunk_table(entries: &Vec<ChunkEntry>) -> (r: Vec<u8>)
    ensures
        r@ == spec_table_bytes(entries@, entries@.len() as int),
{
    let mut bytes: Vec<u8> = Vec::new();
    let mut k: usize = 0;
    while k < entries.len()
        invariant
            k <= entries@.len(),
            bytes@ == spec_table_bytes(entries@, k as int),
        decreases entries@.len() - k,
    {
        let record = entries[k].encode();
        extend_bytes(&mut bytes, record.as_slice());
        k = k + 1;
    }
    bytes
}

fn append_frames(out: &mut Vec<u8>, frames: &Vec<Vec<u8>>)
    ensures
        final(out)@ == old(out)@ + spec_frames(spec_frames_view(frames@), frames@.len() as int),
{
    let ghost orig = out@;
    let mut k: usize = 0;
    while k < frames.len()
        invariant
            k <= frames@.len(),
            out@ == orig + spec_frames(spec_frames_view(frames@), k as int),
        decreases frames@.len() - k,
    {
        extend_bytes(out, frames[k].as_slice());
        assert(out@ =~= orig + spec_frames(spec_frames_view(frames@), k + 1));
        k = k + 1;
    }
}

/// The options and optional blocks a container is assembled with.
struct OptionalBlocks<'a> {
    dense_line_index: Option<&'a DenseLineIndex>,
    document_index: Option<&'a DocumentIndex>,
    profile: &'a str,
    writer_options: WriterOptions,
}

/// The layout of container `b`: the header, the frames `cs` right after it,
/// the metadata `mb`, the optional dense line index `db` and document index
/// `xb` (empty when absent), the chunk table of `es`, the index root `ib`, the
/// footer payload `fb` and the trailer. The header and the footer payload
/// point at those blocks; the footer records the file's size and the digest of
/// everything before it.
#[verifier::opaque]
pub open spec fn spec_layout(
    b: Seq<u8>,
    container_id: Seq<u8>,
    cs: Seq<Seq<u8>>,
    mb: Seq<u8>,
    db: Seq<u8>,
    xb: Seq<u8>,
    es: Seq<ChunkEntry>,
    ib: Seq<u8>,
    f: FooterPayload,
) -> bool {
    let mo = 128 + spec_frames_len(cs, cs.len() as int);
    let doff = mo + mb.len();
    let xoff = doff + db.len();
    let toff = xoff + xb.len();
    let tb = spec_table_bytes(es, es.len() as int);
    let ioff = toff + tb.len();
    let foff = ioff + ib.len();
    let fb = spec_encode_det(spec_footer_item(f))->Ok_0;
    &&& spec_encode_det(spec_footer_item(f)) is Ok
    &&& b.len() == foff + fb.len() + 64
    &&& b.subrange(0, 128) == crate::fixed::spec_header_bytes(Header {
        metadata_offset: mo as u64,
        metadata_size: mb.len() as u64,
        index_hint_offset: ioff as u64,
        container_id: f.container_id,
    })
    &&& f.container_id@ == container_id
    &&& b.subrange(128, mo) == spec_frames(cs, cs.len() as int)
    &&& b.subrange(mo, doff) == mb
    &&& b.subrange(doff, xoff) == db
    &&& b.subrange(xoff, toff) == xb
    &&& b.subrange(toff, ioff) == tb
    &&& b.subrange(ioff, foff) == ib
    &&& b.subrange(foff, foff + fb.len()) == fb
    &&& b.subrange(foff + fb.len(), b.len() as int) == crate::fixed::spec_trailer_bytes(FooterTrailer {
        footer_payload_offset: foff as u64,
        footer_payload_size: fb.len() as u64,
        footer_payload_checksum_blake3: crate::chunk_table::spec_digest_array(blake3_digest(fb)),
    })
    &&& f.metadata.offset == mo && f.metadata.size == mb.len()
    &&& crate::schema::spec_is_blake3_checksum(f.metadata.checksum, blake3_digest(mb))
    &&& f.index_root.offset == ioff && f.index_root.size == ib.len()
    &&& crate::schema::spec_is_blake3_checksum(f.index_root.checksum, blake3_digest(ib))
    &&& f.final_file_size == b.len()
    &&& f.footer_flags == 0
    &&& f.container_checksum matches Some(c) && crate::schema::spec_is_blake3_checksum(c, blake3_digest(b.subrange(0, foff)))
}

/// The parts a container `b` is assembled from, for `input` written with
/// `options` and `profile`: the metadata `md` of the source, the optional
/// dense line index (offsets `dense`) and document index `doc`, the chunk
/// table of `es`, the index root `root` that lists them, and the footer `f`.
#[verifier::opaque]
pub open spec fn spec_assembled_parts(
    b: Seq<u8>,
    input: Seq<u8>,
    container_id: Seq<u8>,
    options: WriterOptions,
    profile: Seq<char>,
    newline_mode: Seq<char>,
    line_count: u64,
    dense: Option<Seq<(u64, Seq<u64>)>>,
    doc: Option<DocumentIndex>,
    es: Seq<ChunkEntry>,
    cs: Seq<Seq<u8>>,
    md: Metadata,
    root: IndexRoot,
    f: FooterPayload,
) -> bool {
    let mb = spec_encode_det(spec_metadata_item(md))->Ok_0;
    let db = match dense {
        Some(x) => crate::dense_line_index::spec_dense_encoding(x),
        None => Seq::<u8>::empty(),
    };
    let xb = match doc {
        Some(d) => spec_encode_det(spec_document_index_item(d))->Ok_0,
        None => Seq::<u8>::empty(),
    };
    let ib = spec_encode_det(spec_index_root_item(root))->Ok_0;
    let mo = 128 + spec_frames_len(cs, cs.len() as int);
    let doff = mo + mb.len();
    let xoff = doff + db.len();
    let toff = xoff + xb.len();
    let tb = spec_table_bytes(es, es.len() as int);
    &&& spec_encode_det(spec_metadata_item(md)) is Ok
    &&& spec_encode_det(spec_index_root_item(root)) is Ok
    &&& (doc matches Some(d) ==> spec_encode_det(spec_document_index_item(d)) is Ok)
    &&& spec_layout(b, container_id, cs, mb, db, xb, es, ib, f)
    &&& spec_metadata_fields(md, container_id, input.len() as u64, md.original_checksum, newline_mode, line_count,
        options.zstd_level, options.chunker.target_chunk_size as u64, options.chunker.max_chunk_size as u64,
        "none"@, profile, dense is Some, doc is Some)
    &&& spec_is_blake3_checksum(md.original_checksum, blake3_digest(input))
    &&& root.container_id@ == container_id
    &&& root.original_size == input.len()
    &&& root.original_checksum == md.original_checksum
    &&& root.chunk_count == es.len()
    &&& root.line_count == line_count
    &&& root.blocks@.len() == 1 + (if dense is Some { 1int } else { 0 }) + (if doc is Some { 1int } else { 0 })
    &&& spec_descriptor_is(root.blocks@[0], "chunk_table"@, true, "qzt-ctbl-fixed-v1"@, toff as u64, tb.len() as u64,
        root.blocks@[0].checksum)
    &&& spec_is_blake3_checksum(root.blocks@[0].checksum, blake3_digest(tb))
    &&& (dense is Some ==> spec_descriptor_is(root.blocks@[1], "dense_line_index"@, false, "qzt-line-delta-varint-v1"@,
        doff as u64, db.len() as u64, root.blocks@[1].checksum)
        && spec_is_blake3_checksum(root.blocks@[1].checksum, blake3_digest(db)))
    &&& (doc is Some ==> spec_descriptor_is(root.blocks@[root.blocks@.len() - 1], "document_index"@, false,
        "qzt-doc-index-cbor-v1"@, xoff as u64, xb.len() as u64, root.blocks@[root.blocks@.len() - 1].checksum)
        && spec_is_blake3_checksum(root.blocks@[root.blocks@.len() - 1].checksum, blake3_digest(xb)))
}

/// `b` is a container assembled for `input` from chunk entries `es` and frames `cs`.
pub open spec fn spec_assembled(
    b: Seq<u8>,
    input: Seq<u8>,
    container_id: Seq<u8>,
    options: WriterOptions,
    profile: Seq<char>,
    newline_mode: Seq<char>,
    line_count: u64,
    dense: Option<Seq<(u64, Seq<u64>)>>,
    doc: Option<DocumentIndex>,
    es: Seq<ChunkEntry>,
    cs: Seq<Seq<u8>>,
) -> bool {
    exists|md: Metadata, root: IndexRoot, f: FooterPayload| #[trigger] spec_assembled_parts(b, input, container_id,
        options, profile, newline_mode, line_count, dense, doc, es, cs, md, root, f)
}

fn checked_add(a: u64, b: u64) -> (r: Result<u64>)
    ensures
        a + b <= u64::MAX ==> r == Ok::<u64, QztError>((a + b) as u64),
        a + b > u64::MAX ==> r == Err::<u64, QztError>(QztError::PhysicalRangeOutOfBounds),
{
    crate::primitives::checked_physical_end(a, b)
}

proof fn lemma_frames_end(input: Seq<u8>, ends: Seq<int>, level: i32, es: Seq<ChunkEntry>, cs: Seq<Seq<u8>>)
    requires
        spec_chunks_written(input, ends, level, 128, es, cs),
        es.len() > 0,
    ensures
        es.last().physical_offset + es.last().compressed_size == 128 + spec_frames_len(cs, cs.len() as int),
{
    let n = es.len() - 1;
    assert(spec_chunk_written(input, ends, level, n, 128 + spec_frames_len(cs, n), es[n], cs[n]));
}

/// The blocks written after the frames, before the footer payload.
struct Parts {
    metadata: Metadata,
    metadata_bytes: Vec<u8>,
    dense_bytes: Vec<u8>,
    document_bytes: Vec<u8>,
    table_bytes: Vec<u8>,
    index_root: IndexRoot,
    index_root_bytes: Vec<u8>,
}

/// `p` holds the blocks written after frames that end at `mo`.
spec fn spec_parts_ok(
    p: Parts,
    input: Seq<u8>,
    container_id: Seq<u8>,
    options: WriterOptions,
    profile: Seq<char>,
    newline_mode: Seq<char>,
    line_count: u64,
    dense: Option<Seq<(u64, Seq<u64>)>>,
    doc: Option<DocumentIndex>,
    es: Seq<ChunkEntry>,
    mo: int,
) -> bool {
    let md = p.metadata;
    let root = p.index_root;
    let mb = p.metadata_bytes@;
    let db = p.dense_bytes@;
    let xb = p.document_bytes@;
    let tb = p.table_bytes@;
    let doff = mo + mb.len();
    let xoff = doff + db.len();
    let toff = xoff + xb.len();
    &&& spec_encode_det(spec_metadata_item(md)) == Ok::<Seq<u8>, QztError>(mb)
    &&& spec_encode_det(spec_index_root_item(root)) == Ok::<Seq<u8>, QztError>(p.index_root_bytes@)
    &&& db == match dense {
        Some(x) => crate::dense_line_index::spec_dense_encoding(x),
        None => Seq::<u8>::empty(),
    }
    &&& match doc {
        Some(d) => spec_encode_det(spec_document_index_item(d)) == Ok::<Seq<u8>, QztError>(xb),
        None => xb == Seq::<u8>::empty(),
    }
    &&& tb == spec_table_bytes(es, es.len() as int)
    &&& toff + tb.len() + p.index_root_bytes@.len() <= u64::MAX
    &&& spec_parts_metadata(md, input, container_id, options, profile, newline_mode, line_count, dense is Some, doc is Some)
    &&& spec_parts_root(root, md, input, container_id, line_count, dense is Some, doc is Some, es, doff, xoff, toff, db, xb, tb)
}

/// `md` is the metadata written for `input`.
pub open spec fn spec_parts_metadata(
    md: Metadata,
    input: Seq<u8>,
    container_id: Seq<u8>,
    options: WriterOptions,
    profile: Seq<char>,
    newline_mode: Seq<char>,
    line_count: u64,
    dense: bool,
    doc: bool,
) -> bool {
    &&& spec_metadata_fields(md, container_id, input.len() as u64, md.original_checksum, newline_mode, line_count,
        options.zstd_level, options.chunker.target_chunk_size as u64, options.chunker.max_chunk_size as u64,
        "none"@, profile, dense, doc)
    &&& spec_is_blake3_checksum(md.original_checksum, blake3_digest(input))
}

/// `root` is the index root written for `input` with metadata `md`, chunk
/// entries `es`, and the dense line index, document index and chunk table
/// blocks `db`, `xb`, `tb` at `doff`, `xoff`, `toff`.
pub open spec fn spec_parts_root(
    root: IndexRoot,
    md: Metadata,
    input: Seq<u8>,
    container_id: Seq<u8>,
    line_count: u64,
    dense: bool,
    doc: bool,
    es: Seq<ChunkEntry>,
    doff: int,
    xoff: int,
    toff: int,
    db: Seq<u8>,
    xb: Seq<u8>,
    tb: Seq<u8>,
) -> bool {
    &&& root.container_id@ == container_id
    &&& root.original_size == input.len()
    &&& root.original_checksum == md.original_checksum
    &&& root.chunk_count == es.len()
    &&& root.line_count == line_count
    &&& root.blocks@.len() == 1 + (if dense { 1int } else { 0 }) + (if doc { 1int } else { 0 })
    &&& spec_descriptor_is(root.blocks@[0], "chunk_table"@, true, "qzt-ctbl-fixed-v1"@, toff as u64, tb.len() as u64,
        root.blocks@[0].checksum)
    &&& spec_is_blake3_checksum(root.blocks@[0].checksum, blake3_digest(tb))
    &&& (dense ==> spec_descriptor_is(root.blocks@[1], "dense_line_index"@, false, "qzt-line-delta-varint-v1"@,
        doff as u64, db.len() as u64, root.blocks@[1].checksum)
        && spec_is_blake3_checksum(root.blocks@[1].checksum, blake3_digest(db)))
    &&& (doc ==> spec_descriptor_is(root.blocks@[root.blocks@.len() - 1], "document_index"@, false,
        "qzt-doc-index-cbor-v1"@, xoff as u64, xb.len() as u64, root.blocks@[root.blocks@.len() - 1].checksum)
        && spec_is_blake3_checksum(root.blocks@[root.blocks@.len() - 1].checksum, blake3_digest(xb)))
}

/// The bytes of the dense line index block, or its failure.
pub open spec fn spec_dense_block(dense: Option<Seq<(u64, Seq<u64>)>>) -> Result<Seq<u8>> {
    match dense {
        None => Ok(Seq::empty()),
        Some(x) => if exists|k: int| 0 <= k < x.len() && crate::dense_line_index::spec_offsets_decrease(#[trigger] x[k].1) {
            Err(QztError::ChunkTableInvalid)
        } else {
            Ok(crate::dense_line_index::spec_dense_encoding(x))
        },
    }
}

/// The bytes of the document index block, or its failure.
pub open spec fn spec_document_block(doc: Option<DocumentIndex>) -> Result<Seq<u8>> {
    match doc {
        None => Ok(Seq::empty()),
        Some(d) => if !crate::schema::spec_unique_doc_ids(d.documents@) {
            Err(QztError::DuplicateDocumentId)
        } else {
            spec_encode_det(spec_document_index_item(d))
        },
    }
}

/// Building the blocks after frames that end at `mo` fails with `e`: encoding
/// the metadata, the dense line index, the document index or the index root,
/// or an offset past `u64`, whichever comes first in block order.
pub open spec fn spec_parts_failure(
    input: Seq<u8>,
    container_id: Seq<u8>,
    options: WriterOptions,
    profile: Seq<char>,
    newline_mode: Seq<char>,
    line_count: u64,
    dense: Option<Seq<(u64, Seq<u64>)>>,
    doc: Option<DocumentIndex>,
    es: Seq<ChunkEntry>,
    mo: int,
    e: QztError,
) -> bool {
    let tb = spec_table_bytes(es, es.len() as int);
    exists|md: Metadata| #[trigger] spec_parts_metadata(md, input, container_id, options, profile, newline_mode, line_count,
        dense is Some, doc is Some) && match spec_encode_det(spec_metadata_item(md)) {
        Err(x) => e == x,
        Ok(mb) => match spec_dense_block(dense) {
            Err(x) => e == x,
            Ok(db) => if mo + mb.len() > u64::MAX {
                e == QztError::PhysicalRangeOutOfBounds
            } else {
                match spec_document_block(doc) {
                    Err(x) => e == x,
                    Ok(xb) => if mo + mb.len() + db.len() > u64::MAX || mo + mb.len() + db.len() + xb.len() > u64::MAX {
                        e == QztError::PhysicalRangeOutOfBounds
                    } else {
                        let toff = mo + mb.len() + db.len() + xb.len();
                        exists|root: IndexRoot| #[trigger] spec_parts_root(root, md, input, container_id, line_count,
                            dense is Some, doc is Some, es, mo + mb.len(), mo + mb.len() + db.len(), toff, db, xb, tb)
                            && match spec_encode_det(spec_index_root_item(root)) {
                                Err(x) => e == x,
                                Ok(ib) => (toff + tb.len() > u64::MAX || toff + tb.len() + ib.len() > u64::MAX)
                                    && e == QztError::PhysicalRangeOutOfBounds,
                            }
                    }
                }
            }
        },
    }
}

fn build_parts(
    input: &[u8],
    container_id: [u8; 16],
    plan: &ChunkPlan,
    entries: &Vec<ChunkEntry>,
    optional: &OptionalBlocks,
    metadata_offset: u64,
) -> (r: Result<Parts>)
    ensures
        r matches Ok(p) ==> spec_parts_ok(p, input@, container_id@, optional.writer_options, optional.profile@,
            crate::chunker::spec_mode_name(plan.newline_mode), plan.line_count,
            match optional.dense_line_index { Some(d) => Some(d@), None => None },
            match optional.document_index { Some(d) => Some(*d), None => None },
            entries@, metadata_offset as int),
        r matches Err(e) ==> spec_parts_failure(input@, container_id@, optional.writer_options, optional.profile@,
            crate::chunker::spec_mode_name(plan.newline_mode), plan.line_count,
            match optional.dense_line_index { Some(d) => Some(d@), None => None },
            match optional.document_index { Some(d) => Some(*d), None => None },
            entries@, metadata_offset as int, e),
{
    let ghost dense_v = match optional.dense_line_index { Some(d) => Some(d@), None => None::<Seq<(u64, Seq<u64>)>> };
    let ghost doc_v = match optional.document_index { Some(d) => Some(*d), None => None::<DocumentIndex> };
    let ghost mode = crate::chunker::spec_mode_name(plan.newline_mode);
    let options = optional.writer_options;
    let metadata = Metadata::for_source_with_options(
        container_id,
        input.len() as u64,
        Checksum::blake3(input),
        plan.newline_mode.as_str(),
        plan.line_count,
        MetadataOptions {
            zstd_level: options.zstd_level,
            target_chunk_size: options.chunker.target_chunk_size as u64,
            max_chunk_size: options.chunker.max_chunk_size as u64,
            dictionary_mode: "none",
            profile: optional.profile,
            dense_line_index: optional.dense_line_index.is_some(),
            document_index: optional.document_index.is_some(),
        },
    );
    proof {
        assert(spec_parts_metadata(metadata, input@, container_id@, options, optional.profile@, mode, plan.line_count,
            dense_v is Some, doc_v is Some));
    }
    let metadata_bytes = metadata.encode()?;
    let metadata_size = metadata_bytes.len() as u64;
    let dense_bytes: Vec<u8> = match optional.dense_line_index {
        Some(d) => d.encode()?,
        None => Vec::new(),
    };
    proof {
        match optional.dense_line_index {
            Some(d) => {},
            None => {
                assert(dense_bytes@ =~= Seq::<u8>::empty());
            },
        }
        assert(spec_dense_block(dense_v) == Ok::<Seq<u8>, QztError>(dense_bytes@));
    }
    let dense_offset = checked_add(metadata_offset, metadata_size)?;
    let dense_size = dense_bytes.len() as u64;
    let document_bytes: Vec<u8> = match optional.document_index {
        Some(d) => d.encode()?,
        None => Vec::new(),
    };
    proof {
        match optional.document_index {
            Some(d) => {},
            None => {
                assert(document_bytes@ =~= Seq::<u8>::empty());
            },
        }
        assert(spec_document_block(doc_v) == Ok::<Seq<u8>, QztError>(document_bytes@));
    }
    let document_offset = checked_add(dense_offset, dense_size)?;
    let document_size = document_bytes.len() as u64;
    let table_bytes = encode_chunk_table(entries);
    let table_offset = checked_add(document_offset, document_size)?;
    let table_size = table_bytes.len() as u64;
    let mut blocks: Vec<BlockDescriptor> = Vec::new();
    blocks.push(BlockDescriptor::chunk_table(table_offset, table_size, Checksum::blake3(table_bytes.as_slice())));
    if optional.dense_line_index.is_some() {
        blocks.push(BlockDescriptor::dense_line_index(dense_offset, dense_size, Checksum::blake3(dense_bytes.as_slice())));
    }
    if optional.document_index.is_some() {
        blocks.push(BlockDescriptor::document_index(document_offset, document_size, Checksum::blake3(document_bytes.as_slice())));
    }
    let index_root = IndexRoot {
        container_id,
        blocks,
        original_size: metadata.original_size,
        original_checksum: copy_checksum(&metadata.original_checksum),
        chunk_count: entries.len() as u64,
        line_count: metadata.line_count,
    };
    proof {
        assert(spec_parts_root(index_root, metadata, input@, container_id@, plan.line_count, dense_v is Some, doc_v is Some,
            entries@, dense_offset as int, document_offset as int, table_offset as int, dense_bytes@, document_bytes@, table_bytes@));
    }
    let index_root_bytes = index_root.encode()?;
    let index_root_offset = checked_add(table_offset, table_size)?;
    let _footer_payload_offset = checked_add(index_root_offset, index_root_bytes.len() as u64)?;
    Ok(Parts { metadata, metadata_bytes, dense_bytes, document_bytes, table_bytes, index_root, index_root_bytes })
}

/// The references the footer of a sealed container records: the index root
/// and metadata blocks where the layout puts them, and the checksum of every
/// byte before the footer payload.
pub open spec fn spec_seal_refs(
    container_id: [u8; 16],
    cs: Seq<Seq<u8>>,
    mb: Seq<u8>,
    db: Seq<u8>,
    xb: Seq<u8>,
    tb: Seq<u8>,
    ib: Seq<u8>,
    ir: BlockRef,
    mr: BlockRef,
    pc: Checksum,
) -> bool {
    let mo = 128 + spec_frames_len(cs, cs.len() as int);
    let ioff = mo + mb.len() + db.len() + xb.len() + tb.len();
    let prefix = crate::fixed::spec_header_bytes(Header {
        metadata_offset: mo as u64,
        metadata_size: mb.len() as u64,
        index_hint_offset: ioff as u64,
        container_id,
    }) + spec_frames(cs, cs.len() as int) + mb + db + xb + tb + ib;
    &&& ir.offset == ioff && ir.size == ib.len() && spec_is_blake3_checksum(ir.checksum, blake3_digest(ib))
    &&& mr.offset == mo && mr.size == mb.len() && spec_is_blake3_checksum(mr.checksum, blake3_digest(mb))
    &&& spec_is_blake3_checksum(pc, blake3_digest(prefix))
}

/// The footer payload of a sealed container with these references.
pub open spec fn spec_seal_footer(
    container_id: [u8; 16],
    cs: Seq<Seq<u8>>,
    mb: Seq<u8>,
    db: Seq<u8>,
    xb: Seq<u8>,
    tb: Seq<u8>,
    ib: Seq<u8>,
    ir: BlockRef,
    mr: BlockRef,
    pc: Checksum,
) -> Result<FooterPayload> {
    let foff = 128 + spec_frames_len(cs, cs.len() as int) + mb.len() + db.len() + xb.len() + tb.len() + ib.len();
    crate::skeleton::spec_footer_fixed_point(container_id, ir, mr, foff as u64, Some(pc), 0, 8)
}

#[verifier::rlimit(40)]
fn seal(
    container_id: [u8; 16],
    frames: &Vec<Vec<u8>>,
    parts: &Parts,
    metadata_offset: u64,
    Ghost(es): Ghost<Seq<ChunkEntry>>,
) -> (r: Result<(Vec<u8>, Ghost<FooterPayload>)>)
    requires
        metadata_offset == 128 + spec_frames_len(spec_frames_view(frames@), frames@.len() as int),
        parts.table_bytes@ == spec_table_bytes(es, es.len() as int),
        metadata_offset + parts.metadata_bytes@.len() + parts.dense_bytes@.len() + parts.document_bytes@.len()
            + parts.table_bytes@.len() + parts.index_root_bytes@.len() <= u64::MAX,
    ensures
        r matches Ok((b, f)) ==> spec_layout(b@, container_id@, spec_frames_view(frames@),
            parts.metadata_bytes@, parts.dense_bytes@, parts.document_bytes@, es, parts.index_root_bytes@, f@),
        r matches Err(e) ==> exists|ir: BlockRef, mr: BlockRef, pc: Checksum|
            #[trigger] spec_seal_refs(container_id, spec_frames_view(frames@), parts.metadata_bytes@, parts.dense_bytes@,
                parts.document_bytes@, parts.table_bytes@, parts.index_root_bytes@, ir, mr, pc)
            && spec_seal_footer(container_id, spec_frames_view(frames@), parts.metadata_bytes@, parts.dense_bytes@,
                parts.document_bytes@, parts.table_bytes@, parts.index_root_bytes@, ir, mr, pc) == Err::<FooterPayload, QztError>(e),
{
    let ghost cs = spec_frames_view(frames@);
    let metadata_size = parts.metadata_bytes.len() as u64;
    let index_root_offset = metadata_offset + metadata_size + parts.dense_bytes.len() as u64
        + parts.document_bytes.len() as u64 + parts.table_bytes.len() as u64;
    let index_root_size = parts.index_root_bytes.len() as u64;
    let footer_payload_offset = index_root_offset + index_root_size;
    let header = Header {
        metadata_offset,
        metadata_size,
        index_hint_offset: index_root_offset,
        container_id,
    };
    let header_bytes = header.encode();
    let mut prefix: Vec<u8> = Vec::new();
    extend_bytes(&mut prefix, header_bytes.as_slice());
    append_frames(&mut prefix, frames);
    extend_bytes(&mut prefix, parts.metadata_bytes.as_slice());
    extend_bytes(&mut prefix, parts.dense_bytes.as_slice());
    extend_bytes(&mut prefix, parts.document_bytes.as_slice());
    extend_bytes(&mut prefix, parts.table_bytes.as_slice());
    extend_bytes(&mut prefix, parts.index_root_bytes.as_slice());
    let index_root_ref = BlockRef {
        offset: index_root_offset,
        size: index_root_size,
        checksum: Checksum::blake3(parts.index_root_bytes.as_slice()),
    };
    let metadata_ref = BlockRef {
        offset: metadata_offset,
        size: metadata_size,
        checksum: Checksum::blake3(parts.metadata_bytes.as_slice()),
    };
    let prefix_checksum = Checksum::blake3(prefix.as_slice());
    proof {
        lemma_frames_len(cs, cs.len() as int);
        assert(spec_seal_refs(container_id, cs, parts.metadata_bytes@, parts.dense_bytes@, parts.document_bytes@,
            parts.table_bytes@, parts.index_root_bytes@, index_root_ref, metadata_ref, prefix_checksum));
    }
    let footer_payload = match fixed_point_footer_payload(container_id, &index_root_ref, &metadata_ref, footer_payload_offset, Some(&prefix_checksum)) {
        Ok(f) => f,
        Err(e) => {
            proof {
                assert(spec_seal_footer(container_id, cs, parts.metadata_bytes@, parts.dense_bytes@, parts.document_bytes@,
                    parts.table_bytes@, parts.index_root_bytes@, index_root_ref, metadata_ref, prefix_checksum) == Err::<FooterPayload, QztError>(e));
            }
            return Err(e);
        },
    };
    let footer_payload_bytes = footer_payload.encode()?;
    let footer_trailer = FooterTrailer {
        footer_payload_offset,
        footer_payload_size: footer_payload_bytes.len() as u64,
        footer_payload_checksum_blake3: blake3_hash(footer_payload_bytes.as_slice()),
    };
    let trailer_bytes = footer_trailer.encode();
    let mut bytes = prefix;
    let ghost pre = bytes@;
    extend_bytes(&mut bytes, footer_payload_bytes.as_slice());
    extend_bytes(&mut bytes, trailer_bytes.as_slice());
    proof {
        crate::chunk_table::lemma_digest_array_unique(footer_trailer.footer_payload_checksum_blake3, blake3_digest(footer_payload_bytes@));
        lemma_frames_len(cs, cs.len() as int);
        let b = bytes@;
        let mo = 128 + spec_frames_len(cs, cs.len() as int);
        let doff = mo + parts.metadata_bytes@.len();
        let xoff = doff + parts.dense_bytes@.len();
        let toff = xoff + parts.document_bytes@.len();
        let ioff = toff + parts.table_bytes@.len();
        let foff = ioff + parts.index_root_bytes@.len();
        assert(pre.len() == foff);
        assert(b.subrange(0, 128) =~= header_bytes@);
        assert(b.subrange(128, mo) =~= spec_frames(cs, cs.len() as int));
        assert(b.subrange(mo, doff) =~= parts.metadata_bytes@);
        assert(b.subrange(doff, xoff) =~= parts.dense_bytes@);
        assert(b.subrange(xoff, toff) =~= parts.document_bytes@);
        assert(b.subrange(toff, ioff) =~= parts.table_bytes@);
        assert(b.subrange(ioff, foff) =~= parts.index_root_bytes@);
        assert(b.subrange(0, foff) =~= pre);
        assert(b.subrange(foff, foff + footer_payload_bytes@.len()) =~= footer_payload_bytes@);
        assert(b.subrange(foff + footer_payload_bytes@.len(), b.len() as int) =~= trailer_bytes@);
        assert(spec_layout(b, container_id@, cs, parts.metadata_bytes@, parts.dense_bytes@, parts.document_bytes@, es,
            parts.index_root_bytes@, footer_payload)) by {
            reveal(spec_layout);
        }
    }
    Ok((bytes, Ghost(footer_payload)))
}

/// Assembling a container after its frames fails with `e`: building the
/// blocks after the frames fails, or the blocks build and the footer's
/// recorded size does not settle.
pub closed spec fn spec_assembly_failure(
    input: Seq<u8>,
    container_id: [u8; 16],
    options: WriterOptions,
    profile: Seq<char>,
    newline_mode: Seq<char>,
    line_count: u64,
    dense: Option<Seq<(u64, Seq<u64>)>>,
    doc: Option<DocumentIndex>,
    es: Seq<ChunkEntry>,
    cs: Seq<Seq<u8>>,
    e: QztError,
) -> bool {
    let mo = 128 + spec_frames_len(cs, cs.len() as int);
    ||| spec_parts_failure(input, container_id@, options, profile, newline_mode, line_count, dense, doc, es, mo, e)
    ||| exists|p: Parts| #[trigger] spec_parts_ok(p, input, container_id@, options, profile, newline_mode, line_count, dense, doc, es, mo)
        && exists|ir: BlockRef, mr: BlockRef, pc: Checksum|
            #[trigger] spec_seal_refs(container_id, cs, p.metadata_bytes@, p.dense_bytes@, p.document_bytes@, p.table_bytes@,
                p.index_root_bytes@, ir, mr, pc)
            && spec_seal_footer(container_id, cs, p.metadata_bytes@, p.dense_bytes@, p.document_bytes@, p.table_bytes@,
                p.index_root_bytes@, ir, mr, pc) == Err::<FooterPayload, QztError>(e)
}

fn assemble_container(
    input: &[u8],
    container_id: [u8; 16],
    plan: &ChunkPlan,
    frames: &Vec<Vec<u8>>,
    entries: &Vec<ChunkEntry>,
    optional: &OptionalBlocks,
    Ghost(ends): Ghost<Seq<int>>,
) -> (r: Result<Vec<u8>>)
    requires
        spec_chunks_written(input@, ends, optional.writer_options.zstd_level, 128, entries@, spec_frames_view(frames@)),
    ensures
        r matches Ok(b) ==> spec_assembled(b@, input@, container_id@, optional.writer_options, optional.profile@,
            crate::chunker::spec_mode_name(plan.newline_mode), plan.line_count,
            match optional.dense_line_index { Some(d) => Some(d@), None => None },
            match optional.document_index { Some(d) => Some(*d), None => None },
            entries@, spec_frames_view(frames@)),
        r matches Err(e) ==> spec_assembly_failure(input@, container_id, optional.writer_options, optional.profile@,
            crate::chunker::spec_mode_name(plan.newline_mode), plan.line_count,
            match optional.dense_line_index { Some(d) => Some(d@), None => None },
            match optional.document_index { Some(d) => Some(*d), None => None },
            entries@, spec_frames_view(frames@), e),
{
    let ghost cs = spec_frames_view(frames@);
    if frames.len() != entries.len() {
        return Err(QztError::ContainerCorrupt);
    }
    let metadata_offset: u64 = if entries.len() == 0 {
        HEADER_LEN as u64
    } else {
        let last = &entries[entries.len() - 1];
        proof {
            lemma_frames_end(input@, ends, optional.writer_options.zstd_level, entries@, cs);
        }
        checked_add(last.physical_offset, last.compressed_size)?
    };
    assert(metadata_offset == 128 + spec_frames_len(cs, cs.len() as int));
    let parts = build_parts(input, container_id, plan, entries, optional, metadata_offset)?;
    let (bytes, Ghost(footer_payload)) = match seal(container_id, frames, &parts, metadata_offset, Ghost(entries@)) {
        Ok(x) => x,
        Err(e) => {
            proof {
                let dense = match optional.dense_line_index { Some(d) => Some(d@), None => None };
                let doc = match optional.document_index { Some(d) => Some(*d), None => None };
                assert(spec_parts_ok(parts, input@, container_id@, optional.writer_options, optional.profile@,
                    crate::chunker::spec_mode_name(plan.newline_mode), plan.line_count, dense, doc, entries@,
                    128 + spec_frames_len(cs, cs.len() as int)));
            }
            return Err(e);
        },
    };
    proof {
        let dense = match optional.dense_line_index { Some(d) => Some(d@), None => None };
        let doc = match optional.document_index { Some(d) => Some(*d), None => None };
        assert(spec_assembled_parts(bytes@, input@, container_id@, optional.writer_options, optional.profile@,
            crate::chunker::spec_mode_name(plan.newline_mode), plan.line_count, dense, doc,
            entries@, cs, parts.metadata, parts.index_root, footer_payload)) by {
            reveal(spec_assembled_parts);
        }
    }
    Ok(bytes)
}

// ---------------------------------------------------------------------------
// Packing
// ---------------------------------------------------------------------------

/// How a packed container gets its dense line index.
pub enum DenseLineIndexMode {
    Omit,
    Generate,
    Override(DenseLineIndex),
}

/// Whether `profile` is one of the profiles the format defines.
pub open spec fn spec_profile_ok(profile: Seq<char>) -> bool {
    profile == "minimal"@ || profile == "core"@ || profile == "log"@ || profile == "archive"@ || profile == "memory"@
}

/// Validates that `profile` is one of `minimal`, `core`, `log`, `archive`, `memory`.
fn validate_profile(profile: &str) -> (r: Result<()>)
    ensures
        r is Ok <==> spec_profile_ok(profile@),
        r is Err ==> r == Err::<(), QztError>(QztError::MetadataInvalid),
{
    if crate::schema::text_is(&profile.to_owned(), "minimal") || crate::schema::text_is(&profile.to_owned(), "core")
        || crate::schema::text_is(&profile.to_owned(), "log") || crate::schema::text_is(&profile.to_owned(), "archive")
        || crate::schema::text_is(&profile.to_owned(), "memory") {
        Ok(())
    } else {
        Err(QztError::MetadataInvalid)
    }
}

/// The dense line offsets a container written with `mode` over entries `es` carries.
pub open spec fn spec_dense_of(mode: DenseLineIndexMode, input: Seq<u8>, es: Seq<ChunkEntry>) -> Option<Seq<(u64, Seq<u64>)>> {
    match mode {
        DenseLineIndexMode::Omit => None,
        DenseLineIndexMode::Generate => Some(Seq::new(es.len(), |k: int| (
            es[k].chunk_id,
            crate::dense_line_index::spec_local_line_starts(crate::dense_line_index::spec_chunk_slice(input, es[k]), es[k].flags),
        ))),
        DenseLineIndexMode::Override(d) => Some(d@),
    }
}

/// What packing `input` gives: the refused inputs with their errors, or a
/// container assembled from the planned chunks, each compressed as its own
/// zstd frame right after the header. A failure to encode a block, or a size
/// past `u64`, is an error too.
pub open spec fn spec_pack(
    input: Seq<u8>,
    container_id: Seq<u8>,
    options: WriterOptions,
    profile: Seq<char>,
    mode: DenseLineIndexMode,
    doc: Option<DocumentIndex>,
    r: Result<Seq<u8>>,
) -> bool {
    if !spec_profile_ok(profile) || (profile == "memory"@ && doc is None) {
        r == Err::<Seq<u8>, QztError>(QztError::MetadataInvalid)
    } else if doc matches Some(d) && d.container_id@ != container_id {
        r == Err::<Seq<u8>, QztError>(QztError::ContainerIdMismatch)
    } else if !spec_options_valid(options.chunker) {
        r == Err::<Seq<u8>, QztError>(QztError::ResourceLimitExceeded)
    } else if !valid_utf8(input) {
        r == Err::<Seq<u8>, QztError>(QztError::InvalidUtf8)
    } else if spec_plan_ends(input, 0, Seq::empty(), options.chunker) is None {
        r == Err::<Seq<u8>, QztError>(QztError::ResourceLimitExceeded)
    } else {
        let ends = spec_plan_ends(input, 0, Seq::empty(), options.chunker)->Some_0;
        match spec_compress_error(input, ends, options.zstd_level, ends.len() as int, 128) {
            Some(e) => r == Err::<Seq<u8>, QztError>(e),
            None => exists|es: Seq<ChunkEntry>, cs: Seq<Seq<u8>>|
                #[trigger] spec_chunks_written(input, ends, options.zstd_level, 128, es, cs)
                && match r {
                    Ok(b) => spec_assembled(b, input, container_id, options, profile,
                        crate::chunker::spec_mode_name(crate::chunker::spec_newline_mode(input)),
                        spec_lines_before(input, input.len() as int) as u64, spec_dense_of(mode, input, es), doc, es, cs),
                    Err(e) => if mode is Generate && crate::dense_line_index::spec_dense_build_error(input, es, es.len() as int) is Some {
                        crate::dense_line_index::spec_dense_build_error(input, es, es.len() as int) == Some(e)
                    } else {
                        exists|cid: [u8; 16]| cid@ == container_id && #[trigger] spec_assembly_failure(input, cid, options, profile,
                            crate::chunker::spec_mode_name(crate::chunker::spec_newline_mode(input)),
                            spec_lines_before(input, input.len() as int) as u64, spec_dense_of(mode, input, es), doc, es, cs, e)
                    },
                },
        }
    }
}

/// The result of a packing call, by the bytes it gives.
pub open spec fn spec_bytes_result(r: Result<Vec<u8>>) -> Result<Seq<u8>> {
    match r {
        Ok(b) => Ok(b@),
        Err(e) => Err(e),
    }
}

fn pack_bytes_internal(
    input: &[u8],
    container_id: [u8; 16],
    options: WriterOptions,
    dense_mode: DenseLineIndexMode,
    document_index: Option<&DocumentIndex>,
    profile: &str,
) -> (r: Result<Vec<u8>>)
    ensures
        spec_pack(input@, container_id@, options, profile@, dense_mode,
            match document_index { Some(d) => Some(*d), None => None }, spec_bytes_result(r)),
{
    validate_profile(profile)?;
    if crate::schema::text_is(&profile.to_owned(), "memory") && document_index.is_none() {
        return Err(QztError::MetadataInvalid);
    }
    if let Some(d) = document_index {
        if !crate::bytes_util::bytes_equal(&d.container_id, &container_id) {
            return Err(QztError::ContainerIdMismatch);
        }
        proof {
            assert(d.container_id@ =~= container_id@) by {
                assert forall|i: int| 0 <= i < 16 implies d.container_id@[i] == container_id@[i] by {
                    assert(d.container_id[i] == container_id[i]);
                }
            }
        }
    }
    let plan = plan_chunks(input, options.chunker)?;
    let ghost ends = spec_plan_ends(input@, 0, Seq::empty(), options.chunker)->Some_0;
    let (frames, entries) = compress_chunks(input, &plan, options.zstd_level, Ghost(options.chunker))?;
    let ghost mode = dense_mode;
    proof {
        assert(spec_chunks_written(input@, ends, options.zstd_level, 128, entries@, spec_frames_view(frames@)));
    }
    let dense: Option<DenseLineIndex> = match dense_mode {
        DenseLineIndexMode::Omit => None,
        DenseLineIndexMode::Generate => Some(DenseLineIndex::from_original_bytes(input, entries.as_slice())?),
        DenseLineIndexMode::Override(d) => Some(d),
    };
    proof {
        let gd = dense;
        match (mode, gd) {
            (DenseLineIndexMode::Generate, Some(d)) => {
                assert(d@ =~= spec_dense_of(mode, input@, entries@)->Some_0);
            },
            _ => {},
        }
    }
    let r = assemble_container(
        input,
        container_id,
        &plan,
        &frames,
        &entries,
        &OptionalBlocks {
            dense_line_index: match &dense { Some(d) => Some(d), None => None },
            document_index,
            profile,
            writer_options: options,
        },
        Ghost(ends),
    );
    proof {
        let cs = spec_frames_view(frames@);
        assert(spec_chunks_written(input@, ends, options.zstd_level, 128, entries@, cs));
        assert(spec_profile_ok(profile@));
        assert(valid_utf8(input@));
        assert(spec_plan_ends(input@, 0, Seq::empty(), options.chunker) is Some);
        assert(plan.newline_mode == crate::chunker::spec_newline_mode(input@));
        let dv = match dense { Some(d) => Some(d@), None => None::<Seq<(u64, Seq<u64>)>> };
        assert(dv == spec_dense_of(mode, input@, entries@));
        match r {
            Ok(_) => {},
            Err(e) => {
                assert(plan.line_count == spec_lines_before(input@, input@.len() as int) as u64);
                assert(spec_assembly_failure(input@, container_id, options, profile@,
                    crate::chunker::spec_mode_name(crate::chunker::spec_newline_mode(input@)),
                    spec_lines_before(input@, input@.len() as int) as u64, spec_dense_of(mode, input@, entries@),
                    match document_index { Some(d) => Some(*d), None => None }, entries@, cs, e));
                assert(!(mode is Generate && crate::dense_line_index::spec_dense_build_error(input@, entries@, entries@.len() as int) is Some));
            },
        }
        assert(spec_compress_error(input@, ends, options.zstd_level, ends.len() as int, 128) is None);
    }
    r
}


// ---------------------------------------------------------------------------
// What a packed container holds
// ---------------------------------------------------------------------------

proof fn lemma_frames_slice(cs: Seq<Seq<u8>>, n: int, k: int)
    requires
        0 <= k < n <= cs.len(),
    ensures
        spec_frames_len(cs, k) + cs[k].len() <= spec_frames_len(cs, n),
        spec_frames(cs, n).subrange(spec_frames_len(cs, k), spec_frames_len(cs, k) + cs[k].len()) == cs[k],
    decreases n,
{
    lemma_frames_len(cs, n);
    lemma_frames_len(cs, n - 1);
    lemma_frames_monotone(cs, 0, k);
    assert(spec_frames(cs, n) == spec_frames(cs, n - 1) + cs[n - 1]);
    assert(spec_frames_len(cs, k + 1) == spec_frames_len(cs, k) + cs[k].len());
    if k < n - 1 {
        lemma_frames_slice(cs, n - 1, k);
        lemma_frames_monotone(cs, k + 1, n - 1);
        let a = spec_frames(cs, n - 1);
        let fk = spec_frames_len(cs, k);
        assert(fk + cs[k].len() <= a.len());
        assert(spec_frames(cs, n).subrange(fk, fk + cs[k].len()) =~= a.subrange(fk, fk + cs[k].len()));
        assert(spec_frames(cs, n).subrange(spec_frames_len(cs, k), spec_frames_len(cs, k) + cs[k].len())
            =~= spec_frames(cs, n - 1).subrange(spec_frames_len(cs, k), spec_frames_len(cs, k) + cs[k].len()));
    } else {
        assert(spec_frames(cs, n).subrange(spec_frames_len(cs, k), spec_frames_len(cs, k) + cs[k].len()) =~= cs[k]);
    }
}

proof fn lemma_frames_monotone(cs: Seq<Seq<u8>>, i: int, j: int)
    requires
        0 <= i <= j <= cs.len(),
    ensures
        spec_frames_len(cs, i) <= spec_frames_len(cs, j),
    decreases j - i,
{
    if i < j {
        lemma_frames_monotone(cs, i, j - 1);
    }
}

proof fn lemma_written_chunk_decodes(
    b: Seq<u8>,
    input: Seq<u8>,
    ends: Seq<int>,
    level: i32,
    es: Seq<ChunkEntry>,
    cs: Seq<Seq<u8>>,
    dicts: Seq<crate::schema::DictionaryEntry>,
    k: int,
)
    requires
        spec_chunks_written(input, ends, level, 128, es, cs),
        0 <= k < es.len(),
        b.len() >= 128 + spec_frames_len(cs, cs.len() as int),
        b.subrange(128, 128 + spec_frames_len(cs, cs.len() as int)) == spec_frames(cs, cs.len() as int),
        spec_chunk_start(ends, k) <= ends[k] <= input.len(),
        input.len() <= usize::MAX,
        input.len() < u64::MAX,
    ensures
        crate::reader::spec_decode_entry(b, dicts, es[k]) == Ok::<Seq<u8>, QztError>(spec_chunk_bytes(input, ends, k)),
{
    let n = cs.len() as int;
    assert(spec_chunk_written(input, ends, level, k, 128 + spec_frames_len(cs, k), es[k], cs[k]));
    lemma_frames_slice(cs, n, k);
    let lo = 128 + spec_frames_len(cs, k);
    let fr = spec_frames(cs, n);
    let whole = b.subrange(128, 128 + spec_frames_len(cs, n));
    lemma_frames_len(cs, n);
    lemma_frames_monotone(cs, 0, k);
    assert forall|i: int| 0 <= i < cs[k].len() implies #[trigger] b.subrange(lo, lo + cs[k].len())[i]
        == fr.subrange(spec_frames_len(cs, k), spec_frames_len(cs, k) + cs[k].len())[i] by {
        assert(whole[spec_frames_len(cs, k) + i] == fr[spec_frames_len(cs, k) + i]);
    }
    assert(b.subrange(lo, lo + cs[k].len()) =~= fr.subrange(spec_frames_len(cs, k), spec_frames_len(cs, k) + cs[k].len()));
    let chunk = spec_chunk_bytes(input, ends, k);
    let size = es[k].uncompressed_size;
    assert(chunk.len() == size);
    assert(zstd_decode_prefix(cs[k], Seq::<u8>::empty(), (size + 1) as u64) == Some(chunk));
}

#[verifier::rlimit(40)]
proof fn lemma_written_chunks_export(
    b: Seq<u8>,
    input: Seq<u8>,
    ends: Seq<int>,
    level: i32,
    es: Seq<ChunkEntry>,
    cs: Seq<Seq<u8>>,
    dicts: Seq<crate::schema::DictionaryEntry>,
    k: int,
    o: ChunkerOptions,
)
    requires
        spec_chunks_written(input, ends, level, 128, es, cs),
        0 <= k <= es.len(),
        b.len() >= 128 + spec_frames_len(cs, cs.len() as int),
        b.subrange(128, 128 + spec_frames_len(cs, cs.len() as int)) == spec_frames(cs, cs.len() as int),
        spec_chunk_ends_ok(input, ends, o),
        input.len() > 0 ==> ends.len() > 0 && ends.last() == input.len(),
        input.len() == 0 ==> ends.len() == 0,
        input.len() <= usize::MAX,
        input.len() < u64::MAX,
    ensures
        crate::reader::spec_export_chunks(b, dicts, es, k) == Ok::<Seq<u8>, QztError>(
            input.subrange(spec_chunk_start(ends, k), input.len() as int)),
    decreases es.len() - k,
{
    if k == es.len() {
        assert(input.subrange(spec_chunk_start(ends, k), input.len() as int) =~= Seq::<u8>::empty());
    } else {
        assert(spec_chunk_start(ends, k) < ends[k] <= input.len());
        lemma_written_chunk_decodes(b, input, ends, level, es, cs, dicts, k);
        lemma_written_chunks_export(b, input, ends, level, es, cs, dicts, k + 1, o);
        assert(spec_chunk_start(ends, k + 1) == ends[k]);
        assert(spec_chunk_bytes(input, ends, k) + input.subrange(ends[k], input.len() as int)
            =~= input.subrange(spec_chunk_start(ends, k), input.len() as int));
    }
}

/// A packed container holds its input: the chunk entries that `pack` wrote,
/// decoded from the bytes it wrote, concatenate to the input, whatever
/// dictionaries a reader offers.
pub proof fn lemma_pack_exports_input(
    b: Seq<u8>,
    input: Seq<u8>,
    container_id: Seq<u8>,
    options: WriterOptions,
    profile: Seq<char>,
    newline_mode: Seq<char>,
    line_count: u64,
    dense: Option<Seq<(u64, Seq<u64>)>>,
    doc: Option<DocumentIndex>,
    es: Seq<ChunkEntry>,
    cs: Seq<Seq<u8>>,
    dicts: Seq<crate::schema::DictionaryEntry>,
)
    requires
        spec_options_valid(options.chunker),
        spec_plan_ends(input, 0, Seq::empty(), options.chunker) is Some,
        spec_chunks_written(input, spec_plan_ends(input, 0, Seq::empty(), options.chunker)->Some_0,
            options.zstd_level, 128, es, cs),
        spec_assembled(b, input, container_id, options, profile, newline_mode, line_count, dense, doc, es, cs),
        input.len() <= usize::MAX,
        input.len() < u64::MAX,
    ensures
        crate::reader::spec_export_chunks(b, dicts, es, 0) == Ok::<Seq<u8>, QztError>(input),
{
    let ends = spec_plan_ends(input, 0, Seq::empty(), options.chunker)->Some_0;
    crate::chunker::lemma_plan_partitions_input(input, options.chunker);
    let (md, root, f) = choose|md: Metadata, root: IndexRoot, f: FooterPayload| #[trigger] spec_assembled_parts(b,
        input, container_id, options, profile, newline_mode, line_count, dense, doc, es, cs, md, root, f);
    reveal(spec_assembled_parts);
    reveal(spec_layout);
    lemma_frames_len(cs, cs.len() as int);
    lemma_written_chunks_export(b, input, ends, options.zstd_level, es, cs, dicts, 0, options.chunker);
    assert(input.subrange(0, input.len() as int) =~= input);
}

/// The frame of a laid-out container: long enough, a header and a trailer
/// that decode, and a trailer that points at the encoded footer payload.
proof fn lemma_layout_frame(
    b: Seq<u8>,
    container_id: Seq<u8>,
    cs: Seq<Seq<u8>>,
    mb: Seq<u8>,
    db: Seq<u8>,
    xb: Seq<u8>,
    es: Seq<ChunkEntry>,
    ib: Seq<u8>,
    f: FooterPayload,
)
    requires
        spec_layout(b, container_id, cs, mb, db, xb, es, ib, f),
    ensures
        crate::skeleton::spec_frame_error(b) is None,
        spec_encode_det(spec_footer_item(f)) is Ok,
        crate::skeleton::spec_region(b, crate::fixed::le64_at(crate::skeleton::spec_trailer_region(b), 16),
            crate::fixed::le64_at(crate::skeleton::spec_trailer_region(b), 24))
            == Ok::<Seq<u8>, QztError>(spec_encode_det(spec_footer_item(f))->Ok_0),
{
    reveal(spec_layout);
    let mo = 128 + spec_frames_len(cs, cs.len() as int);
    lemma_frames_len(cs, cs.len() as int);
    let doff = mo + mb.len();
    let xoff = doff + db.len();
    let toff = xoff + xb.len();
    let tb = spec_table_bytes(es, es.len() as int);
    let ioff = toff + tb.len();
    let foff = ioff + ib.len();
    let fb = spec_encode_det(spec_footer_item(f))->Ok_0;
    let h = Header { metadata_offset: mo as u64, metadata_size: mb.len() as u64, index_hint_offset: ioff as u64, container_id: f.container_id };
    let tr = FooterTrailer {
        footer_payload_offset: foff as u64,
        footer_payload_size: fb.len() as u64,
        footer_payload_checksum_blake3: crate::chunk_table::spec_digest_array(blake3_digest(fb)),
    };
    crate::fixed::lemma_header_roundtrip(h);
    crate::fixed::lemma_trailer_roundtrip(tr);
    assert(crate::skeleton::spec_trailer_region(b) == crate::fixed::spec_trailer_bytes(tr));
    assert(b.subrange(foff, foff + fb.len()) == fb);
}

/// A packed container passes the fixed-frame checks of an opening reader: it
/// is long enough, its header and trailer decode, and the trailer points at
/// the footer payload the writer encoded, inside the file.
#[verifier::rlimit(40)]
pub proof fn lemma_packed_frame_opens(
    b: Seq<u8>,
    input: Seq<u8>,
    container_id: Seq<u8>,
    options: WriterOptions,
    profile: Seq<char>,
    mode: DenseLineIndexMode,
    doc: Option<DocumentIndex>,
)
    requires
        spec_pack(input, container_id, options, profile, mode, doc, Ok::<Seq<u8>, QztError>(b)),
    ensures
        crate::skeleton::spec_frame_error(b) is None,
        exists|f: FooterPayload| #[trigger] spec_encode_det(spec_footer_item(f)) is Ok
            && crate::skeleton::spec_region(b, crate::fixed::le64_at(crate::skeleton::spec_trailer_region(b), 16),
                crate::fixed::le64_at(crate::skeleton::spec_trailer_region(b), 24))
            == Ok::<Seq<u8>, QztError>(spec_encode_det(spec_footer_item(f))->Ok_0),
{
    let ends = spec_plan_ends(input, 0, Seq::empty(), options.chunker)->Some_0;
    let newline_mode = crate::chunker::spec_mode_name(crate::chunker::spec_newline_mode(input));
    let line_count = spec_lines_before(input, input.len() as int) as u64;
    let (es, cs) = choose|es: Seq<ChunkEntry>, cs: Seq<Seq<u8>>| #[trigger] spec_chunks_written(input, ends, options.zstd_level, 128, es, cs)
        && spec_assembled(b, input, container_id, options, profile, newline_mode, line_count, spec_dense_of(mode, input, es), doc, es, cs);
    let dense = spec_dense_of(mode, input, es);
    let (md, root, f) = choose|md: Metadata, root: IndexRoot, f: FooterPayload| #[trigger] spec_assembled_parts(b,
        input, container_id, options, profile, newline_mode, line_count, dense, doc, es, cs, md, root, f);
    reveal(spec_assembled_parts);
    let mb = spec_encode_det(spec_metadata_item(md))->Ok_0;
    let db = match dense {
        Some(x) => crate::dense_line_index::spec_dense_encoding(x),
        None => Seq::<u8>::empty(),
    };
    let xb = match doc {
        Some(d) => spec_encode_det(spec_document_index_item(d))->Ok_0,
        None => Seq::<u8>::empty(),
    };
    let ib = spec_encode_det(spec_index_root_item(root))->Ok_0;
    lemma_layout_frame(b, container_id, cs, mb, db, xb, es, ib, f);
}
/// Deep verification accepts the Dense Line Index the writer generates: for
/// every chunk, the entry written for it holds exactly the line starts that
/// deep verification requires of the chunk's original bytes under the
/// chunk's flags, whatever those flags are.
pub proof fn lemma_generated_dense_index_verifies(
    input: Seq<u8>,
    es: Seq<ChunkEntry>,
    d: crate::skeleton::SkeletonDetails,
    k: int,
)
    requires
        d.dense_line_index matches Some(di) && Some(di@) == spec_dense_of(DenseLineIndexMode::Generate, input, es),
        0 <= k < es.len(),
    ensures
        crate::reader::spec_dense_chunk_ok(d, k, crate::dense_line_index::spec_chunk_slice(input, es[k]), es[k].flags),
{
}

// ---------------------------------------------------------------------------
// Public packing entry points
// ---------------------------------------------------------------------------

/// The default container id of `input`: the first 16 bytes of its BLAKE3 digest.
pub open spec fn spec_default_container_id(input: Seq<u8>) -> Seq<u8> {
    blake3_digest(input).subrange(0, 16)
}

fn default_container_id(input: &[u8]) -> (r: [u8; 16])
    ensures
        r@ == spec_default_container_id(input@),
{
    let hash = blake3_hash(input);
    let mut container_id = [0u8; 16];
    let mut i: usize = 0;
    while i < 16
        invariant
            i <= 16,
            hash@ == blake3_digest(input@),
            forall|k: int| 0 <= k < i ==> container_id@[k] == hash@[k],
        decreases 16 - i,
    {
        container_id[i] = hash[i];
        i = i + 1;
    }
    assert(container_id@ =~= hash@.subrange(0, 16));
    container_id
}

/// Packs UTF-8 input into a no-dictionary QZT container.
pub fn pack_bytes(input: &[u8], options: WriterOptions) -> (r: Result<Vec<u8>>)
    ensures
        spec_pack(input@, spec_default_container_id(input@), options, "core"@, DenseLineIndexMode::Omit, None,
            spec_bytes_result(r)),
{
    let container_id = default_container_id(input);
    pack_bytes_with_container_id(input, container_id, options)
}

/// Packs UTF-8 input with profile and optional Dense Line Index metadata.
pub fn pack_bytes_with_profile(input: &[u8], options: WriterOptions, profile: &str, dense_line_index: bool) -> (r: Result<Vec<u8>>)
    ensures
        spec_pack(input@, spec_default_container_id(input@), options, profile@,
            if dense_line_index { DenseLineIndexMode::Generate } else { DenseLineIndexMode::Omit }, None,
            spec_bytes_result(r)),
{
    let container_id = default_container_id(input);
    pack_bytes_with_profile_and_container_id(input, container_id, options, profile, dense_line_index)
}

/// Packs UTF-8 input with an explicit container id, profile, and optional Dense Line Index.
pub fn pack_bytes_with_profile_and_container_id(
    input: &[u8],
    container_id: [u8; 16],
    options: WriterOptions,
    profile: &str,
    dense_line_index: bool,
) -> (r: Result<Vec<u8>>)
    ensures
        spec_pack(input@, container_id@, options, profile@,
            if dense_line_index { DenseLineIndexMode::Generate } else { DenseLineIndexMode::Omit }, None,
            spec_bytes_result(r)),
{
    let dense_mode = if dense_line_index {
        DenseLineIndexMode::Generate
    } else {
        DenseLineIndexMode::Omit
    };
    pack_bytes_internal(input, container_id, options, dense_mode, None, profile)
}

/// Packs UTF-8 input with an explicit container id.
pub fn pack_bytes_with_container_id(input: &[u8], container_id: [u8; 16], options: WriterOptions) -> (r: Result<Vec<u8>>)
    ensures
        spec_pack(input@, container_id@, options, "core"@, DenseLineIndexMode::Omit, None, spec_bytes_result(r)),
{
    pack_bytes_internal(input, container_id, options, DenseLineIndexMode::Omit, None, "core")
}

/// Packs UTF-8 input with a Dense Line Index block.
pub fn pack_bytes_with_dense_line_index(input: &[u8], container_id: [u8; 16], options: WriterOptions) -> (r: Result<Vec<u8>>)
    ensures
        spec_pack(input@, container_id@, options, "core"@, DenseLineIndexMode::Generate, None, spec_bytes_result(r)),
{
    pack_bytes_internal(input, container_id, options, DenseLineIndexMode::Generate, None, "core")
}

/// Packs UTF-8 input with a caller-provided Dense Line Index block, which may
/// disagree with the chunks (a stale optional index beside a valid chunk table).
pub fn pack_bytes_with_dense_line_index_override(
    input: &[u8],
    container_id: [u8; 16],
    options: WriterOptions,
    dense_line_index: DenseLineIndex,
) -> (r: Result<Vec<u8>>)
    ensures
        spec_pack(input@, container_id@, options, "core"@, DenseLineIndexMode::Override(dense_line_index), None,
            spec_bytes_result(r)),
{
    pack_bytes_internal(input, container_id, options, DenseLineIndexMode::Override(dense_line_index), None, "core")
}

/// Packs UTF-8 input with a Document Index block.
pub fn pack_bytes_with_document_index(
    input: &[u8],
    container_id: [u8; 16],
    options: WriterOptions,
    document_index: &DocumentIndex,
) -> (r: Result<Vec<u8>>)
    ensures
        spec_pack(input@, container_id@, options, "core"@, DenseLineIndexMode::Omit, Some(*document_index),
            spec_bytes_result(r)),
{
    pack_bytes_internal(input, container_id, options, DenseLineIndexMode::Omit, Some(document_index), "core")
}

/// Packs UTF-8 input under the memory profile: a dense line index and a document index.
pub fn pack_bytes_with_memory_profile(
    input: &[u8],
    container_id: [u8; 16],
    options: WriterOptions,
    document_index: &DocumentIndex,
) -> (r: Result<Vec<u8>>)
    ensures
        spec_pack(input@, container_id@, options, "memory"@, DenseLineIndexMode::Generate, Some(*document_index),
            spec_bytes_result(r)),
{
    pack_bytes_internal(input, container_id, options, DenseLineIndexMode::Generate, Some(document_index), "memory")
}

/// Exports all original bytes from a container.
pub fn export_all(container: &[u8]) -> (r: Result<Vec<u8>>)
    ensures
        match r {
            Ok(b) => exists|d: crate::skeleton::SkeletonDetails|
                crate::skeleton::spec_skeleton_holds(container@, crate::limits::spec_default_resource_limits(), d)
                && #[trigger] crate::reader::spec_export(container@, d) == Ok::<Seq<u8>, QztError>(b@),
            Err(e) => crate::skeleton::spec_open_failure(container@, crate::limits::spec_default_resource_limits(), e)
                || exists|d: crate::skeleton::SkeletonDetails|
                    crate::skeleton::spec_skeleton_holds(container@, crate::limits::spec_default_resource_limits(), d)
                    && #[trigger] crate::reader::spec_export(container@, d) == Err::<Seq<u8>, QztError>(e),
        },
        crate::skeleton::spec_skeleton_error(container@, crate::limits::spec_default_resource_limits()) is None
            && crate::skeleton::spec_no_dense_block(container@)
            ==> exists|d: crate::skeleton::SkeletonDetails|
                crate::skeleton::spec_skeleton_holds(container@, crate::limits::spec_default_resource_limits(), d)
                && #[trigger] crate::reader::spec_export(container@, d) == spec_bytes_result(r),
{
    let reader = crate::reader::QztReader::open(container)?;
    let r = reader.export_all();
    proof {
        let d = reader.spec_details();
        assert(crate::reader::spec_export(container@, d) == spec_bytes_result(r));
        let gr = r;
        match gr {
            Ok(b) => {
                assert(crate::reader::spec_export(container@, d) == Ok::<Seq<u8>, QztError>(b@));
            },
            Err(e) => {
                assert(crate::reader::spec_export(container@, d) == Err::<Seq<u8>, QztError>(e));
            },
        }
    }
    r
}

// ---------------------------------------------------------------------------
// Streaming writer
// ---------------------------------------------------------------------------

/// `sink` with `bytes` written at `offset`.
pub open spec fn spec_overlay(sink: Seq<u8>, offset: int, bytes: Seq<u8>) -> Seq<u8> {
    if offset + bytes.len() <= sink.len() {
        sink.subrange(0, offset) + bytes + sink.subrange(offset + bytes.len(), sink.len() as int)
    } else {
        sink.subrange(0, offset) + bytes
    }
}

/// `sink` after the positioned writes `ws`, in order.
pub open spec fn spec_apply_writes(sink: Seq<u8>, ws: Seq<(u64, Seq<u8>)>) -> Seq<u8>
    decreases ws.len(),
{
    if ws.len() == 0 {
        sink
    } else {
        spec_overlay(spec_apply_writes(sink, ws.drop_last()), ws.last().0 as int, ws.last().1)
    }
}

/// The positioned writes `ws`, by the bytes they write.
pub open spec fn spec_writes_view(ws: Seq<(u64, Vec<u8>)>) -> Seq<(u64, Seq<u8>)> {
    ws.map_values(|w: (u64, Vec<u8>)| (w.0, w.1@))
}

/// `b` is the container a stream of `input` ends in: its chunks are closed at
/// `ends`, which cover the input, and it is assembled as a core container
/// without optional indexes, with the container id taken from the input.
pub open spec fn spec_stream_finished(b: Seq<u8>, input: Seq<u8>, options: WriterOptions, es: Seq<ChunkEntry>, cs: Seq<Seq<u8>>) -> bool {
    exists|ends: Seq<int>| {
        &&& #[trigger] spec_chunks_written(input, ends, options.zstd_level, 128, es, cs)
        &&& (if ends.len() == 0 { input.len() == 0 } else { ends.last() == input.len() })
        &&& spec_assembled(b, input, spec_default_container_id(input), options, "core"@,
            crate::chunker::spec_mode_name(crate::chunker::spec_newline_mode(input)),
            spec_lines_before(input, input.len() as int) as u64, None, None, es, cs)
    }
}

/// Assembling the container of a stream of `input` after its chunks were
/// written as `es` and `cs` fails with `e`.
pub open spec fn spec_stream_assembly_failure(input: Seq<u8>, options: WriterOptions, es: Seq<ChunkEntry>, cs: Seq<Seq<u8>>, e: QztError) -> bool {
    exists|ends: Seq<int>, cid: [u8; 16]| {
        &&& #[trigger] spec_chunks_written(input, ends, options.zstd_level, 128, es, cs)
        &&& (if ends.len() == 0 { input.len() == 0 } else { ends.last() == input.len() })
        &&& cid@ == spec_default_container_id(input)
        &&& #[trigger] spec_assembly_failure(input, cid, options, "core"@,
            crate::chunker::spec_mode_name(crate::chunker::spec_newline_mode(input)),
            spec_lines_before(input, input.len() as int) as u64, None, None, es, cs, e)
    }
}

/// Line starts below `n` do not depend on bytes appended after `n`.
proof fn lemma_line_starts_extend(a: Seq<u8>, d: Seq<u8>, n: int)
    requires
        0 <= n <= a.len(),
    ensures
        crate::chunker::spec_line_starts(a + d, n) == crate::chunker::spec_line_starts(a, n),
    decreases n,
{
    if n > 0 {
        lemma_line_starts_extend(a, d, n - 1);
        assert((a + d)[n - 1] == a[n - 1]);
        if n >= 2 {
            assert((a + d)[n - 2] == a[n - 2]);
        }
    }
}

/// A chunk written from `input` is written the same from `input` with more
/// bytes appended.
proof fn lemma_chunk_written_extend(input: Seq<u8>, d: Seq<u8>, ends: Seq<int>, level: i32, k: int, po: int, e: ChunkEntry, c: Seq<u8>)
    requires
        0 <= k < ends.len(),
        0 <= spec_chunk_start(ends, k) < ends[k] <= input.len(),
        spec_chunk_written(input, ends, level, k, po, e, c),
    ensures
        spec_chunk_written(input + d, ends, level, k, po, e, c),
{
    let s = spec_chunk_start(ends, k);
    assert(spec_chunk_bytes(input + d, ends, k) =~= spec_chunk_bytes(input, ends, k));
    lemma_line_starts_extend(input, d, s);
    lemma_line_starts_extend(input, d, ends[k]);
    if s > 0 {
        assert((input + d)[s - 1] == input[s - 1]);
    }
}

/// The bytes of an assembled container between the header and the blocks
/// are its frames.
proof fn lemma_assembled_frames(
    b: Seq<u8>,
    input: Seq<u8>,
    container_id: Seq<u8>,
    options: WriterOptions,
    profile: Seq<char>,
    newline_mode: Seq<char>,
    line_count: u64,
    dense: Option<Seq<(u64, Seq<u64>)>>,
    doc: Option<DocumentIndex>,
    es: Seq<ChunkEntry>,
    cs: Seq<Seq<u8>>,
)
    requires
        spec_assembled(b, input, container_id, options, profile, newline_mode, line_count, dense, doc, es, cs),
    ensures
        b.len() >= 128 + spec_frames_len(cs, cs.len() as int),
        b.subrange(128, 128 + spec_frames_len(cs, cs.len() as int)) == spec_frames(cs, cs.len() as int),
{
    let (md, root, f) = choose|md: Metadata, root: IndexRoot, f: FooterPayload| #[trigger] spec_assembled_parts(b, input,
        container_id, options, profile, newline_mode, line_count, dense, doc, es, cs, md, root, f);
    reveal(spec_assembled_parts);
    reveal(spec_layout);
    lemma_frames_len(cs, cs.len() as int);
}

/// Closing one more chunk at `end` keeps the closed chunks written, and adds
/// its frame after the others.
proof fn lemma_stream_step(
    input: Seq<u8>,
    ends: Seq<int>,
    cs: Seq<Seq<u8>>,
    es: Seq<ChunkEntry>,
    level: i32,
    start: int,
    end: int,
    e: ChunkEntry,
    c: Seq<u8>,
)
    requires
        ends.len() == es.len(),
        ends.len() == cs.len(),
        if ends.len() == 0 { start == 0 } else { start == ends.last() },
        forall|k: int| 0 <= k < ends.len() ==> 0 <= spec_chunk_start(ends, k) && spec_chunk_start(ends, k) < #[trigger] ends[k]
            && ends[k] <= start,
        forall|k: int| 0 <= k < ends.len() ==> spec_chunk_written(input, ends, level, k, 128 + spec_frames_len(cs, k),
            #[trigger] es[k], cs[k]),
        start < end <= input.len(),
        spec_chunk_written(input, ends.push(end), level, ends.len() as int, 128 + spec_frames_len(cs, cs.len() as int), e, c),
    ensures
        ({
            let ends2 = ends.push(end);
            let cs2 = cs.push(c);
            let es2 = es.push(e);
            &&& forall|k: int| 0 <= k < ends2.len() ==> 0 <= spec_chunk_start(ends2, k) && spec_chunk_start(ends2, k) < #[trigger] ends2[k]
                && ends2[k] <= end
            &&& forall|k: int| 0 <= k < ends2.len() ==> spec_chunk_written(input, ends2, level, k, 128 + spec_frames_len(cs2, k),
                #[trigger] es2[k], cs2[k])
            &&& spec_frames(cs2, cs2.len() as int) == spec_frames(cs, cs.len() as int) + c
            &&& spec_frames_len(cs2, cs2.len() as int) == spec_frames_len(cs, cs.len() as int) + c.len()
        }),
{
    let ends2 = ends.push(end);
    let cs2 = cs.push(c);
    let es2 = es.push(e);
    let n = ends.len() as int;
    lemma_frames_prefix(cs, cs2, n);
    assert(spec_chunk_start(ends2, n) == start);
    assert forall|k: int| 0 <= k < ends2.len() implies 0 <= spec_chunk_start(ends2, k) && spec_chunk_start(ends2, k) < #[trigger] ends2[k]
        && ends2[k] <= end by {
        if k < n {
            assert(ends2[k] == ends[k]);
            assert(spec_chunk_start(ends2, k) == spec_chunk_start(ends, k));
        }
    }
    assert forall|k: int| 0 <= k < ends2.len() implies spec_chunk_written(input, ends2, level, k, 128 + spec_frames_len(cs2, k),
        #[trigger] es2[k], cs2[k]) by {
        if k < n {
            lemma_frames_prefix(cs, cs2, k);
            assert(ends2[k] == ends[k]);
            assert(spec_chunk_start(ends2, k) == spec_chunk_start(ends, k));
            assert(spec_chunk_bytes(input, ends2, k) == spec_chunk_bytes(input, ends, k));
            assert(spec_chunk_written(input, ends, level, k, 128 + spec_frames_len(cs, k), es[k], cs[k]));
        }
    }
}

/// Closing the chunk that starts at `start` of `input`, with the frames so
/// far ending at `po`: the chunk's end and frame, or the failure.
#[verifier::opaque]
pub open spec fn spec_close_step(input: Seq<u8>, start: int, o: ChunkerOptions, level: i32, po: int) -> Result<(int, Seq<u8>)> {
    match crate::chunker::spec_chunk_end(input, start, o) {
        None => Err(QztError::ResourceLimitExceeded),
        Some(end) => if end <= start {
            Err(QztError::ResourceLimitExceeded)
        } else if !valid_utf8(input.subrange(start, end)) {
            Err(QztError::InvalidUtf8)
        } else {
            match zstd_frame(input.subrange(start, end), level) {
                None => Err(QztError::ZstdEncodeError),
                Some(c) => if c.len() == 0 {
                    Err(QztError::ChunkSizeMismatch)
                } else if po + c.len() > u64::MAX {
                    Err(QztError::PhysicalRangeOutOfBounds)
                } else {
                    Ok((end, c))
                },
            }
        },
    }
}

/// Closing chunks from `start` while more than `keep` bytes are pending
/// fails with `e`: the first chunk that fails, in order.
#[verifier::opaque]
pub open spec fn spec_close_failure(input: Seq<u8>, start: int, keep: int, o: ChunkerOptions, level: i32, po: int, e: QztError) -> bool
    decreases input.len() - start,
{
    if start < 0 || input.len() - start <= keep {
        false
    } else {
        match spec_close_step(input, start, o, level, po) {
            Err(x) => e == x,
            Ok((end, c)) => if end <= start || end > input.len() {
                false
            } else {
                spec_close_failure(input, end, keep, o, level, po + c.len(), e)
            },
        }
    }
}

/// Number of lines starting in `start..end`.
fn count_line_starts(input: &Vec<u8>, start: usize, end: usize) -> (r: u64)
    requires
        start <= end <= input@.len(),
    ensures
        r == spec_lines_before(input@, end as int) - spec_lines_before(input@, start as int),
{
    let mut n: u64 = 0;
    let mut p: usize = start;
    while p < end
        invariant
            start <= p <= end <= input@.len(),
            n == spec_lines_before(input@, p as int) - spec_lines_before(input@, start as int),
            n <= p - start,
        decreases end - p,
    {
        if p == 0 || input[p - 1] == 10 {
            n = n + 1;
        }
        p = p + 1;
    }
    n
}

/// A container written while its input arrives: each chunk is compressed and
/// handed out as a positioned write as soon as the chunk is closed, and the
/// blocks after the frames, then the header, are handed out at the end. The
/// caller performs the writes on a sink that was empty.
pub struct QztStreamWriter {
    options: WriterOptions,
    input: Vec<u8>,
    start: usize,
    lines_before: u64,
    frames: Vec<Vec<u8>>,
    entries: Vec<ChunkEntry>,
    physical_offset: u64,
    poisoned: bool,
    ends: Ghost<Seq<int>>,
}

impl QztStreamWriter {
    /// The bytes pushed so far.
    pub closed spec fn spec_input(&self) -> Seq<u8> {
        self.input@
    }

    /// The writer options.
    pub closed spec fn spec_options(&self) -> WriterOptions {
        self.options
    }

    /// Whether an earlier step failed, after which every step fails.
    pub closed spec fn spec_poisoned(&self) -> bool {
        self.poisoned
    }

    /// What the sink holds after the writes handed out so far: the reserved
    /// header and the frames of the closed chunks.
    pub closed spec fn spec_sink(&self) -> Seq<u8> {
        Seq::new(128, |i: int| 0u8) + spec_frames(spec_frames_view(self.frames@), self.frames@.len() as int)
    }

    /// Pushing `data` fails with `e`: closing a chunk of the grown input,
    /// while more than the maximum chunk size is pending, fails with `e`.
    pub closed spec fn spec_push_failure(&self, data: Seq<u8>, e: QztError) -> bool {
        spec_close_failure(self.input@ + data, self.start as int, self.options.chunker.max_chunk_size as int,
            self.options.chunker, self.options.zstd_level, self.physical_offset as int, e)
    }

    /// Finishing fails with `e` while closing the remaining chunks.
    pub closed spec fn spec_finish_close_failure(&self, e: QztError) -> bool {
        spec_close_failure(self.input@, self.start as int, 0, self.options.chunker, self.options.zstd_level,
            self.physical_offset as int, e)
    }

    /// The chunks closed so far are written from the input at their offsets.
    pub closed spec fn wf(&self) -> bool {
        let ends = self.ends@;
        let cs = spec_frames_view(self.frames@);
        &&& spec_options_valid(self.options.chunker)
        &&& ends.len() == self.entries@.len()
        &&& ends.len() == self.frames@.len()
        &&& self.start <= self.input@.len()
        &&& (if ends.len() == 0 { self.start == 0 } else { self.start == ends.last() })
        &&& forall|k: int| 0 <= k < ends.len() ==> 0 <= spec_chunk_start(ends, k) && spec_chunk_start(ends, k) < #[trigger] ends[k]
            && ends[k] <= self.start
        &&& self.lines_before == spec_lines_before(self.input@, self.start as int)
        &&& self.physical_offset == 128 + spec_frames_len(cs, cs.len() as int)
        &&& forall|k: int| 0 <= k < ends.len() ==> spec_chunk_written(self.input@, ends, self.options.zstd_level, k,
            128 + spec_frames_len(cs, k), #[trigger] self.entries@[k], cs[k])
    }

    /// Starts a stream into a sink of `sink_len` bytes, which must be empty,
    /// and gives the header bytes to reserve at offset zero.
    pub fn new(options: WriterOptions, sink_len: u64) -> (r: Result<(Self, Vec<u8>)>)
        ensures
            !spec_options_valid(options.chunker) ==> (r matches Err(e) && e == QztError::ResourceLimitExceeded),
            spec_options_valid(options.chunker) && sink_len != 0 ==> (r matches Err(e) && e == QztError::ContainerCorrupt),
            spec_options_valid(options.chunker) && sink_len == 0 ==> (r matches Ok((w, h)) && w.wf() && !w.spec_poisoned()
                && w.spec_input() == Seq::<u8>::empty() && w.spec_options() == options
                && h@ == Seq::new(128, |i: int| 0u8) && w.spec_sink() == h@),
    {
        match options.chunker.validate() {
            Ok(()) => {},
            Err(e) => {
                return Err(e);
            },
        }
        if sink_len != 0 {
            return Err(QztError::ContainerCorrupt);
        }
        let header: Vec<u8> = vec![0u8; 128];
        let w = QztStreamWriter {
            options,
            input: Vec::new(),
            start: 0,
            lines_before: 0,
            frames: Vec::new(),
            entries: Vec::new(),
            physical_offset: 128,
            poisoned: false,
            ends: Ghost(Seq::empty()),
        };
        proof {
            assert(spec_frames_view(w.frames@) =~= Seq::<Seq<u8>>::empty());
            assert(w.spec_sink() =~= header@);
        }
        Ok((w, header))
    }

    /// Closes the next chunk at the end the chunk planner chooses, compresses
    /// it, and gives its frame as a write at the end of the sink.
    #[verifier::rlimit(60)]
    #[verifier::spinoff_prover]
    fn close_chunk(&mut self) -> (r: Result<(u64, Vec<u8>)>)
        requires
            old(self).wf(),
            old(self).start < old(self).input@.len(),
        ensures
            final(self).wf(),
            final(self).input@ == old(self).input@,
            final(self).options == old(self).options,
            final(self).poisoned == old(self).poisoned,
            r matches Ok(w) ==> final(self).start > old(self).start
                && final(self).spec_sink() == spec_overlay(old(self).spec_sink(), w.0 as int, w.1@),
            r is Err ==> final(self).start == old(self).start && final(self).spec_sink() == old(self).spec_sink(),
            match spec_close_step(old(self).input@, old(self).start as int, old(self).options.chunker, old(self).options.zstd_level,
                old(self).physical_offset as int) {
                Err(e) => r == Err::<(u64, Vec<u8>), QztError>(e),
                Ok((end, c)) => r is Ok && final(self).start == end && final(self).physical_offset == old(self).physical_offset + c.len(),
            },
    {
        proof {
            reveal(spec_close_step);
        }
        let ghost ends = self.ends@;
        let ghost cs = spec_frames_view(self.frames@);
        let start = self.start;
        let end = choose_chunk_end(self.input.as_slice(), start, self.options.chunker)?;
        proof {
            crate::chunker::lemma_chunk_end_props(self.input@, start as int, self.options.chunker);
        }
        if end <= start {
            return Err(QztError::ResourceLimitExceeded);
        }
        proof {
            assert(spec_chunk_bytes(self.input@, ends.push(end as int), ends.len() as int) == self.input@.subrange(start as int, end as int));
        }
        if crate::bytes_util::text_from_utf8(crate::skeleton::slice_subrange(self.input.as_slice(), start, end)).is_none() {
            return Err(QztError::InvalidUtf8);
        }
        let line_count = count_line_starts(&self.input, start, end);
        let flags: u32 = if start > 0 && self.input[start - 1] != 10 {
            crate::chunk_table::STARTS_WITH_LINE_CONTINUATION
        } else {
            0
        };
        let k = self.entries.len();
        let chunk = PlannedChunk {
            chunk_id: k as u64,
            logical_offset: start as u64,
            uncompressed_size: (end - start) as u64,
            first_line: self.lines_before,
            line_count,
            flags,
        };
        let ghost ends2 = ends.push(end as int);
        proof {
            assert(spec_chunk_start(ends2, k as int) == start);
            assert(spec_planned_chunk(self.input@, ends2, k as int, chunk));
        }
        let (frame, entry) = compress_chunk(self.input.as_slice(), &chunk, self.options.zstd_level, self.physical_offset,
            Ghost(ends2), Ghost(k as int))?;
        if self.physical_offset as u128 + frame.len() as u128 > u64::MAX as u128 {
            return Err(QztError::PhysicalRangeOutOfBounds);
        }
        let offset = self.physical_offset;
        let copy = slice_to_vec(frame.as_slice(), 0, frame.len());
        assert(frame@.subrange(0, frame@.len() as int) =~= frame@);
        let ghost old_sink = self.spec_sink();
        proof {
            lemma_stream_step(self.input@, ends, cs, self.entries@, self.options.zstd_level, start as int, end as int, entry, frame@);
            lemma_frames_len(cs, cs.len() as int);
            crate::chunker::lemma_line_starts_facts(self.input@, end as int);
        }
        self.physical_offset = self.physical_offset + frame.len() as u64;
        self.frames.push(frame);
        self.entries.push(entry);
        self.ends = Ghost(ends2);
        self.lines_before = self.lines_before + line_count;
        self.start = end;
        proof {
            let cs2 = spec_frames_view(self.frames@);
            assert(cs2 =~= cs.push(copy@));
            assert(self.spec_sink() =~= old_sink + copy@);
            assert(spec_overlay(old_sink, offset as int, copy@) =~= old_sink + copy@);
        }
        Ok((offset, copy))
    }

    /// Appends `data` to the input and gives the frames of the chunks that
    /// the input now closes: a chunk is closed while more than the maximum
    /// chunk size is pending.
    pub fn push(&mut self, data: &[u8]) -> (r: Result<Vec<(u64, Vec<u8>)>>)
        requires
            old(self).wf(),
        ensures
            final(self).wf(),
            final(self).spec_options() == old(self).spec_options(),
            old(self).spec_poisoned() ==> (r matches Err(e) && e == QztError::WriterAlreadyFinished
                && final(self).spec_input() == old(self).spec_input() && final(self).spec_sink() == old(self).spec_sink()),
            !old(self).spec_poisoned() ==> final(self).spec_input() == old(self).spec_input() + data@
                && final(self).spec_sink() == spec_apply_writes(old(self).spec_sink(), spec_writes_view(
                    match r { Ok(ws) => ws@, Err(_) => Seq::empty() })) || final(self).spec_poisoned(),
            r is Ok ==> !final(self).spec_poisoned(),
            r is Err ==> final(self).spec_poisoned(),
            !old(self).spec_poisoned() ==> match r {
                Ok(_) => forall|e: QztError| !#[trigger] old(self).spec_push_failure(data@, e),
                Err(e) => old(self).spec_push_failure(data@, e),
            },
    {
        if self.poisoned {
            return Err(QztError::WriterAlreadyFinished);
        }
        let ghost before = self.input@;
        extend_bytes(&mut self.input, data);
        proof {
            let ends = self.ends@;
            let cs = spec_frames_view(self.frames@);
            assert forall|k: int| 0 <= k < ends.len() implies spec_chunk_written(self.input@, ends, self.options.zstd_level, k,
                128 + spec_frames_len(cs, k), #[trigger] self.entries@[k], cs[k]) by {
                lemma_chunk_written_extend(before, data@, ends, self.options.zstd_level, k,
                    128 + spec_frames_len(cs, k), self.entries@[k], cs[k]);
            }
            lemma_line_starts_extend(before, data@, self.start as int);
        }
        let mut writes: Vec<(u64, Vec<u8>)> = Vec::new();
        let ghost sink0 = self.spec_sink();
        assert(spec_writes_view(writes@) =~= Seq::<(u64, Seq<u8>)>::empty());
        while self.input.len() - self.start > self.options.chunker.max_chunk_size
            invariant
                self.wf(),
                !self.poisoned,
                self.input@ == before + data@,
                self.options == old(self).options,
                self.spec_sink() == spec_apply_writes(sink0, spec_writes_view(writes@)),
                sink0 == old(self).spec_sink(),
                !old(self).poisoned,
                before == old(self).input@,
                forall|e: QztError| spec_close_failure(self.input@, self.start as int, self.options.chunker.max_chunk_size as int,
                    self.options.chunker, self.options.zstd_level, self.physical_offset as int, e)
                    == spec_close_failure(before + data@, old(self).start as int, old(self).options.chunker.max_chunk_size as int,
                    old(self).options.chunker, old(self).options.zstd_level, old(self).physical_offset as int, e),
            decreases self.input@.len() - self.start,
        {
            let ghost s0 = self.start as int;
            let ghost p0 = self.physical_offset as int;
            match self.close_chunk() {
                Ok(w) => {
                    let ghost ws0 = spec_writes_view(writes@);
                    proof {
                        reveal(spec_close_step);
                    }
                    writes.push(w);
                    proof {
                        assert(spec_writes_view(writes@).drop_last() =~= ws0);
                        assert forall|e: QztError| spec_close_failure(self.input@, self.start as int, self.options.chunker.max_chunk_size as int,
                            self.options.chunker, self.options.zstd_level, self.physical_offset as int, e)
                            == #[trigger] spec_close_failure(self.input@, s0, self.options.chunker.max_chunk_size as int,
                            self.options.chunker, self.options.zstd_level, p0, e) by {
                            reveal(spec_close_failure);
                        }
                    }
                },
                Err(e) => {
                    proof {
                        assert(spec_close_failure(self.input@, s0, self.options.chunker.max_chunk_size as int,
                            self.options.chunker, self.options.zstd_level, p0, e)) by {
                            reveal(spec_close_failure);
                        }
                        assert(spec_close_failure(before + data@, old(self).start as int, old(self).options.chunker.max_chunk_size as int,
                            old(self).options.chunker, old(self).options.zstd_level, old(self).physical_offset as int, e));
                        assert(old(self).spec_push_failure(data@, e));
                    }
                    self.poisoned = true;
                    return Err(e);
                },
            }
        }
        proof {
            assert forall|e: QztError| !#[trigger] old(self).spec_push_failure(data@, e) by {
                assert(!spec_close_failure(self.input@, self.start as int, self.options.chunker.max_chunk_size as int,
                    self.options.chunker, self.options.zstd_level, self.physical_offset as int, e)) by {
                    reveal(spec_close_failure);
                }
            }
        }
        Ok(writes)
    }

    /// Closes the remaining chunks and gives their frames, then the blocks
    /// after the frames and finally the header: the sink, with these writes
    /// laid over it, holds the finished container.
    pub fn finish(self) -> (r: Result<Vec<(u64, Vec<u8>)>>)
        requires
            self.wf(),
        ensures
            self.spec_poisoned() ==> (r matches Err(e) && e == QztError::WriterAlreadyFinished),
            r matches Ok(ws) ==> exists|b: Seq<u8>, es: Seq<ChunkEntry>, cs: Seq<Seq<u8>>|
                #[trigger] spec_stream_finished(b, self.spec_input(), self.spec_options(), es, cs)
                && spec_apply_writes(self.spec_sink(), spec_writes_view(ws@)) == b,
            !self.spec_poisoned() ==> (r matches Err(e) ==> (self.spec_finish_close_failure(e)
                || ((forall|x: QztError| !#[trigger] self.spec_finish_close_failure(x))
                    && exists|es: Seq<ChunkEntry>, cs: Seq<Seq<u8>>| #[trigger] spec_stream_assembly_failure(self.spec_input(), self.spec_options(), es, cs, e)))),
    {
        if self.poisoned {
            return Err(QztError::WriterAlreadyFinished);
        }
        let mut w = self;
        let ghost sink0 = w.spec_sink();
        let mut writes: Vec<(u64, Vec<u8>)> = Vec::new();
        assert(spec_writes_view(writes@) =~= Seq::<(u64, Seq<u8>)>::empty());
        while w.start < w.input.len()
            invariant
                w.wf(),
                w.input@ == self.input@,
                w.options == self.options,
                !self.poisoned,
                !w.poisoned,
                w.spec_sink() == spec_apply_writes(sink0, spec_writes_view(writes@)),
                forall|e: QztError| spec_close_failure(w.input@, w.start as int, 0, w.options.chunker, w.options.zstd_level,
                    w.physical_offset as int, e) == #[trigger] self.spec_finish_close_failure(e),
            decreases w.input@.len() - w.start,
        {
            let ghost s0 = w.start as int;
            let ghost p0 = w.physical_offset as int;
            let c = match w.close_chunk() {
                Ok(c) => c,
                Err(e) => {
                    proof {
                        assert(spec_close_failure(w.input@, s0, 0, w.options.chunker, w.options.zstd_level, p0, e)) by {
                            reveal(spec_close_failure);
                        }
                        assert(self.spec_finish_close_failure(e));
                    }
                    return Err(e);
                },
            };
            let ghost ws0 = spec_writes_view(writes@);
            writes.push(c);
            proof {
                assert(spec_writes_view(writes@).drop_last() =~= ws0);
                reveal(spec_close_step);
                assert forall|e: QztError| spec_close_failure(w.input@, w.start as int, 0, w.options.chunker, w.options.zstd_level,
                    w.physical_offset as int, e) == #[trigger] self.spec_finish_close_failure(e) by {
                    assert(spec_close_failure(w.input@, w.start as int, 0, w.options.chunker, w.options.zstd_level,
                        w.physical_offset as int, e) == spec_close_failure(w.input@, s0, 0, w.options.chunker, w.options.zstd_level, p0, e)) by {
                        reveal(spec_close_failure);
                    }
                }
            }
        }
        proof {
            assert forall|x: QztError| !#[trigger] self.spec_finish_close_failure(x) by {
                assert(!spec_close_failure(w.input@, w.start as int, 0, w.options.chunker, w.options.zstd_level,
                    w.physical_offset as int, x)) by {
                    reveal(spec_close_failure);
                }
            }
        }
        let container_id = default_container_id(w.input.as_slice());
        let lines = crate::chunker::LineInfo::from_bytes(w.input.as_slice());
        let plan = ChunkPlan { chunks: Vec::new(), line_count: lines.line_starts.len() as u64, newline_mode: lines.newline_mode };
        let ghost ends = w.ends@;
        let ghost cs = spec_frames_view(w.frames@);
        proof {
            assert(spec_chunks_written(w.input@, ends, w.options.zstd_level, 128, w.entries@, cs));
        }
        let b = match assemble_container(
            w.input.as_slice(),
            container_id,
            &plan,
            &w.frames,
            &w.entries,
            &OptionalBlocks { dense_line_index: None, document_index: None, profile: "core", writer_options: w.options },
            Ghost(ends),
        ) {
            Ok(b) => b,
            Err(e) => {
                proof {
                    reveal_strlit("core");
                    assert(spec_default_container_id(w.input@) == container_id@);
                    assert(plan.line_count == spec_lines_before(w.input@, w.input@.len() as int) as u64);
                    assert(spec_assembly_failure(w.input@, container_id, w.options, "core"@,
                        crate::chunker::spec_mode_name(crate::chunker::spec_newline_mode(w.input@)),
                        spec_lines_before(w.input@, w.input@.len() as int) as u64, None, None, w.entries@, cs, e));
                    assert(spec_stream_assembly_failure(self.spec_input(), self.spec_options(), w.entries@, cs, e));
                }
                return Err(e);
            },
        };
        proof {
            reveal_strlit("core");
            lemma_assembled_frames(b@, w.input@, container_id@, w.options, "core"@,
                crate::chunker::spec_mode_name(plan.newline_mode), plan.line_count, None, None, w.entries@, cs);
            lemma_frames_len(cs, cs.len() as int);
        }
        let mo = w.physical_offset as usize;
        let tail = slice_to_vec(b.as_slice(), mo, b.len());
        let head = slice_to_vec(b.as_slice(), 0, 128);
        let ghost sink1 = w.spec_sink();
        let ghost ws1 = spec_writes_view(writes@);
        writes.push((w.physical_offset, tail));
        writes.push((0, head));
        proof {
            let wv = spec_writes_view(writes@);
            assert(wv.drop_last().drop_last() =~= ws1);
            assert(wv.last() == (0u64, head@));
            assert(wv.drop_last().last() == (w.physical_offset, tail@));
            assert(spec_default_container_id(w.input@) == container_id@);
            assert(plan.line_count == spec_lines_before(w.input@, w.input@.len() as int) as u64);
            lemma_frames_len(cs, cs.len() as int);
            let fr = spec_frames(cs, cs.len() as int);
            assert(sink1 =~= Seq::new(128, |i: int| 0u8) + fr);
            let mid = spec_overlay(sink1, mo as int, tail@);
            assert(mid =~= sink1 + tail@);
            assert(mid.subrange(128, mid.len() as int) =~= fr + tail@);
            assert(b@ =~= head@ + b@.subrange(128, mo as int) + tail@);
            assert(spec_overlay(mid, 0, head@) =~= b@);
            let a1 = spec_apply_writes(sink0, ws1);
            assert(a1 == sink1);
            assert(spec_apply_writes(sink0, wv.drop_last()) == spec_overlay(a1, mo as int, tail@));
            assert(spec_apply_writes(sink0, wv) == spec_overlay(spec_apply_writes(sink0, wv.drop_last()), 0, head@));
            assert(spec_apply_writes(self.spec_sink(), wv) == b@);
            assert(spec_stream_finished(b@, w.input@, w.options, w.entries@, cs));
            assert(spec_stream_finished(b@, self.spec_input(), self.spec_options(), w.entries@, cs));
        }
        Ok(writes)
    }
}

// ---------------------------------------------------------------------------
// Builder
// ---------------------------------------------------------------------------

/// Builder for QZT container bytes.
pub struct WriterBuilder {
    options: WriterOptions,
    profile: String,
    dense_line_index: bool,
    container_id: Option<[u8; 16]>,
    document_index: Option<DocumentIndex>,
}

impl Default for WriterBuilder {
    /// Default options, the `core` profile, no optional indexes, and the
    /// container id derived from the input.
    fn default() -> (r: Self)
        ensures
            r.spec_profile() == "core"@,
            !r.spec_dense(),
            r.spec_container_id() is None,
            r.spec_document_index() is None,
            r.spec_options().chunker.target_chunk_size == 4194304,
            r.spec_options().chunker.max_chunk_size == 16777216,
            r.spec_options().zstd_level == 0,
    {
        WriterBuilder {
            options: WriterOptions::default(),
            profile: "core".to_owned(),
            dense_line_index: false,
            container_id: None,
            document_index: None,
        }
    }
}

impl WriterBuilder {
    pub closed spec fn spec_options(&self) -> WriterOptions {
        self.options
    }

    pub closed spec fn spec_profile(&self) -> Seq<char> {
        self.profile@
    }

    pub closed spec fn spec_dense(&self) -> bool {
        self.dense_line_index
    }

    pub closed spec fn spec_container_id(&self) -> Option<[u8; 16]> {
        self.container_id
    }

    pub closed spec fn spec_document_index(&self) -> Option<DocumentIndex> {
        self.document_index
    }

    /// Creates a builder with default writer options.
    pub fn new() -> (r: Self)
        ensures
            r.spec_profile() == "core"@,
            !r.spec_dense(),
            r.spec_container_id() is None,
            r.spec_document_index() is None,
            r.spec_options().chunker.target_chunk_size == 4194304,
            r.spec_options().chunker.max_chunk_size == 16777216,
            r.spec_options().zstd_level == 0,
    {
        Self::default()
    }

    /// Sets writer options.
    pub fn options(self, options: WriterOptions) -> (r: Self)
        ensures
            r.spec_options() == options,
            r.spec_profile() == self.spec_profile(),
            r.spec_dense() == self.spec_dense(),
            r.spec_container_id() == self.spec_container_id(),
            r.spec_document_index() == self.spec_document_index(),
    {
        let mut b = self;
        b.options = options;
        b
    }

    /// Sets a deterministic container id.
    pub fn container_id(self, container_id: [u8; 16]) -> (r: Self)
        ensures
            r.spec_container_id() == Some(container_id),
            r.spec_options() == self.spec_options(),
            r.spec_profile() == self.spec_profile(),
            r.spec_dense() == self.spec_dense(),
            r.spec_document_index() == self.spec_document_index(),
    {
        let mut b = self;
        b.container_id = Some(container_id);
        b
    }

    /// Sets the metadata profile.
    pub fn profile(self, profile: &str) -> (r: Self)
        ensures
            r.spec_profile() == profile@,
            r.spec_options() == self.spec_options(),
            r.spec_dense() == self.spec_dense(),
            r.spec_container_id() == self.spec_container_id(),
            r.spec_document_index() == self.spec_document_index(),
    {
        let mut b = self;
        b.profile = profile.to_owned();
        b
    }

    /// Enables or disables the optional Dense Line Index.
    pub fn dense_line_index(self, enabled: bool) -> (r: Self)
        ensures
            r.spec_dense() == enabled,
            r.spec_options() == self.spec_options(),
            r.spec_profile() == self.spec_profile(),
            r.spec_container_id() == self.spec_container_id(),
            r.spec_document_index() == self.spec_document_index(),
    {
        let mut b = self;
        b.dense_line_index = enabled;
        b
    }

    /// Adds an optional Document Index block.
    pub fn document_index(self, document_index: DocumentIndex) -> (r: Self)
        ensures
            r.spec_document_index() == Some(document_index),
            r.spec_options() == self.spec_options(),
            r.spec_profile() == self.spec_profile(),
            r.spec_dense() == self.spec_dense(),
            r.spec_container_id() == self.spec_container_id(),
    {
        let mut b = self;
        b.document_index = Some(document_index);
        b
    }

    /// Packs input bytes into a QZT container. The memory profile with a
    /// document index always carries a dense line index.
    pub fn pack(self, input: &[u8]) -> (r: Result<Vec<u8>>)
        ensures
            ({
                let id = match self.spec_container_id() {
                    Some(c) => c@,
                    None => spec_default_container_id(input@),
                };
                let memory = self.spec_profile() == "memory"@ && self.spec_document_index() is Some;
                spec_pack(input@, id, self.spec_options(), self.spec_profile(),
                    if memory || self.spec_dense() { DenseLineIndexMode::Generate } else { DenseLineIndexMode::Omit },
                    self.spec_document_index(), spec_bytes_result(r))
            }),
    {
        let container_id = match self.container_id {
            Some(c) => c,
            None => default_container_id(input),
        };
        let memory = crate::schema::text_is(&self.profile, "memory") && self.document_index.is_some();
        let dense_mode = if memory || self.dense_line_index {
            DenseLineIndexMode::Generate
        } else {
            DenseLineIndexMode::Omit
        };
        match &self.document_index {
            Some(d) => pack_bytes_internal(input, container_id, self.options, dense_mode, Some(d), self.profile.as_str()),
            None => pack_bytes_internal(input, container_id, self.options, dense_mode, None, self.profile.as_str()),
        }
    }
}

} // verus!
