//! The fixed 128-byte Chunk Table records and their structural validation.

use vstd::prelude::*;
use vstd::bytes::*;
use crate::bytes_util::{array_from_slice, extend_bytes, put_bytes};
use crate::error::{QztError, Result};
use crate::fixed::le64_at;
use crate::primitives::{push_u32_le, push_u64_le, read_u32_le, read_u64_le, usize_to_u64};

verus! {

broadcast use vstd::array::group_array_axioms;

pub const CHUNK_ENTRY_LEN: usize = 128;

pub const STARTS_WITH_LINE_CONTINUATION: u32 = 1;

/// Fixed 128-byte Chunk Table entry.
#[derive(Debug, Clone, PartialEq, Eq)]
pub struct ChunkEntry {
    pub chunk_id: u64,
    pub physical_offset: u64,
    pub compressed_size: u64,
    pub logical_offset: u64,
    pub uncompressed_size: u64,
    pub first_line: u64,
    pub line_count: u64,
    pub dictionary_id: u32,
    pub flags: u32,
    pub compressed_checksum_blake3: [u8; 32],
    pub uncompressed_checksum_blake3: [u8; 32],
}

/// Little-endian value of the four bytes at `at`.
pub open spec fn le32_at(bytes: Seq<u8>, at: int) -> u32 {
    spec_u32_from_le_bytes(bytes.subrange(at, at + 4))
}

/// The 128 bytes that encode a chunk entry.
pub open spec fn spec_entry_bytes(e: ChunkEntry) -> Seq<u8> {
    spec_u64_to_le_bytes(e.chunk_id) + spec_u64_to_le_bytes(e.physical_offset)
        + spec_u64_to_le_bytes(e.compressed_size) + spec_u64_to_le_bytes(e.logical_offset)
        + spec_u64_to_le_bytes(e.uncompressed_size) + spec_u64_to_le_bytes(e.first_line)
        + spec_u64_to_le_bytes(e.line_count) + spec_u32_to_le_bytes(e.dictionary_id)
        + spec_u32_to_le_bytes(e.flags) + e.compressed_checksum_blake3@
        + e.uncompressed_checksum_blake3@
}

/// The entry fields that a 128-byte record carries.
pub open spec fn entry_fields_of(e: ChunkEntry, b: Seq<u8>) -> bool {
    &&& e.chunk_id == le64_at(b, 0)
    &&& e.physical_offset == le64_at(b, 8)
    &&& e.compressed_size == le64_at(b, 16)
    &&& e.logical_offset == le64_at(b, 24)
    &&& e.uncompressed_size == le64_at(b, 32)
    &&& e.first_line == le64_at(b, 40)
    &&& e.line_count == le64_at(b, 48)
    &&& e.dictionary_id == le32_at(b, 56)
    &&& e.flags == le32_at(b, 60)
    &&& e.compressed_checksum_blake3@ == b.subrange(64, 96)
    &&& e.uncompressed_checksum_blake3@ == b.subrange(96, 128)
}

impl ChunkEntry {
    /// Encodes the entry as its fixed 128-byte record.
    pub fn encode(&self) -> (r: [u8; 128])
        ensures
            r@ == spec_entry_bytes(*self),
    {
        let mut out: Vec<u8> = Vec::new();
        push_u64_le(&mut out, self.chunk_id);
        push_u64_le(&mut out, self.physical_offset);
        push_u64_le(&mut out, self.compressed_size);
        push_u64_le(&mut out, self.logical_offset);
        push_u64_le(&mut out, self.uncompressed_size);
        push_u64_le(&mut out, self.first_line);
        push_u64_le(&mut out, self.line_count);
        push_u32_le(&mut out, self.dictionary_id);
        push_u32_le(&mut out, self.flags);
        extend_bytes(&mut out, self.compressed_checksum_blake3.as_slice());
        extend_bytes(&mut out, self.uncompressed_checksum_blake3.as_slice());
        proof {
            lemma_auto_spec_u64_to_from_le_bytes();
            lemma_auto_spec_u32_to_from_le_bytes();
        }
        let mut bytes = [0u8; 128];
        put_bytes(&mut bytes, 0, out.as_slice());
        assert(bytes@ =~= spec_entry_bytes(*self));
        bytes
    }

    /// Decodes one fixed 128-byte record; any other length is `ChunkTableInvalid`.
    pub fn decode(bytes: &[u8]) -> (r: Result<Self>)
        ensures
            bytes@.len() == 128 <==> r is Ok,
            r matches Ok(e) ==> entry_fields_of(e, bytes@),
            r matches Err(e) ==> e == QztError::ChunkTableInvalid,
    {
        if bytes.len() != CHUNK_ENTRY_LEN {
            return Err(QztError::ChunkTableInvalid);
        }
        Ok(ChunkEntry {
            chunk_id: read_u64_le(&bytes[0..8])?,
            physical_offset: read_u64_le(&bytes[8..16])?,
            compressed_size: read_u64_le(&bytes[16..24])?,
            logical_offset: read_u64_le(&bytes[24..32])?,
            uncompressed_size: read_u64_le(&bytes[32..40])?,
            first_line: read_u64_le(&bytes[40..48])?,
            line_count: read_u64_le(&bytes[48..56])?,
            dictionary_id: read_u32_le(&bytes[56..60])?,
            flags: read_u32_le(&bytes[60..64])?,
            compressed_checksum_blake3: array_from_slice(&bytes[64..96]),
            uncompressed_checksum_blake3: array_from_slice(&bytes[96..128]),
        })
    }
}

/// Decoding the record of an entry gives the entry's fields back.
pub proof fn lemma_entry_roundtrip(e: ChunkEntry)
    ensures
        spec_entry_bytes(e).len() == 128,
        entry_fields_of(e, spec_entry_bytes(e)),
{
    lemma_auto_spec_u64_to_from_le_bytes();
    lemma_auto_spec_u32_to_from_le_bytes();
    let b = spec_entry_bytes(e);
    assert(b.subrange(0, 8) =~= spec_u64_to_le_bytes(e.chunk_id));
    assert(b.subrange(8, 16) =~= spec_u64_to_le_bytes(e.physical_offset));
    assert(b.subrange(16, 24) =~= spec_u64_to_le_bytes(e.compressed_size));
    assert(b.subrange(24, 32) =~= spec_u64_to_le_bytes(e.logical_offset));
    assert(b.subrange(32, 40) =~= spec_u64_to_le_bytes(e.uncompressed_size));
    assert(b.subrange(40, 48) =~= spec_u64_to_le_bytes(e.first_line));
    assert(b.subrange(48, 56) =~= spec_u64_to_le_bytes(e.line_count));
    assert(b.subrange(56, 60) =~= spec_u32_to_le_bytes(e.dictionary_id));
    assert(b.subrange(60, 64) =~= spec_u32_to_le_bytes(e.flags));
    assert(b.subrange(64, 96) =~= e.compressed_checksum_blake3@);
    assert(b.subrange(96, 128) =~= e.uncompressed_checksum_blake3@);
}

/// Sum of the uncompressed sizes of the first `n` entries.
pub open spec fn spec_sum_sizes(es: Seq<ChunkEntry>, n: int) -> int
    decreases n,
{
    if n <= 0 {
        0
    } else {
        spec_sum_sizes(es, n - 1) + es[n - 1].uncompressed_size
    }
}

/// Sum of the line counts of the first `n` entries.
pub open spec fn spec_sum_lines(es: Seq<ChunkEntry>, n: int) -> int
    decreases n,
{
    if n <= 0 {
        0
    } else {
        spec_sum_lines(es, n - 1) + es[n - 1].line_count
    }
}

/// The error entry `k` raises given that every earlier entry passed.
pub open spec fn spec_entry_error(es: Seq<ChunkEntry>, k: int) -> Option<QztError> {
    let e = es[k];
    if e.chunk_id != k {
        Some(QztError::ChunkTableInvalid)
    } else if e.logical_offset != spec_sum_sizes(es, k) {
        Some(QztError::ChunkTableInvalid)
    } else if e.first_line != spec_sum_lines(es, k) {
        Some(QztError::ChunkTableInvalid)
    } else if e.compressed_size == 0 || e.uncompressed_size == 0 {
        Some(QztError::ChunkSizeMismatch)
    } else if e.flags & !STARTS_WITH_LINE_CONTINUATION != 0 {
        Some(QztError::InvalidFlags)
    } else if spec_sum_sizes(es, k + 1) > u64::MAX || spec_sum_lines(es, k + 1) > u64::MAX {
        Some(QztError::LogicalRangeOutOfBounds)
    } else {
        None
    }
}

/// The first error among the first `n` entries, in order.
pub open spec fn spec_entries_error(es: Seq<ChunkEntry>, n: int) -> Option<QztError>
    decreases n,
{
    if n <= 0 {
        None
    } else if spec_entries_error(es, n - 1) is Some {
        spec_entries_error(es, n - 1)
    } else {
        spec_entry_error(es, n - 1)
    }
}

/// Whether `es` are the records decoded from `bytes`, in order.
pub open spec fn entries_decoded_from(es: Seq<ChunkEntry>, bytes: Seq<u8>) -> bool {
    &&& es.len() * 128 == bytes.len()
    &&& forall|k: int| 0 <= k < es.len() ==> entry_fields_of(
        #[trigger] es[k],
        bytes.subrange(k * 128, k * 128 + 128),
    )
}

/// The outcome of validating a chunk table block, as an error or `None`.
pub open spec fn spec_chunk_table_error(
    bytes: Seq<u8>,
    chunk_count: u64,
    original_size: u64,
    line_count: u64,
    es: Seq<ChunkEntry>,
) -> Option<QztError> {
    if bytes.len() % 128 != 0 {
        Some(QztError::ChunkTableInvalid)
    } else if bytes.len() / 128 != chunk_count {
        Some(QztError::ChunkCountMismatch)
    } else if original_size == 0 {
        if chunk_count != 0 || line_count != 0 {
            Some(QztError::ChunkCountMismatch)
        } else {
            None
        }
    } else if chunk_count == 0 {
        Some(QztError::ChunkCountMismatch)
    } else if spec_entries_error(es, es.len() as int) is Some {
        spec_entries_error(es, es.len() as int)
    } else if spec_sum_sizes(es, es.len() as int) != original_size || spec_sum_lines(
        es,
        es.len() as int,
    ) != line_count {
        Some(QztError::ChunkSizeMismatch)
    } else {
        None
    }
}

/// Whether a decoded, validated chunk table is internally consistent.
pub open spec fn spec_table_consistent(es: Seq<ChunkEntry>, original_size: u64, line_count: u64) -> bool {
    &&& spec_entries_error(es, es.len() as int) is None
    &&& spec_sum_sizes(es, es.len() as int) == original_size
    &&& spec_sum_lines(es, es.len() as int) == line_count
}

proof fn lemma_entries_error_first(es: Seq<ChunkEntry>, k: int, n: int)
    requires
        0 <= k < n,
        spec_entries_error(es, k) is None,
    ensures
        spec_entry_error(es, k) is Some ==> spec_entries_error(es, n) == spec_entry_error(es, k),
    decreases n,
{
    if n > k + 1 {
        lemma_entries_error_first(es, k, n - 1);
    }
}

proof fn lemma_entries_error_prefix_none(es: Seq<ChunkEntry>, n: int, k: int)
    requires
        0 <= k < n,
        spec_entries_error(es, n) is None,
    ensures
        spec_entry_error(es, k) is None,
        spec_entries_error(es, k) is None,
    decreases n,
{
    if k < n - 1 {
        lemma_entries_error_prefix_none(es, n - 1, k);
    }
}

/// A valid table has each entry start where the previous one ends, in bytes and lines.
pub proof fn lemma_consistent_entry_bounds(es: Seq<ChunkEntry>, original_size: u64, line_count: u64, k: int)
    requires
        spec_table_consistent(es, original_size, line_count),
        0 <= k < es.len(),
    ensures
        es[k].chunk_id == k,
        es[k].logical_offset == spec_sum_sizes(es, k),
        es[k].first_line == spec_sum_lines(es, k),
        es[k].uncompressed_size > 0,
        es[k].compressed_size > 0,
        spec_sum_sizes(es, k + 1) <= u64::MAX,
        spec_sum_lines(es, k + 1) <= u64::MAX,
{
    lemma_entries_error_prefix_none(es, es.len() as int, k);
}

/// Validates a fixed Chunk Table block without decompressing chunks.
pub fn validate_chunk_table_block(
    bytes: &[u8],
    chunk_count: u64,
    original_size: u64,
    line_count: u64,
) -> (r: Result<Vec<ChunkEntry>>)
    ensures
        match r {
            Ok(es) => entries_decoded_from(es@, bytes@) && spec_chunk_table_error(
                bytes@,
                chunk_count,
                original_size,
                line_count,
                es@,
            ) is None && spec_table_consistent(es@, original_size, line_count),
            Err(e) => (bytes@.len() % 128 != 0 && e == QztError::ChunkTableInvalid) || exists|
                es: Seq<ChunkEntry>,
            |
                entries_decoded_from(es, bytes@) && spec_chunk_table_error(
                    bytes@,
                    chunk_count,
                    original_size,
                    line_count,
                    es,
                ) == Some(e),
        },
{
    if bytes.len() % CHUNK_ENTRY_LEN != 0 {
        return Err(QztError::ChunkTableInvalid);
    }
    let count = bytes.len() / CHUNK_ENTRY_LEN;
    let mut entries: Vec<ChunkEntry> = Vec::with_capacity(count);
    let mut i: usize = 0;
    while i < count
        invariant
            count == bytes@.len() / 128,
            bytes@.len() % 128 == 0,
            bytes@.len() == bytes.len(),
            i <= count,
            entries@.len() == i,
            forall|k: int| 0 <= k < i ==> entry_fields_of(
                #[trigger] entries@[k],
                bytes@.subrange(k * 128, k * 128 + 128),
            ),
        decreases count - i,
    {
        assert(i * 128 + 128 <= bytes@.len()) by (nonlinear_arith)
            requires
                i < count,
                count == bytes@.len() / 128,
                bytes@.len() % 128 == 0,
        ;
        assert(i * 128 + 128 <= usize::MAX);
        let start = i * CHUNK_ENTRY_LEN;
        let e = ChunkEntry::decode(&bytes[start..start + CHUNK_ENTRY_LEN])?;
        entries.push(e);
        i = i + 1;
    }
    assert(entries_decoded_from(entries@, bytes@));
    let actual_count = usize_to_u64(count)?;
    if actual_count != chunk_count {
        return Err(QztError::ChunkCountMismatch);
    }
    if original_size == 0 {
        if chunk_count != 0 || line_count != 0 {
            return Err(QztError::ChunkCountMismatch);
        }
        return Ok(Vec::new());
    }
    if chunk_count == 0 {
        return Err(QztError::ChunkCountMismatch);
    }
    let mut expected_logical_offset: u64 = 0;
    let mut expected_first_line: u64 = 0;
    let mut k: usize = 0;
    while k < entries.len()
        invariant
            k <= entries@.len(),
            entries_decoded_from(entries@, bytes@),
            bytes@.len() / 128 == chunk_count,
            bytes@.len() % 128 == 0,
            original_size != 0,
            chunk_count != 0,
            spec_entries_error(entries@, k as int) is None,
            expected_logical_offset == spec_sum_sizes(entries@, k as int),
            expected_first_line == spec_sum_lines(entries@, k as int),
        decreases entries@.len() - k,
    {
        let entry = &entries[k];
        proof { lemma_entries_error_first(entries@, k as int, entries@.len() as int); }
        if entry.chunk_id != k as u64 || entry.logical_offset != expected_logical_offset
            || entry.first_line != expected_first_line {
            return Err(QztError::ChunkTableInvalid);
        }
        if entry.compressed_size == 0 || entry.uncompressed_size == 0 {
            return Err(QztError::ChunkSizeMismatch);
        }
        if entry.flags & !STARTS_WITH_LINE_CONTINUATION != 0 {
            return Err(QztError::InvalidFlags);
        }
        expected_logical_offset = match expected_logical_offset.checked_add(entry.uncompressed_size) {
            Some(v) => v,
            None => { return Err(QztError::LogicalRangeOutOfBounds); },
        };
        expected_first_line = match expected_first_line.checked_add(entry.line_count) {
            Some(v) => v,
            None => { return Err(QztError::LogicalRangeOutOfBounds); },
        };
        k = k + 1;
    }
    assert(entries@.len() == chunk_count);
    if expected_logical_offset != original_size || expected_first_line != line_count {
        return Err(QztError::ChunkSizeMismatch);
    }
    Ok(entries)
}

/// Sizes and line counts only grow along the table.
pub proof fn lemma_sums_monotone(es: Seq<ChunkEntry>, i: int, j: int)
    requires
        0 <= i <= j <= es.len(),
    ensures
        spec_sum_sizes(es, i) <= spec_sum_sizes(es, j),
        spec_sum_lines(es, i) <= spec_sum_lines(es, j),
    decreases j - i,
{
    if i < j {
        lemma_sums_monotone(es, i, j - 1);
    }
}

/// In a valid table, every entry lies inside the original and starts where
/// the sizes of the entries before it add up to; later entries start later.
pub proof fn lemma_consistent_order(es: Seq<ChunkEntry>, original_size: u64, line_count: u64, i: int, j: int)
    requires
        spec_table_consistent(es, original_size, line_count),
        0 <= i < j < es.len(),
    ensures
        es[i].logical_offset + es[i].uncompressed_size <= es[j].logical_offset,
        es[i].first_line + es[i].line_count <= es[j].first_line,
        es[j].logical_offset + es[j].uncompressed_size <= original_size,
        es[j].first_line + es[j].line_count <= line_count,
{
    lemma_consistent_entry_bounds(es, original_size, line_count, i);
    lemma_consistent_entry_bounds(es, original_size, line_count, j);
    lemma_sums_monotone(es, i + 1, j);
    lemma_sums_monotone(es, j + 1, es.len() as int);
}

/// In a valid table every entry lies inside the original.
pub proof fn lemma_consistent_inside(es: Seq<ChunkEntry>, original_size: u64, line_count: u64, k: int)
    requires
        spec_table_consistent(es, original_size, line_count),
        0 <= k < es.len(),
    ensures
        es[k].logical_offset + es[k].uncompressed_size <= original_size,
        es[k].first_line + es[k].line_count <= line_count,
        es[k].logical_offset == spec_sum_sizes(es, k),
        es[k].first_line == spec_sum_lines(es, k),
        es[k].uncompressed_size > 0,
        es[k].chunk_id == k,
{
    lemma_consistent_entry_bounds(es, original_size, line_count, k);
    lemma_sums_monotone(es, k + 1, es.len() as int);
}

/// The 32-byte array whose bytes are `q`.
pub open spec fn spec_digest_array(q: Seq<u8>) -> [u8; 32] {
    choose|a: [u8; 32]| a@ == q
}

/// The entry a 128-byte record encodes.
pub open spec fn spec_entry_of(b: Seq<u8>) -> ChunkEntry {
    ChunkEntry {
        chunk_id: le64_at(b, 0),
        physical_offset: le64_at(b, 8),
        compressed_size: le64_at(b, 16),
        logical_offset: le64_at(b, 24),
        uncompressed_size: le64_at(b, 32),
        first_line: le64_at(b, 40),
        line_count: le64_at(b, 48),
        dictionary_id: le32_at(b, 56),
        flags: le32_at(b, 60),
        compressed_checksum_blake3: spec_digest_array(b.subrange(64, 96)),
        uncompressed_checksum_blake3: spec_digest_array(b.subrange(96, 128)),
    }
}

/// The entries a chunk table block of whole records encodes.
pub open spec fn spec_entries_of(bytes: Seq<u8>) -> Seq<ChunkEntry> {
    Seq::new(bytes.len() / 128, |k: int| spec_entry_of(bytes.subrange(k * 128, k * 128 + 128)))
}

pub proof fn lemma_digest_array_unique(a: [u8; 32], q: Seq<u8>)
    requires
        a@ == q,
    ensures
        spec_digest_array(q) == a,
{
    let c = spec_digest_array(q);
    assert(c@ == q);
    assert(c =~= a);
}

/// A record decodes to exactly one entry.
pub proof fn lemma_entry_of_unique(e: ChunkEntry, b: Seq<u8>)
    requires
        entry_fields_of(e, b),
    ensures
        e == spec_entry_of(b),
{
    lemma_digest_array_unique(e.compressed_checksum_blake3, b.subrange(64, 96));
    lemma_digest_array_unique(e.uncompressed_checksum_blake3, b.subrange(96, 128));
}

/// A block of records decodes to exactly one sequence of entries.
pub proof fn lemma_entries_of_unique(es: Seq<ChunkEntry>, bytes: Seq<u8>)
    requires
        entries_decoded_from(es, bytes),
    ensures
        es == spec_entries_of(bytes),
{
    assert(bytes.len() / 128 == es.len()) by (nonlinear_arith)
        requires es.len() * 128 == bytes.len();
    assert forall|k: int| 0 <= k < es.len() implies es[k] == spec_entries_of(bytes)[k] by {
        lemma_entry_of_unique(es[k], bytes.subrange(k * 128, k * 128 + 128));
    }
    assert(es =~= spec_entries_of(bytes));
}

} // verus!

