//! Fixed 128-byte header, fixed 64-byte footer trailer and physical ranges.

use vstd::prelude::*;
use vstd::bytes::*;
use crate::bytes_util::{all_zero, array_from_slice, bytes_equal, put_bytes};
use crate::error::{QztError, Result};
use crate::format::{FOOTER_TRAILER_LEN, HEADER_LEN, MAGIC, MAJOR_VERSION, MINOR_VERSION, TRAILER_MAGIC};
use crate::primitives::{checked_physical_end, read_u16_le, read_u32_le, read_u64_le};

verus! {

broadcast use vstd::array::group_array_axioms;

/// Fixed QZT header.
#[derive(Debug, Clone, PartialEq, Eq)]
pub struct Header {
    pub metadata_offset: u64,
    pub metadata_size: u64,
    pub index_hint_offset: u64,
    pub container_id: [u8; 16],
}

/// Fixed QZT footer trailer.
#[derive(Debug, Clone, PartialEq, Eq)]
pub struct FooterTrailer {
    pub footer_payload_offset: u64,
    pub footer_payload_size: u64,
    pub footer_payload_checksum_blake3: [u8; 32],
}

/// Little-endian value of the eight bytes at `at`.
pub open spec fn le64_at(bytes: Seq<u8>, at: int) -> u64 {
    spec_u64_from_le_bytes(bytes.subrange(at, at + 8))
}

/// The sixteen bytes that start every fixed structure: magic, version, length.
pub open spec fn spec_prologue(magic: Seq<u8>, len: u32) -> Seq<u8> {
    magic + spec_u16_to_le_bytes(0) + spec_u16_to_le_bytes(1) + spec_u32_to_le_bytes(len)
}

/// Outcome of checking the sixteen-byte prologue of a fixed structure.
pub open spec fn spec_prologue_error(
    bytes: Seq<u8>,
    magic: Seq<u8>,
    expected_len: u32,
    length_error: QztError,
    magic_error: QztError,
) -> Option<QztError> {
    if bytes.subrange(0, 8) != magic {
        Some(magic_error)
    } else if spec_u16_from_le_bytes(bytes.subrange(8, 10)) != 0 || spec_u16_from_le_bytes(
        bytes.subrange(10, 12),
    ) != 1 {
        Some(QztError::UnsupportedVersion)
    } else if spec_u32_from_le_bytes(bytes.subrange(12, 16)) != expected_len {
        Some(length_error)
    } else {
        None
    }
}

/// The 128 bytes that encode a header.
pub open spec fn spec_header_bytes(h: Header) -> Seq<u8> {
    spec_prologue(MAGIC@, 128) + spec_u64_to_le_bytes(0) + spec_u64_to_le_bytes(h.metadata_offset)
        + spec_u64_to_le_bytes(h.metadata_size) + spec_u64_to_le_bytes(h.index_hint_offset)
        + h.container_id@ + Seq::new(64, |i: int| 0u8)
}

/// The error a header decode reports for `bytes`, or `None` when they are a valid header.
pub open spec fn spec_header_error(bytes: Seq<u8>) -> Option<QztError> {
    if bytes.len() != 128 {
        Some(QztError::InvalidHeader)
    } else if spec_prologue_error(
        bytes,
        MAGIC@,
        128,
        QztError::InvalidHeader,
        QztError::InvalidMagic,
    ) is Some {
        spec_prologue_error(bytes, MAGIC@, 128, QztError::InvalidHeader, QztError::InvalidMagic)
    } else if le64_at(bytes, 16) != 0 {
        Some(QztError::InvalidFlags)
    } else if exists|k: int| 64 <= k < 128 && bytes[k] != 0 {
        Some(QztError::InvalidHeader)
    } else {
        None
    }
}

/// The header fields that `bytes` carry.
pub open spec fn header_fields_of(h: Header, bytes: Seq<u8>) -> bool {
    &&& h.metadata_offset == le64_at(bytes, 24)
    &&& h.metadata_size == le64_at(bytes, 32)
    &&& h.index_hint_offset == le64_at(bytes, 40)
    &&& h.container_id@ == bytes.subrange(48, 64)
}

/// The 64 bytes that encode a footer trailer.
pub open spec fn spec_trailer_bytes(t: FooterTrailer) -> Seq<u8> {
    spec_prologue(TRAILER_MAGIC@, 64) + spec_u64_to_le_bytes(t.footer_payload_offset)
        + spec_u64_to_le_bytes(t.footer_payload_size) + t.footer_payload_checksum_blake3@
}

/// The error a trailer decode reports for `bytes`, or `None` when they are a valid trailer.
pub open spec fn spec_trailer_error(bytes: Seq<u8>) -> Option<QztError> {
    if bytes.len() != 64 {
        Some(QztError::InvalidFooterTrailer)
    } else {
        spec_prologue_error(
            bytes,
            TRAILER_MAGIC@,
            64,
            QztError::InvalidFooterTrailer,
            QztError::InvalidFooterTrailer,
        )
    }
}

/// The trailer fields that `bytes` carry.
pub open spec fn trailer_fields_of(t: FooterTrailer, bytes: Seq<u8>) -> bool {
    &&& t.footer_payload_offset == le64_at(bytes, 16)
    &&& t.footer_payload_size == le64_at(bytes, 24)
    &&& t.footer_payload_checksum_blake3@ == bytes.subrange(32, 64)
}

fn decode_fixed_prologue(
    bytes: &[u8],
    expected_magic: [u8; 8],
    expected_length: u32,
    length_error: QztError,
    magic_error: QztError,
) -> (r: Result<()>)
    requires
        bytes@.len() >= 16,
    ensures
        r is Ok <==> spec_prologue_error(
            bytes@,
            expected_magic@,
            expected_length,
            length_error,
            magic_error,
        ) is None,
        r matches Err(e) ==> spec_prologue_error(
            bytes@,
            expected_magic@,
            expected_length,
            length_error,
            magic_error,
        ) == Some(e),
{
    if !bytes_equal(&bytes[0..8], expected_magic.as_slice()) {
        return Err(magic_error);
    }
    let major = read_u16_le(&bytes[8..10])?;
    let minor = read_u16_le(&bytes[10..12])?;
    if major != MAJOR_VERSION || minor != MINOR_VERSION {
        return Err(QztError::UnsupportedVersion);
    }
    let header_length = read_u32_le(&bytes[12..16])?;
    if header_length != expected_length {
        return Err(length_error);
    }
    Ok(())
}

proof fn lemma_prologue_roundtrip(magic: Seq<u8>, len: u32, rest: Seq<u8>)
    requires
        magic.len() == 8,
    ensures
        ({
            let b = spec_prologue(magic, len) + rest;
            &&& b.len() == 16 + rest.len()
            &&& b.subrange(0, 8) == magic
            &&& spec_u16_from_le_bytes(b.subrange(8, 10)) == 0
            &&& spec_u16_from_le_bytes(b.subrange(10, 12)) == 1
            &&& spec_u32_from_le_bytes(b.subrange(12, 16)) == len
            &&& b.subrange(16, b.len() as int) == rest
        }),
{
    lemma_auto_spec_u16_to_from_le_bytes();
    lemma_auto_spec_u32_to_from_le_bytes();
    let b = spec_prologue(magic, len) + rest;
    assert(b.subrange(0, 8) =~= magic);
    assert(b.subrange(8, 10) =~= spec_u16_to_le_bytes(0));
    assert(b.subrange(10, 12) =~= spec_u16_to_le_bytes(1));
    assert(b.subrange(12, 16) =~= spec_u32_to_le_bytes(len));
    assert(b.subrange(16, b.len() as int) =~= rest);
}

impl Header {
    /// Decodes and validates a fixed 128-byte Header.
    pub fn decode(bytes: &[u8]) -> (r: Result<Self>)
        ensures
            r is Ok <==> spec_header_error(bytes@) is None,
            r matches Ok(h) ==> header_fields_of(h, bytes@),
            r matches Err(e) ==> spec_header_error(bytes@) == Some(e),
    {
        if bytes.len() != HEADER_LEN {
            return Err(QztError::InvalidHeader);
        }
        decode_fixed_prologue(bytes, MAGIC, 128, QztError::InvalidHeader, QztError::InvalidMagic)?;
        let header_flags = read_u64_le(&bytes[16..24])?;
        if header_flags != 0 {
            return Err(QztError::InvalidFlags);
        }
        if !all_zero(bytes, 64, 128) {
            return Err(QztError::InvalidHeader);
        }
        Ok(Header {
            metadata_offset: read_u64_le(&bytes[24..32])?,
            metadata_size: read_u64_le(&bytes[32..40])?,
            index_hint_offset: read_u64_le(&bytes[40..48])?,
            container_id: array_from_slice(&bytes[48..64]),
        })
    }

    /// Encodes a fixed 128-byte Header.
    pub fn encode(&self) -> (r: [u8; 128])
        ensures
            r@ == spec_header_bytes(*self),
    {
        let mut bytes = [0u8; 128];
        let mut prologue: Vec<u8> = Vec::new();
        crate::bytes_util::extend_bytes(&mut prologue, MAGIC.as_slice());
        crate::primitives::push_u16_le(&mut prologue, MAJOR_VERSION);
        crate::primitives::push_u16_le(&mut prologue, MINOR_VERSION);
        crate::primitives::push_u32_le(&mut prologue, 128);
        crate::primitives::push_u64_le(&mut prologue, 0);
        crate::primitives::push_u64_le(&mut prologue, self.metadata_offset);
        crate::primitives::push_u64_le(&mut prologue, self.metadata_size);
        crate::primitives::push_u64_le(&mut prologue, self.index_hint_offset);
        crate::bytes_util::extend_bytes(&mut prologue, self.container_id.as_slice());
        proof {
            lemma_auto_spec_u64_to_from_le_bytes();
            lemma_auto_spec_u16_to_from_le_bytes();
            lemma_auto_spec_u32_to_from_le_bytes();
        }
        put_bytes(&mut bytes, 0, prologue.as_slice());
        assert(bytes@ =~= spec_header_bytes(*self));
        bytes
    }
}

impl FooterTrailer {
    /// Decodes and validates a fixed 64-byte Footer Trailer.
    pub fn decode(bytes: &[u8]) -> (r: Result<Self>)
        ensures
            r is Ok <==> spec_trailer_error(bytes@) is None,
            r matches Ok(t) ==> trailer_fields_of(t, bytes@),
            r matches Err(e) ==> spec_trailer_error(bytes@) == Some(e),
    {
        if bytes.len() != FOOTER_TRAILER_LEN {
            return Err(QztError::InvalidFooterTrailer);
        }
        decode_fixed_prologue(
            bytes,
            TRAILER_MAGIC,
            64,
            QztError::InvalidFooterTrailer,
            QztError::InvalidFooterTrailer,
        )?;
        Ok(FooterTrailer {
            footer_payload_offset: read_u64_le(&bytes[16..24])?,
            footer_payload_size: read_u64_le(&bytes[24..32])?,
            footer_payload_checksum_blake3: array_from_slice(&bytes[32..64]),
        })
    }

    /// Encodes a fixed 64-byte Footer Trailer.
    pub fn encode(&self) -> (r: [u8; 64])
        ensures
            r@ == spec_trailer_bytes(*self),
    {
        let mut bytes = [0u8; 64];
        let mut out: Vec<u8> = Vec::new();
        crate::bytes_util::extend_bytes(&mut out, TRAILER_MAGIC.as_slice());
        crate::primitives::push_u16_le(&mut out, MAJOR_VERSION);
        crate::primitives::push_u16_le(&mut out, MINOR_VERSION);
        crate::primitives::push_u32_le(&mut out, 64);
        crate::primitives::push_u64_le(&mut out, self.footer_payload_offset);
        crate::primitives::push_u64_le(&mut out, self.footer_payload_size);
        crate::bytes_util::extend_bytes(&mut out, self.footer_payload_checksum_blake3.as_slice());
        proof {
            lemma_auto_spec_u64_to_from_le_bytes();
            lemma_auto_spec_u16_to_from_le_bytes();
            lemma_auto_spec_u32_to_from_le_bytes();
        }
        put_bytes(&mut bytes, 0, out.as_slice());
        assert(bytes@ =~= spec_trailer_bytes(*self));
        bytes
    }
}

/// Decoding the encoding of a header gives the header back.
pub proof fn lemma_header_roundtrip(h: Header)
    ensures
        spec_header_error(spec_header_bytes(h)) is None,
        header_fields_of(h, spec_header_bytes(h)),
{
    lemma_auto_spec_u64_to_from_le_bytes();
    let rest = spec_u64_to_le_bytes(0) + spec_u64_to_le_bytes(h.metadata_offset)
        + spec_u64_to_le_bytes(h.metadata_size) + spec_u64_to_le_bytes(h.index_hint_offset)
        + h.container_id@ + Seq::new(64, |i: int| 0u8);
    lemma_prologue_roundtrip(MAGIC@, 128, rest);
    let b = spec_header_bytes(h);
    assert(b =~= spec_prologue(MAGIC@, 128) + rest);
    assert(b.subrange(16, 24) =~= spec_u64_to_le_bytes(0));
    assert(b.subrange(24, 32) =~= spec_u64_to_le_bytes(h.metadata_offset));
    assert(b.subrange(32, 40) =~= spec_u64_to_le_bytes(h.metadata_size));
    assert(b.subrange(40, 48) =~= spec_u64_to_le_bytes(h.index_hint_offset));
    assert(b.subrange(48, 64) =~= h.container_id@);
    assert forall|k: int| 64 <= k < 128 implies b[k] == 0 by {
        assert(b[k] == Seq::new(64, |i: int| 0u8)[k - 64]);
    }
}

/// A valid header is exactly the encoding of the fields decoded from it.
pub proof fn lemma_header_decode_encode(h: Header, bytes: Seq<u8>)
    requires
        spec_header_error(bytes) is None,
        header_fields_of(h, bytes),
    ensures
        spec_header_bytes(h) == bytes,
{
    lemma_auto_spec_u64_to_from_le_bytes();
    lemma_auto_spec_u16_to_from_le_bytes();
    lemma_auto_spec_u32_to_from_le_bytes();
    let e = spec_header_bytes(h);
    lemma_header_roundtrip(h);
    assert(bytes.subrange(0, 8) == MAGIC@);
    assert(e.subrange(0, 8) == MAGIC@);
    assert(e.subrange(8, 10) =~= spec_u16_to_le_bytes(0));
    assert(e.subrange(10, 12) =~= spec_u16_to_le_bytes(1));
    assert(e.subrange(12, 16) =~= spec_u32_to_le_bytes(128));
    assert(bytes.subrange(8, 10) == spec_u16_to_le_bytes(spec_u16_from_le_bytes(bytes.subrange(8, 10))));
    assert(bytes.subrange(10, 12) == spec_u16_to_le_bytes(spec_u16_from_le_bytes(bytes.subrange(10, 12))));
    assert(bytes.subrange(12, 16) == spec_u32_to_le_bytes(spec_u32_from_le_bytes(bytes.subrange(12, 16))));
    assert(e.subrange(16, 24) =~= spec_u64_to_le_bytes(0));
    assert(e.subrange(24, 32) =~= spec_u64_to_le_bytes(h.metadata_offset));
    assert(e.subrange(32, 40) =~= spec_u64_to_le_bytes(h.metadata_size));
    assert(e.subrange(40, 48) =~= spec_u64_to_le_bytes(h.index_hint_offset));
    assert(bytes.subrange(16, 24) == spec_u64_to_le_bytes(le64_at(bytes, 16)));
    assert(bytes.subrange(24, 32) == spec_u64_to_le_bytes(le64_at(bytes, 24)));
    assert(bytes.subrange(32, 40) == spec_u64_to_le_bytes(le64_at(bytes, 32)));
    assert(bytes.subrange(40, 48) == spec_u64_to_le_bytes(le64_at(bytes, 40)));
    assert forall|k: int| 0 <= k < 128 implies e[k] == bytes[k] by {
        if k < 8 {
            assert(e.subrange(0, 8)[k] == bytes.subrange(0, 8)[k]);
        } else if k < 10 {
            assert(e.subrange(8, 10)[k - 8] == bytes.subrange(8, 10)[k - 8]);
        } else if k < 12 {
            assert(e.subrange(10, 12)[k - 10] == bytes.subrange(10, 12)[k - 10]);
        } else if k < 16 {
            assert(e.subrange(12, 16)[k - 12] == bytes.subrange(12, 16)[k - 12]);
        } else if k < 24 {
            assert(e.subrange(16, 24)[k - 16] == bytes.subrange(16, 24)[k - 16]);
        } else if k < 32 {
            assert(e.subrange(24, 32)[k - 24] == bytes.subrange(24, 32)[k - 24]);
        } else if k < 40 {
            assert(e.subrange(32, 40)[k - 32] == bytes.subrange(32, 40)[k - 32]);
        } else if k < 48 {
            assert(e.subrange(40, 48)[k - 40] == bytes.subrange(40, 48)[k - 40]);
        } else if k < 64 {
            assert(e.subrange(48, 64)[k - 48] == bytes.subrange(48, 64)[k - 48]);
        } else {
            assert(bytes[k] == 0);
        }
    }
    assert(e =~= bytes);
}

/// Decoding the encoding of a footer trailer gives the trailer back.
pub proof fn lemma_trailer_roundtrip(t: FooterTrailer)
    ensures
        spec_trailer_error(spec_trailer_bytes(t)) is None,
        trailer_fields_of(t, spec_trailer_bytes(t)),
{
    lemma_auto_spec_u64_to_from_le_bytes();
    let rest = spec_u64_to_le_bytes(t.footer_payload_offset) + spec_u64_to_le_bytes(
        t.footer_payload_size,
    ) + t.footer_payload_checksum_blake3@;
    lemma_prologue_roundtrip(TRAILER_MAGIC@, 64, rest);
    let b = spec_trailer_bytes(t);
    assert(b =~= spec_prologue(TRAILER_MAGIC@, 64) + rest);
    assert(b.subrange(16, 24) =~= spec_u64_to_le_bytes(t.footer_payload_offset));
    assert(b.subrange(24, 32) =~= spec_u64_to_le_bytes(t.footer_payload_size));
    assert(b.subrange(32, 64) =~= t.footer_payload_checksum_blake3@);
}


/// Half-open physical byte range `[offset, offset + size)`.
#[derive(Debug, Clone, Copy, PartialEq, Eq)]
pub struct PhysicalRange {
    pub offset: u64,
    pub size: u64,
}

/// Whether two half-open ranges share a byte position (by the ends as integers).
pub open spec fn spec_ranges_overlap(a: PhysicalRange, b: PhysicalRange) -> bool {
    a.offset < b.offset + b.size && b.offset < a.offset + a.size
}

/// Whether a range's end is representable as a `u64`.
pub open spec fn spec_range_end_fits(r: PhysicalRange) -> bool {
    r.offset + r.size <= u64::MAX
}

impl PhysicalRange {
    pub fn new(offset: u64, size: u64) -> (r: Self)
        ensures
            r.offset == offset,
            r.size == size,
    {
        PhysicalRange { offset, size }
    }

    pub fn end(self) -> (r: Result<u64>)
        ensures
            spec_range_end_fits(self) ==> r == Ok::<u64, QztError>((self.offset + self.size) as u64),
            !spec_range_end_fits(self) ==> r == Err::<u64, QztError>(QztError::PhysicalRangeOutOfBounds),
    {
        checked_physical_end(self.offset, self.size)
    }

    pub fn is_inside_file(self, final_file_size: u64) -> (r: Result<bool>)
        ensures
            spec_range_end_fits(self) ==> r == Ok::<bool, QztError>(self.offset + self.size <= final_file_size),
            !spec_range_end_fits(self) ==> r == Err::<bool, QztError>(QztError::PhysicalRangeOutOfBounds),
    {
        Ok(self.end()? <= final_file_size)
    }

    pub fn overlaps(self, other: Self) -> (r: Result<bool>)
        ensures
            spec_range_end_fits(self) && spec_range_end_fits(other) ==> r == Ok::<bool, QztError>(
                spec_ranges_overlap(self, other),
            ),
            !(spec_range_end_fits(self) && spec_range_end_fits(other)) ==> r == Err::<bool, QztError>(
                QztError::PhysicalRangeOutOfBounds,
            ),
    {
        let self_end = self.end()?;
        let other_end = other.end()?;
        Ok(self.offset < other_end && other.offset < self_end)
    }
}

/// The error a single range raises against a file of `size` bytes, if any.
pub open spec fn spec_range_error(size: u64, r: PhysicalRange) -> Option<QztError> {
    if !spec_range_end_fits(r) || r.offset + r.size > size {
        Some(QztError::PhysicalRangeOutOfBounds)
    } else if spec_ranges_overlap(r, PhysicalRange { offset: 0, size: 128 })
        || spec_ranges_overlap(r, PhysicalRange { offset: (size - 64) as u64, size: 64 }) {
        Some(QztError::RangeOverlap)
    } else {
        None
    }
}

/// The error of the first range, in order, that fails on its own.
pub open spec fn spec_first_range_error(size: u64, ranges: Seq<PhysicalRange>) -> Option<QztError>
    decreases ranges.len(),
{
    if ranges.len() == 0 {
        None
    } else if spec_range_error(size, ranges[0]) is Some {
        spec_range_error(size, ranges[0])
    } else {
        spec_first_range_error(size, ranges.drop_first())
    }
}

/// Whether two distinct ranges of the list overlap.
pub open spec fn spec_some_pair_overlaps(ranges: Seq<PhysicalRange>) -> bool {
    exists|i: int, j: int|
        0 <= i < ranges.len() && 0 <= j < ranges.len() && i != j && spec_ranges_overlap(
            #[trigger] ranges[i],
            #[trigger] ranges[j],
        )
}

/// The outcome of validating physical ranges against a file of `size` bytes.
pub open spec fn spec_validate_physical_ranges(size: u64, ranges: Seq<PhysicalRange>) -> Result<()> {
    if size < 192 {
        Err(QztError::InvalidFooterTrailer)
    } else if spec_first_range_error(size, ranges) is Some {
        Err(spec_first_range_error(size, ranges)->Some_0)
    } else if spec_some_pair_overlaps(ranges) {
        Err(QztError::RangeOverlap)
    } else {
        Ok(())
    }
}

proof fn lemma_first_range_error_prefix(size: u64, ranges: Seq<PhysicalRange>, i: int)
    requires
        0 <= i < ranges.len(),
        forall|k: int| 0 <= k < i ==> spec_range_error(size, ranges[k]) is None,
    ensures
        spec_first_range_error(size, ranges) == (if spec_range_error(size, ranges[i]) is Some {
            spec_range_error(size, ranges[i])
        } else {
            spec_first_range_error(size, ranges.subrange(i + 1, ranges.len() as int))
        }),
    decreases i,
{
    if i > 0 {
        let tail = ranges.drop_first();
        assert forall|k: int| 0 <= k < i - 1 implies spec_range_error(size, tail[k]) is None by {
            assert(tail[k] == ranges[k + 1]);
        }
        lemma_first_range_error_prefix(size, tail, i - 1);
        assert(tail.subrange(i, tail.len() as int) =~= ranges.subrange(i + 1, ranges.len() as int));
    } else {
        assert(ranges.drop_first() =~= ranges.subrange(1, ranges.len() as int));
    }
}

proof fn lemma_first_range_error_none(size: u64, ranges: Seq<PhysicalRange>)
    requires
        forall|k: int| 0 <= k < ranges.len() ==> spec_range_error(size, ranges[k]) is None,
    ensures
        spec_first_range_error(size, ranges) is None,
    decreases ranges.len(),
{
    if ranges.len() > 0 {
        let tail = ranges.drop_first();
        assert forall|k: int| 0 <= k < tail.len() implies spec_range_error(size, tail[k]) is None by {
            assert(tail[k] == ranges[k + 1]);
        }
        lemma_first_range_error_none(size, tail);
    }
}

/// Validates fixed Header/Footer capacity and pairwise non-overlapping physical ranges.
pub fn validate_physical_ranges(final_file_size: u64, ranges: &[PhysicalRange]) -> (r: Result<()>)
    ensures
        r == spec_validate_physical_ranges(final_file_size, ranges@),
{
    if final_file_size < (HEADER_LEN + FOOTER_TRAILER_LEN) as u64 {
        return Err(QztError::InvalidFooterTrailer);
    }
    let header = PhysicalRange::new(0, HEADER_LEN as u64);
    let footer_trailer = PhysicalRange::new(
        final_file_size - FOOTER_TRAILER_LEN as u64,
        FOOTER_TRAILER_LEN as u64,
    );
    let mut i: usize = 0;
    while i < ranges.len()
        invariant
            final_file_size >= 192,
            header == (PhysicalRange { offset: 0, size: 128 }),
            footer_trailer == (PhysicalRange { offset: (final_file_size - 64) as u64, size: 64 }),
            i <= ranges@.len(),
            forall|k: int| 0 <= k < i ==> spec_range_error(final_file_size, ranges@[k]) is None,
        decreases ranges@.len() - i,
    {
        let range = ranges[i];
        let inside = range.is_inside_file(final_file_size);
        if inside.is_err() || !inside.unwrap() {
            proof { lemma_first_range_error_prefix(final_file_size, ranges@, i as int); }
            return Err(QztError::PhysicalRangeOutOfBounds);
        }
        let a = range.overlaps(header)?;
        let b = range.overlaps(footer_trailer)?;
        if a || b {
            proof { lemma_first_range_error_prefix(final_file_size, ranges@, i as int); }
            return Err(QztError::RangeOverlap);
        }
        i = i + 1;
    }
    proof {
        lemma_first_range_error_none(final_file_size, ranges@);
        assert forall|k: int| 0 <= k < ranges@.len() implies spec_range_end_fits(#[trigger] ranges@[k]) by {
            assert(spec_range_error(final_file_size, ranges@[k]) is None);
        }
    }
    let mut i: usize = 0;
    while i < ranges.len()
        invariant
            i <= ranges@.len(),
            final_file_size >= 192,
            spec_first_range_error(final_file_size, ranges@) is None,
            forall|k: int| 0 <= k < ranges@.len() ==> spec_range_end_fits(#[trigger] ranges@[k]),
            forall|a: int, b: int|
                0 <= a < i && 0 <= b < ranges@.len() && a != b ==> !spec_ranges_overlap(
                    #[trigger] ranges@[a],
                    #[trigger] ranges@[b],
                ),
        decreases ranges@.len() - i,
    {
        let mut j: usize = 0;
        while j < ranges.len()
            invariant
                i < ranges@.len(),
                j <= ranges@.len(),
                final_file_size >= 192,
                spec_first_range_error(final_file_size, ranges@) is None,
                forall|k: int| 0 <= k < ranges@.len() ==> spec_range_end_fits(#[trigger] ranges@[k]),
                forall|a: int, b: int|
                    0 <= a < i && 0 <= b < ranges@.len() && a != b ==> !spec_ranges_overlap(
                        #[trigger] ranges@[a],
                        #[trigger] ranges@[b],
                    ),
                forall|b: int| 0 <= b < j && i != b ==> !spec_ranges_overlap(
                    ranges@[i as int],
                    #[trigger] ranges@[b],
                ),
            decreases ranges@.len() - j,
        {
            if i != j {
                let ri = ranges[i];
                let rj = ranges[j];
                let o = ri.overlaps(rj)?;
                if o {
                    assert(spec_ranges_overlap(ranges@[i as int], ranges@[j as int]));
                    return Err(QztError::RangeOverlap);
                }
            }
            j = j + 1;
        }
        i = i + 1;
    }
    Ok(())
}
/// Bytes that agree with `e` on its first `n` bytes agree on every range inside them.
proof fn lemma_prefix_ranges(b: Seq<u8>, e: Seq<u8>, n: int, i: int, j: int)
    requires
        0 <= i <= j <= n <= b.len(),
        n <= e.len(),
        b.subrange(0, n) == e.subrange(0, n),
    ensures
        b.subrange(i, j) == e.subrange(i, j),
{
    assert forall|k: int| 0 <= k < j - i implies b.subrange(i, j)[k] == e.subrange(i, j)[k] by {
        let bn = b.subrange(0, n);
        let en = e.subrange(0, n);
        assert(bn[i + k] == b[i + k]);
        assert(en[i + k] == e[i + k]);
        assert(bn[i + k] == en[i + k]);
        assert(b.subrange(i, j)[k] == b[i + k]);
        assert(e.subrange(i, j)[k] == e[i + k]);
    }
    assert(b.subrange(i, j) =~= e.subrange(i, j));
}

/// How a header decode refuses altered bytes: a wrong length is an invalid
/// header, a wrong magic an invalid magic, nonzero flags after an intact
/// prologue invalid flags, and a nonzero reserved byte after intact prologue
/// and flags an invalid header.
pub proof fn lemma_header_refusals(h: Header, b: Seq<u8>)
    ensures
        b.len() != 128 ==> spec_header_error(b) == Some(QztError::InvalidHeader),
        b.len() == 128 && b.subrange(0, 8) != MAGIC@ ==> spec_header_error(b) == Some(QztError::InvalidMagic),
        b.len() == 128 && b.subrange(0, 16) == spec_header_bytes(h).subrange(0, 16) && le64_at(b, 16) != 0
            ==> spec_header_error(b) == Some(QztError::InvalidFlags),
        b.len() == 128 && b.subrange(0, 24) == spec_header_bytes(h).subrange(0, 24)
            && (exists|k: int| 64 <= k < 128 && b[k] != 0) ==> spec_header_error(b) == Some(QztError::InvalidHeader),
{
    let e = spec_header_bytes(h);
    lemma_header_roundtrip(h);
    if b.len() == 128 && b.subrange(0, 16) == e.subrange(0, 16) {
        lemma_prefix_ranges(b, e, 16, 0, 8);
        lemma_prefix_ranges(b, e, 16, 8, 10);
        lemma_prefix_ranges(b, e, 16, 10, 12);
        lemma_prefix_ranges(b, e, 16, 12, 16);
    }
    if b.len() == 128 && b.subrange(0, 24) == e.subrange(0, 24) {
        lemma_prefix_ranges(b, e, 24, 0, 16);
        lemma_prefix_ranges(b, e, 24, 0, 8);
        lemma_prefix_ranges(b, e, 24, 8, 10);
        lemma_prefix_ranges(b, e, 24, 10, 12);
        lemma_prefix_ranges(b, e, 24, 12, 16);
        lemma_prefix_ranges(b, e, 24, 16, 24);
    }
}

/// How a trailer decode refuses altered bytes: a wrong length or magic is an
/// invalid trailer (never an invalid magic), wrong version bytes after an
/// intact magic an unsupported version, and a wrong length field after intact
/// magic and version an invalid trailer.
pub proof fn lemma_trailer_refusals(t: FooterTrailer, b: Seq<u8>)
    ensures
        b.len() != 64 ==> spec_trailer_error(b) == Some(QztError::InvalidFooterTrailer),
        b.len() == 64 && b.subrange(0, 8) != TRAILER_MAGIC@ ==> spec_trailer_error(b) == Some(QztError::InvalidFooterTrailer),
        b.len() == 64 && b.subrange(0, 8) == TRAILER_MAGIC@ && b.subrange(8, 12) != spec_trailer_bytes(t).subrange(8, 12)
            ==> spec_trailer_error(b) == Some(QztError::UnsupportedVersion),
        b.len() == 64 && b.subrange(0, 12) == spec_trailer_bytes(t).subrange(0, 12)
            && b.subrange(12, 16) != spec_trailer_bytes(t).subrange(12, 16)
            ==> spec_trailer_error(b) == Some(QztError::InvalidFooterTrailer),
{
    lemma_auto_spec_u16_to_from_le_bytes();
    lemma_auto_spec_u32_to_from_le_bytes();
    let e = spec_trailer_bytes(t);
    assert(e.subrange(8, 10) =~= spec_u16_to_le_bytes(0));
    assert(e.subrange(10, 12) =~= spec_u16_to_le_bytes(1));
    assert(e.subrange(12, 16) =~= spec_u32_to_le_bytes(64));
    if b.len() == 64 && b.subrange(0, 8) == TRAILER_MAGIC@ && b.subrange(8, 12) != e.subrange(8, 12) {
        if spec_u16_from_le_bytes(b.subrange(8, 10)) == 0 && spec_u16_from_le_bytes(b.subrange(10, 12)) == 1 {
            assert(b.subrange(8, 10) == spec_u16_to_le_bytes(spec_u16_from_le_bytes(b.subrange(8, 10))));
            assert(b.subrange(10, 12) == spec_u16_to_le_bytes(spec_u16_from_le_bytes(b.subrange(10, 12))));
            assert(b.subrange(8, 12) =~= e.subrange(8, 12)) by {
                assert forall|k: int| 0 <= k < 4 implies b.subrange(8, 12)[k] == e.subrange(8, 12)[k] by {
                    if k < 2 {
                        assert(b.subrange(8, 10)[k] == e.subrange(8, 10)[k]);
                    } else {
                        assert(b.subrange(10, 12)[k - 2] == e.subrange(10, 12)[k - 2]);
                    }
                }
            }
        }
    }
    if b.len() == 64 && b.subrange(0, 12) == e.subrange(0, 12) && b.subrange(12, 16) != e.subrange(12, 16) {
        lemma_prefix_ranges(b, e, 12, 0, 8);
        lemma_prefix_ranges(b, e, 12, 8, 10);
        lemma_prefix_ranges(b, e, 12, 10, 12);
        assert(e.subrange(0, 8) =~= TRAILER_MAGIC@);
        assert(b.subrange(12, 16) == spec_u32_to_le_bytes(spec_u32_from_le_bytes(b.subrange(12, 16))));
    }
}

} // verus!
