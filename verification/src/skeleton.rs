//! Opening a container's structure: fixed frame, footer payload, metadata,
//! index root, chunk table, optional blocks, and the physical layout.

use vstd::prelude::*;
use crate::bytes_util::{bytes_equal, extend_bytes, slice_to_vec};
use crate::cbor::{
    spec_default_limits, spec_encode_det, spec_validate, validate_deterministic_with_limits, CborItem,
    CborLimits,
};
use crate::chunk_table::{
    entries_decoded_from, lemma_entries_of_unique, spec_chunk_table_error, spec_entries_of, spec_table_consistent,
    validate_chunk_table_block, ChunkEntry,
};
use crate::dense_line_index::{spec_decode_dense, DenseLineIndex};
use crate::error::{QztError, Result};
use crate::fixed::{
    header_fields_of, le64_at, spec_header_error, spec_trailer_error, spec_validate_physical_ranges,
    trailer_fields_of, validate_physical_ranges, FooterTrailer, Header, PhysicalRange,
};
use crate::format::{FOOTER_TRAILER_LEN, HEADER_LEN};
use crate::hashing::blake3_digest;
use crate::io::{is_unexpected_eof, ReadAt};
use crate::limits::{spec_default_resource_limits, ResourceLimits};
use crate::schema::{
    spec_array_of, spec_block_ref_of, spec_blocks_of, spec_bool_of, spec_bstr_of, spec_checksum_of,
    spec_content_of, spec_dictionary_block_error, spec_dictionary_entry_matches,
    spec_document_entry_matches, spec_document_index_decode_error, spec_field,
    spec_footer_decode_error, spec_footer_matches, spec_index_root_decode_error,
    spec_index_root_matches, spec_is_blake3_checksum, spec_footer_item, spec_index_root_item, spec_metadata_item,
    copy_block_ref, copy_checksum, spec_metadata_decode_error,
    spec_metadata_matches, spec_sub, spec_text_of, spec_u64_of, text_is, validate_source_consistency,
    BlockDescriptor, BlockRef, Checksum, DictionaryBlock, DictionaryEntry, DocumentIndex,
    FooterPayload, IndexRoot, Metadata, CHUNK_TABLE_CODEC, CHUNK_TABLE_TYPE, DENSE_LINE_INDEX_CODEC,
    DENSE_LINE_INDEX_TYPE, DICTIONARY_CODEC, DICTIONARY_TYPE, DOCUMENT_INDEX_CODEC,
    DOCUMENT_INDEX_TYPE,
};

verus! {

/// Summary returned by the structural skeleton opener.
#[derive(Debug, Clone, PartialEq, Eq)]
pub struct SkeletonSummary {
    pub container_id: [u8; 16],
    pub original_size: u64,
    pub chunk_count: u64,
    pub line_count: u64,
}

/// Structural details needed by later reader/export phases.
#[derive(Debug, Clone, PartialEq, Eq)]
pub struct SkeletonDetails {
    pub summary: SkeletonSummary,
    pub chunk_entries: Vec<ChunkEntry>,
    pub metadata: Metadata,
    pub footer_payload: FooterPayload,
    pub footer_payload_offset: u64,
    pub dictionaries: Vec<DictionaryEntry>,
    pub dense_line_index: Option<DenseLineIndex>,
    pub document_index: Option<DocumentIndex>,
}

// ---------------------------------------------------------------------------
// The model of a container's structure
// ---------------------------------------------------------------------------

/// The CBOR budgets the resource limits allow.
pub open spec fn spec_cbor_limits(limits: ResourceLimits) -> CborLimits {
    CborLimits { max_allocation: limits.max_cbor_allocation, max_items: limits.max_cbor_items }
}

/// The map a checked CBOR block decodes to.
pub open spec fn spec_map_item(b: Seq<u8>) -> Seq<(CborItem, CborItem)> {
    spec_validate(b, spec_default_limits())->Ok_0->Mapping_0
}

/// The bytes `offset..offset + size` of `s`, or the error such a range raises.
pub open spec fn spec_region(s: Seq<u8>, offset: u64, size: u64) -> Result<Seq<u8>> {
    if offset + size > u64::MAX || offset + size > s.len() {
        Err(QztError::PhysicalRangeOutOfBounds)
    } else {
        Ok(s.subrange(offset as int, offset + size))
    }
}

/// The last 64 bytes of `s`.
pub open spec fn spec_trailer_region(s: Seq<u8>) -> Seq<u8> {
    s.subrange(s.len() - 64, s.len() as int)
}

/// The error the fixed frame of `s` raises: too short, a bad header or a bad trailer.
pub open spec fn spec_frame_error(s: Seq<u8>) -> Option<QztError> {
    if s.len() < 128 {
        Some(QztError::InvalidHeader)
    } else if s.len() < 192 {
        Some(QztError::InvalidFooterTrailer)
    } else if spec_header_error(s.subrange(0, 128)) is Some {
        spec_header_error(s.subrange(0, 128))
    } else {
        spec_trailer_error(spec_trailer_region(s))
    }
}

/// The error a CBOR block raises before its schema is read: a digest other
/// than `digest`, or CBOR that the budgets refuse.
pub open spec fn spec_block_error(b: Seq<u8>, digest: Seq<u8>, digest_error: QztError, limits: ResourceLimits) -> Option<QztError> {
    if blake3_digest(b) != digest {
        Some(digest_error)
    } else if spec_validate(b, spec_cbor_limits(limits)) is Err {
        Some(spec_validate(b, spec_cbor_limits(limits))->Err_0)
    } else {
        None
    }
}

/// The error the footer payload `fb` raises, for a file of `size` bytes whose
/// header records container id `id` and metadata at `mo` of `ms` bytes, and
/// whose trailer records `digest`.
pub open spec fn spec_footer_check(fb: Seq<u8>, digest: Seq<u8>, size: u64, id: Seq<u8>, mo: u64, ms: u64, limits: ResourceLimits) -> Option<QztError> {
    if spec_block_error(fb, digest, QztError::FooterChecksumMismatch, limits) is Some {
        spec_block_error(fb, digest, QztError::FooterChecksumMismatch, limits)
    } else if spec_footer_decode_error(fb) is Some {
        spec_footer_decode_error(fb)
    } else {
        let m = spec_map_item(fb);
        if spec_u64_of(spec_field(m, "final_file_size"@)) != Some(size) {
            Some(QztError::FinalFileSizeMismatch)
        } else if spec_bstr_of(spec_field(m, "container_id"@), 16) != Some(id) {
            Some(QztError::ContainerIdMismatch)
        } else if spec_block_ref_of(spec_field(m, "metadata"@))->Some_0.0 != mo
            || spec_block_ref_of(spec_field(m, "metadata"@))->Some_0.1 != ms {
            Some(QztError::MetadataInvalid)
        } else {
            None
        }
    }
}

/// The error the metadata block `mb` raises against the header's container id `id`.
pub open spec fn spec_metadata_check(mb: Seq<u8>, digest: Seq<u8>, id: Seq<u8>, limits: ResourceLimits) -> Option<QztError> {
    if spec_block_error(mb, digest, QztError::MetadataChecksumMismatch, limits) is Some {
        spec_block_error(mb, digest, QztError::MetadataChecksumMismatch, limits)
    } else if spec_metadata_decode_error(mb) is Some {
        spec_metadata_decode_error(mb)
    } else if spec_bstr_of(spec_field(spec_map_item(mb), "container_id"@), 16) != Some(id) {
        Some(QztError::ContainerIdMismatch)
    } else {
        None
    }
}

/// The error the index root `ib` raises against the metadata map `mm`.
pub open spec fn spec_index_root_check(ib: Seq<u8>, digest: Seq<u8>, mm: Seq<(CborItem, CborItem)>, limits: ResourceLimits) -> Option<QztError> {
    if spec_block_error(ib, digest, QztError::IndexRootChecksumMismatch, limits) is Some {
        spec_block_error(ib, digest, QztError::IndexRootChecksumMismatch, limits)
    } else if spec_index_root_decode_error(ib) is Some {
        spec_index_root_decode_error(ib)
    } else {
        let m = spec_map_item(ib);
        let c = spec_content_of(m);
        let src = spec_sub(mm, "source"@);
        if spec_bstr_of(spec_field(mm, "container_id"@), 16) != spec_bstr_of(spec_field(m, "container_id"@), 16) {
            Some(QztError::ContainerIdMismatch)
        } else if spec_u64_of(spec_field(src, "original_size"@)) != spec_u64_of(spec_field(c, "original_size"@))
            || spec_checksum_of(spec_field(src, "original_checksum"@)) != spec_checksum_of(spec_field(c, "original_checksum"@))
            || spec_u64_of(spec_field(src, "line_count"@)) != spec_u64_of(spec_field(c, "line_count"@)) {
            Some(QztError::MetadataInvalid)
        } else {
            None
        }
    }
}

/// A text field of a block descriptor item.
pub open spec fn spec_desc_text(v: CborItem, key: Seq<char>) -> Seq<char> {
    spec_text_of(spec_field(v->Mapping_0, key))->Some_0
}

/// An integer field of a block descriptor item.
pub open spec fn spec_desc_u64(v: CborItem, key: Seq<char>) -> u64 {
    spec_u64_of(spec_field(v->Mapping_0, key))->Some_0
}

/// Whether a block descriptor item is marked required.
pub open spec fn spec_desc_required(v: CborItem) -> bool {
    spec_bool_of(spec_field(v->Mapping_0, "required"@))->Some_0
}

/// The digest a block descriptor item records.
pub open spec fn spec_desc_digest(v: CborItem) -> Seq<u8> {
    spec_checksum_of(spec_field(v->Mapping_0, "checksum"@))->Some_0
}

/// The position of the first descriptor of a required chunk table.
pub open spec fn spec_table_index(vs: Seq<CborItem>) -> int {
    choose|k: int| 0 <= k < vs.len() && crate::schema::spec_is_required_chunk_table(vs[k])
        && forall|j: int| 0 <= j < k ==> !crate::schema::spec_is_required_chunk_table(#[trigger] vs[j])
}

/// Some descriptor records a block larger than `max` bytes.
pub open spec fn spec_oversized_block(vs: Seq<CborItem>, max: u64) -> bool {
    exists|k: int| 0 <= k < vs.len() && spec_desc_u64(#[trigger] vs[k], "size"@) > max
}

/// Some chunk decodes to more than `max` bytes.
pub open spec fn spec_oversized_chunk(es: Seq<ChunkEntry>, max: u64) -> bool {
    exists|k: int| 0 <= k < es.len() && #[trigger] es[k].uncompressed_size > max
}

/// The entries of the chunk table block `b`, or the error it raises, against
/// the recorded digest and the index root's counts.
pub open spec fn spec_chunk_table_check(
    b: Seq<u8>,
    digest: Seq<u8>,
    chunk_count: u64,
    original_size: u64,
    line_count: u64,
    limits: ResourceLimits,
) -> Result<Seq<ChunkEntry>> {
    if blake3_digest(b) != digest {
        Err(QztError::ChunkTableChecksumMismatch)
    } else if spec_chunk_table_error(b, chunk_count, original_size, line_count, spec_entries_of(b)) is Some {
        Err(spec_chunk_table_error(b, chunk_count, original_size, line_count, spec_entries_of(b))->Some_0)
    } else if spec_oversized_chunk(spec_entries_of(b), limits.max_uncompressed_chunk_size) {
        Err(QztError::ResourceLimitExceeded)
    } else {
        Ok(spec_entries_of(b))
    }
}

/// The entries of the chunk table of `s` that index root map `mi` describes,
/// or the error the chunk table raises.
pub open spec fn spec_chunk_table_stage(s: Seq<u8>, limits: ResourceLimits, mi: Seq<(CborItem, CborItem)>) -> Result<Seq<ChunkEntry>> {
    let vs = spec_blocks_of(mi);
    let t = vs[spec_table_index(vs)];
    let c = spec_content_of(mi);
    if spec_desc_text(t, "codec"@) != CHUNK_TABLE_CODEC@ {
        Err(QztError::ChunkTableInvalid)
    } else if spec_oversized_block(vs, limits.max_index_block_size) {
        Err(QztError::ResourceLimitExceeded)
    } else {
        match spec_region(s, spec_desc_u64(t, "offset"@), spec_desc_u64(t, "size"@)) {
            Err(e) => Err(e),
            Ok(b) => spec_chunk_table_check(
                b,
                spec_desc_digest(t),
                spec_u64_of(spec_field(c, "chunk_count"@))->Some_0,
                spec_u64_of(spec_field(c, "original_size"@))->Some_0,
                spec_u64_of(spec_field(c, "line_count"@))->Some_0,
                limits,
            ),
        }
    }
}

/// The id a dictionary entry item records.
pub open spec fn spec_dict_id(v: CborItem) -> Option<u64> {
    spec_u64_of(spec_field(v->Mapping_0, "dictionary_id"@))
}

/// Some item of `acc` records dictionary id `id`.
pub open spec fn spec_has_dict_id(acc: Seq<CborItem>, id: Option<u64>) -> bool {
    exists|i: int| 0 <= i < acc.len() && #[trigger] spec_dict_id(acc[i]) == id
}

/// Some entry of `items` records an id that an item of `acc` records too.
pub open spec fn spec_ids_collide(acc: Seq<CborItem>, items: Seq<CborItem>) -> bool {
    exists|j: int| 0 <= j < items.len() && spec_has_dict_id(acc, #[trigger] spec_dict_id(items[j]))
}

/// The dictionary entry items of dictionary block `db`, or the error it raises.
pub open spec fn spec_dictionary_block_check(db: Seq<u8>, digest: Seq<u8>, id: Seq<u8>, limits: ResourceLimits) -> Result<Seq<CborItem>> {
    if spec_block_error(db, digest, QztError::DictionaryChecksumMismatch, limits) is Some {
        Err(spec_block_error(db, digest, QztError::DictionaryChecksumMismatch, limits)->Some_0)
    } else if spec_dictionary_block_error(db, limits.max_dictionary_size) is Some {
        Err(spec_dictionary_block_error(db, limits.max_dictionary_size)->Some_0)
    } else if spec_bstr_of(spec_field(spec_map_item(db), "container_id"@), 16) != Some(id) {
        Err(QztError::ContainerIdMismatch)
    } else {
        Ok(spec_array_of(spec_field(spec_map_item(db), "dictionaries"@))->Some_0)
    }
}

/// The dictionary entry items of the dictionary blocks among the first `n`
/// descriptors `vs`, in order, or the first error one of them raises.
pub open spec fn spec_dictionary_stage(s: Seq<u8>, limits: ResourceLimits, vs: Seq<CborItem>, n: int, id: Seq<u8>) -> Result<Seq<CborItem>>
    decreases n,
{
    if n <= 0 {
        Ok(Seq::empty())
    } else {
        match spec_dictionary_stage(s, limits, vs, n - 1, id) {
            Err(e) => Err(e),
            Ok(acc) => {
                let v = vs[n - 1];
                if spec_desc_text(v, "type"@) != DICTIONARY_TYPE@ {
                    Ok(acc)
                } else if spec_desc_required(v) || spec_desc_text(v, "codec"@) != DICTIONARY_CODEC@ {
                    Err(QztError::ContainerCorrupt)
                } else if spec_desc_u64(v, "size"@) > limits.max_index_block_size {
                    Err(QztError::ResourceLimitExceeded)
                } else {
                    match spec_region(s, spec_desc_u64(v, "offset"@), spec_desc_u64(v, "size"@)) {
                        Err(e) => Err(e),
                        Ok(db) => match spec_dictionary_block_check(db, spec_desc_digest(v), id, limits) {
                            Err(e) => Err(e),
                            Ok(items) => if spec_ids_collide(acc, items) {
                                Err(QztError::ContainerCorrupt)
                            } else {
                                Ok(acc + items)
                            },
                        },
                    }
                }
            },
        }
    }
}

/// Some chunk needs a dictionary that no item of `items` provides.
pub open spec fn spec_missing_dictionary(es: Seq<ChunkEntry>, items: Seq<CborItem>) -> bool {
    exists|k: int| 0 <= k < es.len() && #[trigger] es[k].dictionary_id != 0
        && !spec_has_dict_id(items, Some(es[k].dictionary_id as u64))
}

/// The decoded dense line index among the first `n` descriptors `vs`, if one
/// is present, or the first error one raises.
pub open spec fn spec_dense_stage(s: Seq<u8>, vs: Seq<CborItem>, n: int, es: Seq<ChunkEntry>) -> Result<Option<Seq<(u64, Seq<u64>)>>>
    decreases n,
{
    if n <= 0 {
        Ok(None)
    } else {
        match spec_dense_stage(s, vs, n - 1, es) {
            Err(e) => Err(e),
            Ok(acc) => {
                let v = vs[n - 1];
                if spec_desc_text(v, "type"@) != DENSE_LINE_INDEX_TYPE@ {
                    Ok(acc)
                } else if spec_desc_required(v) || spec_desc_text(v, "codec"@) != DENSE_LINE_INDEX_CODEC@ || acc is Some {
                    Err(QztError::ChunkTableInvalid)
                } else {
                    match spec_region(s, spec_desc_u64(v, "offset"@), spec_desc_u64(v, "size"@)) {
                        Err(e) => Err(e),
                        Ok(b) => if blake3_digest(b) != spec_desc_digest(v) {
                            Err(QztError::ChunkTableChecksumMismatch)
                        } else {
                            match spec_decode_dense(b, es, 268435456) {
                                Err(e) => Err(e),
                                Ok(x) => Ok(Some(x)),
                            }
                        },
                    }
                }
            },
        }
    }
}

/// The error document index block `b` raises, for a container with id `id`.
pub open spec fn spec_document_block_check(b: Seq<u8>, digest: Seq<u8>, id: Seq<u8>, limits: ResourceLimits) -> Option<QztError> {
    if spec_block_error(b, digest, QztError::ContainerCorrupt, limits) is Some {
        spec_block_error(b, digest, QztError::ContainerCorrupt, limits)
    } else if spec_document_index_decode_error(b) is Some {
        spec_document_index_decode_error(b)
    } else if spec_bstr_of(spec_field(spec_map_item(b), "container_id"@), 16) != Some(id) {
        Some(QztError::ContainerIdMismatch)
    } else {
        None
    }
}

/// `d` holds the fields of the document index block `b`.
pub open spec fn spec_document_index_holds(b: Seq<u8>, d: DocumentIndex) -> bool {
    let m = spec_map_item(b);
    let vs = spec_array_of(spec_field(m, "documents"@))->Some_0;
    &&& spec_bstr_of(spec_field(m, "container_id"@), 16) == Some(d.container_id@)
    &&& d.documents@.len() == vs.len()
    &&& forall|k: int| 0 <= k < vs.len() ==> spec_document_entry_matches(vs[k], #[trigger] d.documents@[k])
}

/// The bytes of the document index among the first `n` descriptors `vs`, if
/// one is present, or the first error one raises.
pub open spec fn spec_document_stage(s: Seq<u8>, limits: ResourceLimits, vs: Seq<CborItem>, n: int, id: Seq<u8>) -> Result<Option<Seq<u8>>>
    decreases n,
{
    if n <= 0 {
        Ok(None)
    } else {
        match spec_document_stage(s, limits, vs, n - 1, id) {
            Err(e) => Err(e),
            Ok(acc) => {
                let v = vs[n - 1];
                if spec_desc_text(v, "type"@) != DOCUMENT_INDEX_TYPE@ {
                    Ok(acc)
                } else if spec_desc_required(v) || spec_desc_text(v, "codec"@) != DOCUMENT_INDEX_CODEC@ || acc is Some {
                    Err(QztError::ContainerCorrupt)
                } else {
                    match spec_region(s, spec_desc_u64(v, "offset"@), spec_desc_u64(v, "size"@)) {
                        Err(e) => Err(e),
                        Ok(b) => match spec_document_block_check(b, spec_desc_digest(v), id, limits) {
                            Some(e) => Err(e),
                            None => Ok(Some(b)),
                        },
                    }
                }
            },
        }
    }
}

/// The ranges of the descriptors among the first `n` of `vs` other than the
/// metadata and the chunk table.
pub open spec fn spec_block_ranges(vs: Seq<CborItem>, n: int) -> Seq<PhysicalRange>
    decreases n,
{
    if n <= 0 {
        Seq::empty()
    } else {
        let r = spec_block_ranges(vs, n - 1);
        let t = spec_desc_text(vs[n - 1], "type"@);
        if t == "metadata"@ || t == "chunk_table"@ {
            r
        } else {
            r.push(PhysicalRange { offset: spec_desc_u64(vs[n - 1], "offset"@), size: spec_desc_u64(vs[n - 1], "size"@) })
        }
    }
}

/// The physical ranges of the compressed chunks.
pub open spec fn spec_entry_ranges(es: Seq<ChunkEntry>) -> Seq<PhysicalRange> {
    Seq::new(es.len(), |k: int| PhysicalRange { offset: es[k].physical_offset, size: es[k].compressed_size })
}

/// The first 128 bytes of `s`.
pub open spec fn spec_header_region(s: Seq<u8>) -> Seq<u8> {
    s.subrange(0, 128)
}

/// The footer payload bytes the trailer of `s` points at.
pub open spec fn spec_footer_bytes(s: Seq<u8>) -> Seq<u8> {
    let t = spec_trailer_region(s);
    spec_region(s, le64_at(t, 16), le64_at(t, 24))->Ok_0
}

/// The metadata reference of the footer payload of `s`.
pub open spec fn spec_metadata_ref(s: Seq<u8>) -> (u64, u64, Seq<u8>) {
    spec_block_ref_of(spec_field(spec_map_item(spec_footer_bytes(s)), "metadata"@))->Some_0
}

/// The index root reference of the footer payload of `s`.
pub open spec fn spec_index_root_ref(s: Seq<u8>) -> (u64, u64, Seq<u8>) {
    spec_block_ref_of(spec_field(spec_map_item(spec_footer_bytes(s)), "index_root"@))->Some_0
}

/// The metadata bytes of `s`.
pub open spec fn spec_metadata_bytes(s: Seq<u8>) -> Seq<u8> {
    spec_region(s, spec_metadata_ref(s).0, spec_metadata_ref(s).1)->Ok_0
}

/// The index root map of `s`.
pub open spec fn spec_index_root_map(s: Seq<u8>) -> Seq<(CborItem, CborItem)> {
    spec_map_item(spec_region(s, spec_index_root_ref(s).0, spec_index_root_ref(s).1)->Ok_0)
}

/// The error raised before the chunk table: the fixed frame, the footer
/// payload, the metadata and the index root, in that order.
pub open spec fn spec_head_error(s: Seq<u8>, limits: ResourceLimits) -> Option<QztError> {
    let hb = spec_header_region(s);
    let t = spec_trailer_region(s);
    if spec_frame_error(s) is Some {
        spec_frame_error(s)
    } else {
        match spec_region(s, le64_at(t, 16), le64_at(t, 24)) {
            Err(e) => Some(e),
            Ok(fb) => if spec_footer_check(fb, t.subrange(32, 64), s.len() as u64, hb.subrange(48, 64),
                le64_at(hb, 24), le64_at(hb, 32), limits) is Some {
                spec_footer_check(fb, t.subrange(32, 64), s.len() as u64, hb.subrange(48, 64), le64_at(hb, 24),
                    le64_at(hb, 32), limits)
            } else {
                let mr = spec_metadata_ref(s);
                let ir = spec_index_root_ref(s);
                if mr.1 > limits.max_index_block_size {
                    Some(QztError::ResourceLimitExceeded)
                } else {
                    match spec_region(s, mr.0, mr.1) {
                        Err(e) => Some(e),
                        Ok(mb) => if spec_metadata_check(mb, mr.2, hb.subrange(48, 64), limits) is Some {
                            spec_metadata_check(mb, mr.2, hb.subrange(48, 64), limits)
                        } else if ir.1 > limits.max_index_block_size {
                            Some(QztError::ResourceLimitExceeded)
                        } else {
                            match spec_region(s, ir.0, ir.1) {
                                Err(e) => Some(e),
                                Ok(ib) => spec_index_root_check(ib, ir.2, spec_map_item(mb), limits),
                            }
                        },
                    }
                }
            },
        }
    }
}

/// The physical ranges that must lie inside the file without overlapping:
/// metadata, index root, footer payload, chunk table, the other indexed
/// blocks, and every compressed chunk.
pub open spec fn spec_layout(s: Seq<u8>, es: Seq<ChunkEntry>) -> Seq<PhysicalRange> {
    let hb = spec_header_region(s);
    let t = spec_trailer_region(s);
    let ir = spec_index_root_ref(s);
    let vs = spec_blocks_of(spec_index_root_map(s));
    let tbl = vs[spec_table_index(vs)];
    seq![
        PhysicalRange { offset: le64_at(hb, 24), size: le64_at(hb, 32) },
        PhysicalRange { offset: ir.0, size: ir.1 },
        PhysicalRange { offset: le64_at(t, 16), size: le64_at(t, 24) },
        PhysicalRange { offset: spec_desc_u64(tbl, "offset"@), size: spec_desc_u64(tbl, "size"@) },
    ] + spec_block_ranges(vs, vs.len() as int) + spec_entry_ranges(es)
}

/// The error opening the structure of container `s` raises under `limits`,
/// or `None` when it opens.
pub open spec fn spec_skeleton_error(s: Seq<u8>, limits: ResourceLimits) -> Option<QztError> {
    let mi = spec_index_root_map(s);
    let vs = spec_blocks_of(mi);
    let id = spec_header_region(s).subrange(48, 64);
    if spec_head_error(s, limits) is Some {
        spec_head_error(s, limits)
    } else {
        match spec_chunk_table_stage(s, limits, mi) {
            Err(e) => Some(e),
            Ok(es) => match spec_validate_physical_ranges(s.len() as u64, spec_layout(s, es)) {
                Err(e) => Some(e),
                Ok(_) => match spec_dictionary_stage(s, limits, vs, vs.len() as int, id) {
                    Err(e) => Some(e),
                    Ok(items) => if spec_missing_dictionary(es, items) {
                        Some(QztError::MissingDictionary)
                    } else {
                        match spec_dense_stage(s, vs, vs.len() as int, es) {
                            Err(e) => Some(e),
                            Ok(_) => match spec_document_stage(s, limits, vs, vs.len() as int, id) {
                                Err(e) => Some(e),
                                Ok(_) => None,
                            },
                        }
                    },
                },
            },
        }
    }
}

/// `d` holds the structure of container `s`, which opens under `limits`.
pub open spec fn spec_skeleton_holds(s: Seq<u8>, limits: ResourceLimits, d: SkeletonDetails) -> bool {
    let hb = spec_header_region(s);
    let id = hb.subrange(48, 64);
    let mi = spec_index_root_map(s);
    let c = spec_content_of(mi);
    let vs = spec_blocks_of(mi);
    let es = spec_chunk_table_stage(s, limits, mi)->Ok_0;
    let items = spec_dictionary_stage(s, limits, vs, vs.len() as int, id)->Ok_0;
    &&& d.summary.container_id@ == id
    &&& spec_u64_of(spec_field(c, "original_size"@)) == Some(d.summary.original_size)
    &&& spec_u64_of(spec_field(c, "chunk_count"@)) == Some(d.summary.chunk_count)
    &&& spec_u64_of(spec_field(c, "line_count"@)) == Some(d.summary.line_count)
    &&& d.chunk_entries@ == es
    &&& spec_metadata_matches(spec_map_item(spec_metadata_bytes(s)), d.metadata)
    &&& spec_footer_matches(spec_map_item(spec_footer_bytes(s)), d.footer_payload)
    &&& d.footer_payload_offset == le64_at(spec_trailer_region(s), 16)
    &&& d.dictionaries@.len() == items.len()
    &&& forall|k: int| 0 <= k < items.len() ==> spec_dictionary_entry_matches(items[k], #[trigger] d.dictionaries@[k])
    &&& match spec_dense_stage(s, vs, vs.len() as int, es)->Ok_0 {
        None => d.dense_line_index is None,
        Some(x) => d.dense_line_index matches Some(i) && i@ == x,
    }
    &&& match spec_document_stage(s, limits, vs, vs.len() as int, id)->Ok_0 {
        None => d.document_index is None,
        Some(b) => d.document_index matches Some(di) && spec_document_index_holds(b, di),
    }
}

// ---------------------------------------------------------------------------
// Checks on fetched blocks
// ---------------------------------------------------------------------------

fn check_block(b: &[u8], digest: &[u8; 32], digest_error: QztError, limits: ResourceLimits) -> (r: Result<()>)
    ensures
        match r {
            Ok(()) => spec_block_error(b@, digest@, digest_error, limits) is None,
            Err(e) => spec_block_error(b@, digest@, digest_error, limits) == Some(e),
        },
{
    let actual = Checksum::blake3(b);
    if !bytes_equal(&actual.value, digest) {
        return Err(digest_error);
    }
    validate_deterministic_with_limits(b, limits.cbor_limits())?;
    Ok(())
}

fn check_footer(fb: &[u8], trailer: &FooterTrailer, header: &Header, size: u64, limits: ResourceLimits) -> (r: Result<FooterPayload>)
    ensures
        match r {
            Ok(f) => spec_footer_check(fb@, trailer.footer_payload_checksum_blake3@, size,
                header.container_id@, header.metadata_offset, header.metadata_size, limits) is None
                && spec_footer_matches(spec_map_item(fb@), f),
            Err(e) => spec_footer_check(fb@, trailer.footer_payload_checksum_blake3@, size,
                header.container_id@, header.metadata_offset, header.metadata_size, limits) == Some(e),
        },
{
    check_block(fb, &trailer.footer_payload_checksum_blake3, QztError::FooterChecksumMismatch, limits)?;
    let footer = FooterPayload::decode(fb)?;
    if footer.final_file_size != size {
        return Err(QztError::FinalFileSizeMismatch);
    }
    if !bytes_equal(&footer.container_id, &header.container_id) {
        return Err(QztError::ContainerIdMismatch);
    }
    if footer.metadata.offset != header.metadata_offset || footer.metadata.size != header.metadata_size {
        return Err(QztError::MetadataInvalid);
    }
    Ok(footer)
}

fn check_metadata(mb: &[u8], footer: &FooterPayload, header: &Header, limits: ResourceLimits) -> (r: Result<Metadata>)
    ensures
        match r {
            Ok(md) => spec_metadata_check(mb@, footer.metadata.checksum.value@, header.container_id@, limits) is None
                && spec_metadata_matches(spec_map_item(mb@), md),
            Err(e) => spec_metadata_check(mb@, footer.metadata.checksum.value@, header.container_id@, limits) == Some(e),
        },
{
    check_block(mb, &footer.metadata.checksum.value, QztError::MetadataChecksumMismatch, limits)?;
    let metadata = Metadata::decode(mb)?;
    if !bytes_equal(&metadata.container_id, &header.container_id) {
        return Err(QztError::ContainerIdMismatch);
    }
    Ok(metadata)
}

fn check_index_root(ib: &[u8], footer: &FooterPayload, metadata: &Metadata, limits: ResourceLimits) -> (r: Result<IndexRoot>)
    requires
        exists|mm: Seq<(CborItem, CborItem)>| spec_metadata_matches(mm, *metadata),
    ensures
        forall|mm: Seq<(CborItem, CborItem)>| #[trigger] spec_metadata_matches(mm, *metadata) ==> match r {
            Ok(root) => spec_index_root_check(ib@, footer.index_root.checksum.value@, mm, limits) is None
                && spec_index_root_matches(spec_map_item(ib@), root),
            Err(e) => spec_index_root_check(ib@, footer.index_root.checksum.value@, mm, limits) == Some(e),
        },
{
    check_block(ib, &footer.index_root.checksum.value, QztError::IndexRootChecksumMismatch, limits)?;
    let index_root = IndexRoot::decode(ib)?;
    validate_source_consistency(metadata, &index_root)?;
    Ok(index_root)
}

proof fn lemma_no_required_tables(vs: Seq<CborItem>, n: int)
    requires
        0 <= n <= vs.len(),
        forall|j: int| 0 <= j < vs.len() ==> !crate::schema::spec_is_required_chunk_table(#[trigger] vs[j]),
    ensures
        crate::schema::spec_required_chunk_tables(vs, n) == 0,
    decreases n,
{
    if n > 0 {
        lemma_no_required_tables(vs, n - 1);
    }
}

fn check_block_sizes(blocks: &Vec<BlockDescriptor>, limits: ResourceLimits) -> (r: Result<()>)
    ensures
        r is Ok <==> forall|j: int| 0 <= j < blocks@.len() ==> #[trigger] blocks@[j].size <= limits.max_index_block_size,
{
    let mut i: usize = 0;
    while i < blocks.len()
        invariant
            i <= blocks@.len(),
            forall|j: int| 0 <= j < i ==> #[trigger] blocks@[j].size <= limits.max_index_block_size,
        decreases blocks@.len() - i,
    {
        if blocks[i].size > limits.max_index_block_size {
            return Err(QztError::ResourceLimitExceeded);
        }
        i = i + 1;
    }
    Ok(())
}

fn select_chunk_table<'a>(index_root: &'a IndexRoot, limits: ResourceLimits) -> (r: Result<&'a BlockDescriptor>)
    requires
        exists|ib: Seq<u8>| spec_index_root_decode_error(ib) is None && spec_index_root_matches(spec_map_item(ib), *index_root),
    ensures
        forall|ib: Seq<u8>| spec_index_root_decode_error(ib) is None && #[trigger] spec_index_root_matches(spec_map_item(ib), *index_root) ==> {
            let vs = spec_blocks_of(spec_map_item(ib));
            let t = vs[spec_table_index(vs)];
            match r {
                Ok(d) => spec_desc_text(t, "codec"@) == CHUNK_TABLE_CODEC@
                    && !spec_oversized_block(vs, limits.max_index_block_size)
                    && d.offset == spec_desc_u64(t, "offset"@) && d.size == spec_desc_u64(t, "size"@)
                    && d.checksum.value@ == spec_desc_digest(t),
                Err(e) => (spec_desc_text(t, "codec"@) != CHUNK_TABLE_CODEC@ && e == QztError::ChunkTableInvalid)
                    || (spec_desc_text(t, "codec"@) == CHUNK_TABLE_CODEC@ && spec_oversized_block(vs, limits.max_index_block_size)
                        && e == QztError::ResourceLimitExceeded),
            }
        },
{
    let table = match index_root.chunk_table_block() {
        Ok(t) => t,
        Err(e) => {
            proof {
                let ib = choose|ib: Seq<u8>| spec_index_root_decode_error(ib) is None && spec_index_root_matches(spec_map_item(ib), *index_root);
                let vs = spec_blocks_of(spec_map_item(ib));
                assert forall|j: int| 0 <= j < vs.len() implies !crate::schema::spec_is_required_chunk_table(#[trigger] vs[j]) by {
                    assert(crate::schema::spec_descriptor_matches(vs[j], index_root.blocks@[j]));
                }
                lemma_no_required_tables(vs, vs.len() as int);
            }
            return Err(e);
        },
    };
    let ghost k = choose|k: int| 0 <= k < index_root.blocks@.len() && index_root.blocks@[k] == *table
        && table.required && table.block_type@ == "chunk_table"@
        && forall|j: int| 0 <= j < k ==> !(#[trigger] index_root.blocks@[j].required && index_root.blocks@[j].block_type@ == "chunk_table"@);
    proof {
        assert forall|ib: Seq<u8>| spec_index_root_decode_error(ib) is None && #[trigger] spec_index_root_matches(spec_map_item(ib), *index_root)
            implies spec_table_index(spec_blocks_of(spec_map_item(ib))) == k by {
            let vs = spec_blocks_of(spec_map_item(ib));
            assert(crate::schema::spec_descriptor_matches(vs[k], index_root.blocks@[k]));
            assert forall|j: int| 0 <= j < k implies !crate::schema::spec_is_required_chunk_table(#[trigger] vs[j]) by {
                assert(crate::schema::spec_descriptor_matches(vs[j], index_root.blocks@[j]));
            }
            let c = spec_table_index(vs);
            assert(crate::schema::spec_is_required_chunk_table(vs[k]));
            if c < k {
                assert(crate::schema::spec_descriptor_matches(vs[c], index_root.blocks@[c]));
            }
            if c > k {
                assert(!crate::schema::spec_is_required_chunk_table(vs[k]));
            }
        }
    }
    if !text_is(&table.codec, CHUNK_TABLE_CODEC) {
        return Err(QztError::ChunkTableInvalid);
    }
    let sizes = check_block_sizes(&index_root.blocks, limits);
    proof {
        assert forall|ib: Seq<u8>| spec_index_root_decode_error(ib) is None && #[trigger] spec_index_root_matches(spec_map_item(ib), *index_root)
            implies (spec_oversized_block(spec_blocks_of(spec_map_item(ib)), limits.max_index_block_size) <==> sizes is Err) by {
            let vs = spec_blocks_of(spec_map_item(ib));
            if sizes is Err {
                let j = choose|j: int| 0 <= j < index_root.blocks@.len() && #[trigger] index_root.blocks@[j].size > limits.max_index_block_size;
                assert(crate::schema::spec_descriptor_matches(vs[j], index_root.blocks@[j]));
            } else {
                assert forall|j: int| 0 <= j < vs.len() implies spec_desc_u64(#[trigger] vs[j], "size"@) <= limits.max_index_block_size by {
                    assert(crate::schema::spec_descriptor_matches(vs[j], index_root.blocks@[j]));
                }
            }
        }
    }
    if sizes.is_err() {
        return Err(QztError::ResourceLimitExceeded);
    }
    Ok(table)
}

fn check_chunk_sizes(entries: &Vec<ChunkEntry>, limits: ResourceLimits) -> (r: Result<()>)
    ensures
        r is Ok <==> !spec_oversized_chunk(entries@, limits.max_uncompressed_chunk_size),
{
    let mut i: usize = 0;
    while i < entries.len()
        invariant
            i <= entries@.len(),
            forall|j: int| 0 <= j < i ==> #[trigger] entries@[j].uncompressed_size <= limits.max_uncompressed_chunk_size,
        decreases entries@.len() - i,
    {
        if entries[i].uncompressed_size > limits.max_uncompressed_chunk_size {
            assert(spec_oversized_chunk(entries@, limits.max_uncompressed_chunk_size));
            return Err(QztError::ResourceLimitExceeded);
        }
        i = i + 1;
    }
    Ok(())
}

fn check_chunk_table(
    b: &[u8],
    table: &BlockDescriptor,
    index_root: &IndexRoot,
    limits: ResourceLimits,
) -> (r: Result<Vec<ChunkEntry>>)
    ensures
        match (r, spec_chunk_table_check(b@, table.checksum.value@, index_root.chunk_count, index_root.original_size, index_root.line_count, limits)) {
            (Ok(es), Ok(ses)) => es@ == ses,
            (Err(e), Err(se)) => e == se,
            _ => false,
        },
{
    let actual = Checksum::blake3(b);
    if !bytes_equal(&actual.value, &table.checksum.value) {
        return Err(QztError::ChunkTableChecksumMismatch);
    }
    let entries = match validate_chunk_table_block(b, index_root.chunk_count, index_root.original_size, index_root.line_count) {
        Ok(es) => es,
        Err(e) => {
            proof {
                if !(b@.len() % 128 != 0 && e == QztError::ChunkTableInvalid) {
                    let es = choose|es: Seq<ChunkEntry>| entries_decoded_from(es, b@) && spec_chunk_table_error(
                        b@, index_root.chunk_count, index_root.original_size, index_root.line_count, es) == Some(e);
                    lemma_entries_of_unique(es, b@);
                }
            }
            return Err(e);
        },
    };
    proof {
        lemma_entries_of_unique(entries@, b@);
    }
    if check_chunk_sizes(&entries, limits).is_err() {
        return Err(QztError::ResourceLimitExceeded);
    }
    Ok(entries)
}

proof fn lemma_dictionaries_distinct(vs: Seq<CborItem>, n: int, max: u64)
    requires
        0 <= n <= vs.len(),
        crate::schema::spec_dictionaries_error(vs, n, max) is None,
    ensures
        forall|i: int, j: int| 0 <= i < j < n ==> spec_dict_id(#[trigger] vs[i]) != spec_dict_id(#[trigger] vs[j]),
    decreases n,
{
    if n > 0 {
        lemma_dictionaries_distinct(vs, n - 1, max);
        assert(!crate::schema::spec_dictionary_id_repeats(vs, n - 1));
        assert forall|i: int, j: int| 0 <= i < j < n implies spec_dict_id(#[trigger] vs[i]) != spec_dict_id(#[trigger] vs[j]) by {
            if j == n - 1 {
                if spec_dict_id(vs[i]) == spec_dict_id(vs[j]) {
                    assert(crate::schema::spec_dictionary_id_repeats(vs, n - 1));
                }
            }
        }
    }
}

fn check_dictionary_block(db: &[u8], digest: &[u8; 32], container_id: &[u8; 16], limits: ResourceLimits) -> (r: Result<DictionaryBlock>)
    ensures
        match (r, spec_dictionary_block_check(db@, digest@, container_id@, limits)) {
            (Ok(b), Ok(items)) => b.dictionaries@.len() == items.len()
                && (forall|k: int| 0 <= k < items.len() ==> spec_dictionary_entry_matches(items[k], #[trigger] b.dictionaries@[k]))
                && (forall|i: int, j: int| 0 <= i < j < items.len() ==> spec_dict_id(#[trigger] items[i]) != spec_dict_id(#[trigger] items[j])),
            (Err(e), Err(se)) => e == se,
            _ => false,
        },
{
    check_block(db, digest, QztError::DictionaryChecksumMismatch, limits)?;
    let block = DictionaryBlock::decode_with_limits(db, limits.max_dictionary_size)?;
    if !bytes_equal(&block.container_id, container_id) {
        return Err(QztError::ContainerIdMismatch);
    }
    proof {
        let m = spec_map_item(db@);
        let items = spec_array_of(spec_field(m, "dictionaries"@))->Some_0;
        lemma_dictionaries_distinct(items, items.len() as int, limits.max_dictionary_size);
    }
    Ok(block)
}

fn has_dictionary(dictionaries: &Vec<DictionaryEntry>, id: u32) -> (r: bool)
    ensures
        r == exists|k: int| 0 <= k < dictionaries@.len() && #[trigger] dictionaries@[k].dictionary_id == id,
{
    let mut j: usize = 0;
    while j < dictionaries.len()
        invariant
            j <= dictionaries@.len(),
            forall|k: int| 0 <= k < j ==> #[trigger] dictionaries@[k].dictionary_id != id,
        decreases dictionaries@.len() - j,
    {
        if dictionaries[j].dictionary_id == id {
            return true;
        }
        j = j + 1;
    }
    false
}

fn merge_dictionaries(
    dictionaries: &mut Vec<DictionaryEntry>,
    block: DictionaryBlock,
    Ghost(acc): Ghost<Seq<CborItem>>,
    Ghost(items): Ghost<Seq<CborItem>>,
) -> (r: Result<()>)
    requires
        old(dictionaries)@.len() == acc.len(),
        forall|k: int| 0 <= k < acc.len() ==> spec_dictionary_entry_matches(acc[k], #[trigger] old(dictionaries)@[k]),
        block.dictionaries@.len() == items.len(),
        forall|k: int| 0 <= k < items.len() ==> spec_dictionary_entry_matches(items[k], #[trigger] block.dictionaries@[k]),
    ensures
        r is Ok <==> !spec_ids_collide(acc, items),
        r is Err ==> r == Err::<(), QztError>(QztError::ContainerCorrupt),
        r is Ok ==> final(dictionaries)@.len() == (acc + items).len() && forall|k: int| 0 <= k < (acc + items).len()
            ==> spec_dictionary_entry_matches((acc + items)[k], #[trigger] final(dictionaries)@[k]),
{
    let mut block = block;
    let mut j: usize = 0;
    while j < block.dictionaries.len()
        invariant
            j <= items.len(),
            block.dictionaries@.len() == items.len(),
            dictionaries@.len() == acc.len(),
            forall|k: int| 0 <= k < acc.len() ==> spec_dictionary_entry_matches(acc[k], #[trigger] dictionaries@[k]),
            forall|k: int| 0 <= k < items.len() ==> spec_dictionary_entry_matches(items[k], #[trigger] block.dictionaries@[k]),
            forall|l: int| 0 <= l < j ==> !spec_has_dict_id(acc, #[trigger] spec_dict_id(items[l])),
        decreases items.len() - j,
    {
        let id = block.dictionaries[j].dictionary_id;
        let found = has_dictionary(dictionaries, id);
        proof {
            assert(spec_dictionary_entry_matches(items[j as int], block.dictionaries@[j as int]));
            if found {
                let k = choose|k: int| 0 <= k < dictionaries@.len() && #[trigger] dictionaries@[k].dictionary_id == id;
                assert(spec_dictionary_entry_matches(acc[k], dictionaries@[k]));
                assert(spec_dict_id(acc[k]) == spec_dict_id(items[j as int]));
                assert(spec_has_dict_id(acc, spec_dict_id(items[j as int])));
            } else {
                assert forall|i: int| 0 <= i < acc.len() implies #[trigger] spec_dict_id(acc[i]) != spec_dict_id(items[j as int]) by {
                    assert(spec_dictionary_entry_matches(acc[i], dictionaries@[i]));
                }
            }
        }
        if found {
            return Err(QztError::ContainerCorrupt);
        }
        j = j + 1;
    }
    let ghost before = dictionaries@;
    let ghost added = block.dictionaries@;
    dictionaries.append(&mut block.dictionaries);
    proof {
        assert(dictionaries@ == before + added);
        assert forall|k: int| 0 <= k < (acc + items).len()
            implies spec_dictionary_entry_matches((acc + items)[k], #[trigger] dictionaries@[k]) by {
            if k < acc.len() {
                assert(spec_dictionary_entry_matches(acc[k], before[k]));
            } else {
                assert(spec_dictionary_entry_matches(items[k - acc.len()], added[k - acc.len()]));
            }
        }
    }
    Ok(())
}

proof fn lemma_dictionary_stage_sticks(s: Seq<u8>, limits: ResourceLimits, vs: Seq<CborItem>, m: int, n: int, id: Seq<u8>)
    requires
        0 <= m <= n,
    ensures
        spec_dictionary_stage(s, limits, vs, m, id) is Err ==> spec_dictionary_stage(s, limits, vs, n, id)
            == spec_dictionary_stage(s, limits, vs, m, id),
    decreases n - m,
{
    if m < n {
        lemma_dictionary_stage_sticks(s, limits, vs, m, n - 1, id);
    }
}

proof fn lemma_dense_stage_sticks(s: Seq<u8>, vs: Seq<CborItem>, m: int, n: int, es: Seq<ChunkEntry>)
    requires
        0 <= m <= n,
    ensures
        spec_dense_stage(s, vs, m, es) is Err ==> spec_dense_stage(s, vs, n, es) == spec_dense_stage(s, vs, m, es),
    decreases n - m,
{
    if m < n {
        lemma_dense_stage_sticks(s, vs, m, n - 1, es);
    }
}

proof fn lemma_document_stage_sticks(s: Seq<u8>, limits: ResourceLimits, vs: Seq<CborItem>, m: int, n: int, id: Seq<u8>)
    requires
        0 <= m <= n,
    ensures
        spec_document_stage(s, limits, vs, m, id) is Err ==> spec_document_stage(s, limits, vs, n, id)
            == spec_document_stage(s, limits, vs, m, id),
    decreases n - m,
{
    if m < n {
        lemma_document_stage_sticks(s, limits, vs, m, n - 1, id);
    }
}

/// A read that can fail for a reason of the medium rather than of the bytes.
pub open spec fn spec_io_failure(e: QztError) -> bool {
    e == QztError::UnexpectedEof || e == QztError::ContainerCorrupt || e == QztError::ResourceLimitExceeded
}

/// `content` taken as a file of `len` bytes: cut to `len`, or padded with
/// zeros where the source holds fewer bytes (reads there fail).
pub open spec fn spec_file_bytes(content: Seq<u8>, len: u64) -> Seq<u8> {
    if len <= content.len() {
        content.subrange(0, len as int)
    } else {
        content + Seq::new((len - content.len()) as nat, |i: int| 0u8)
    }
}

/// Where the blocks of a container are read from.
pub(crate) trait BlockSource {
    /// The bytes of the container.
    spec fn spec_bytes(&self) -> Seq<u8>;

    /// Whether every read of a range inside the container succeeds.
    spec fn spec_exact(&self) -> bool;

    fn source_len(&self) -> (n: u64)
        ensures
            n == self.spec_bytes().len(),
    ;

    /// The BLAKE3 digest of the first `end` bytes.
    fn hash_prefix(&self, end: u64) -> (r: Result<[u8; 32]>)
        ensures
            match r {
                Ok(h) => end <= self.spec_bytes().len() && h@ == blake3_digest(self.spec_bytes().subrange(0, end as int)),
                Err(e) => (end > self.spec_bytes().len() && e == QztError::PhysicalRangeOutOfBounds)
                    || (!self.spec_exact() && spec_io_failure(e)),
            },
    ;

    /// The bytes `offset..offset + size`.
    fn fetch(&self, offset: u64, size: u64) -> (r: Result<Vec<u8>>)
        ensures
            match (r, spec_region(self.spec_bytes(), offset, size)) {
                (Ok(b), Ok(sb)) => b@ == sb,
                (Err(e), Err(se)) => e == se || (!self.spec_exact() && spec_io_failure(e)),
                (Err(e), Ok(_)) => !self.spec_exact() && spec_io_failure(e),
                _ => false,
            },
    ;
}

/// A container held in memory.
pub(crate) struct SliceSource<'a> {
    bytes: &'a [u8],
}

impl<'a> BlockSource for SliceSource<'a> {
    closed spec fn spec_bytes(&self) -> Seq<u8> {
        self.bytes@
    }

    closed spec fn spec_exact(&self) -> bool {
        true
    }

    fn source_len(&self) -> (n: u64) {
        self.bytes.len() as u64
    }

    fn hash_prefix(&self, end: u64) -> (r: Result<[u8; 32]>) {
        if end as u128 > self.bytes.len() as u128 {
            return Err(QztError::PhysicalRangeOutOfBounds);
        }
        let prefix = slice_subrange(self.bytes, 0, end as usize);
        Ok(crate::hashing::blake3_hash(prefix))
    }

    fn fetch(&self, offset: u64, size: u64) -> (r: Result<Vec<u8>>) {
        let b = slice_physical(self.bytes, offset, size)?;
        let v = slice_to_vec(b, 0, b.len());
        assert(b@.subrange(0, b@.len() as int) =~= b@);
        Ok(v)
    }
}

/// A container read through positioned reads, taken as `len` bytes long.
pub(crate) struct PositionedSource<'a, R: ReadAt> {
    reader: &'a R,
    len: u64,
}

impl<'a, R: ReadAt> BlockSource for PositionedSource<'a, R> {
    closed spec fn spec_bytes(&self) -> Seq<u8> {
        spec_file_bytes(self.reader.spec_content(), self.len)
    }

    closed spec fn spec_exact(&self) -> bool {
        self.reader.spec_reliable() && self.len <= self.reader.spec_content().len() && self.len <= usize::MAX
    }

    fn source_len(&self) -> (n: u64) {
        self.len
    }

    fn hash_prefix(&self, end: u64) -> (r: Result<[u8; 32]>) {
        hash_physical_range_at(self.reader, self.len, end)
    }

    fn fetch(&self, offset: u64, size: u64) -> (r: Result<Vec<u8>>) {
        read_physical_at(self.reader, self.len, offset, size)
    }
}

/// The in-memory container `bytes` as a block source.
pub(crate) fn slice_source<'a>(bytes: &'a [u8]) -> (r: SliceSource<'a>)
    ensures
        r.spec_bytes() == bytes@,
        r.spec_exact(),
{
    SliceSource { bytes }
}

/// The positioned source `reader`, taken as `len` bytes long, as a block source.
pub(crate) fn positioned_source<'a, R: ReadAt>(reader: &'a R, len: u64) -> (r: PositionedSource<'a, R>)
    ensures
        r.spec_bytes() == spec_file_bytes(reader.spec_content(), len),
        r.spec_exact() == (reader.spec_reliable() && len <= reader.spec_content().len() && len <= usize::MAX),
{
    PositionedSource { reader, len }
}

/// The BLAKE3 digest of the first `end` bytes of a source taken as `len`
/// bytes long, read 64 KiB at a time.
fn hash_physical_range_at<R: ReadAt>(reader: &R, len: u64, end: u64) -> (r: Result<[u8; 32]>)
    ensures
        match r {
            Ok(h) => end <= len && h@ == blake3_digest(spec_file_bytes(reader.spec_content(), len).subrange(0, end as int)),
            Err(e) => (end > len && e == QztError::PhysicalRangeOutOfBounds) || spec_io_failure(e),
        },
        reader.spec_reliable() && len <= reader.spec_content().len() ==> (r matches Err(e) ==> end > len
            && e == QztError::PhysicalRangeOutOfBounds),
{
    if end > len {
        return Err(QztError::PhysicalRangeOutOfBounds);
    }
    let ghost c = reader.spec_content();
    let mut hasher = crate::hashing::hasher_new();
    let mut buffer: Vec<u8> = vec![0u8; 65536];
    let mut offset: u64 = 0;
    while offset < end
        invariant
            offset <= end <= len,
            buffer@.len() == 65536,
            c == reader.spec_content(),
            offset > 0 ==> offset <= c.len(),
            crate::hashing::hasher_input(hasher) == c.subrange(0, offset as int),
        decreases end - offset,
    {
        let remaining = end - offset;
        let read_len: usize = if remaining < 65536 { remaining as usize } else { 65536 };
        let (piece, _) = buffer.as_mut_slice().split_at_mut(read_len);
        read_exact_at_qzt(reader, offset, piece)?;
        crate::hashing::hasher_update(&mut hasher, piece);
        let ghost before = offset;
        offset = offset + read_len as u64;
        assert(c.subrange(0, before as int) + c.subrange(before as int, offset as int) =~= c.subrange(0, offset as int));
    }
    proof {
        if len <= c.len() {
            assert(spec_file_bytes(c, len).subrange(0, end as int) =~= c.subrange(0, end as int));
        } else if end > 0 {
            assert(spec_file_bytes(c, len).subrange(0, end as int) =~= c.subrange(0, end as int));
        } else {
            assert(spec_file_bytes(c, len).subrange(0, end as int) =~= c.subrange(0, end as int));
        }
    }
    Ok(crate::hashing::hasher_finalize(&hasher))
}

/// The BLAKE3 digest of bytes `start..end` of a source taken as `len` bytes
/// long, read 64 KiB at a time.
pub(crate) fn hash_span_at<R: ReadAt>(reader: &R, len: u64, start: u64, end: u64) -> (r: Result<[u8; 32]>)
    ensures
        match r {
            Ok(h) => start <= end <= len && h@ == blake3_digest(spec_file_bytes(reader.spec_content(), len).subrange(start as int, end as int))
                && (start < end ==> end <= reader.spec_content().len()),
            Err(e) => ((end > len || start > end) && e == QztError::PhysicalRangeOutOfBounds) || spec_io_failure(e),
        },
        reader.spec_reliable() && len <= reader.spec_content().len() ==> (r matches Err(e) ==> (end > len || start > end)
            && e == QztError::PhysicalRangeOutOfBounds),
{
    if end > len || start > end {
        return Err(QztError::PhysicalRangeOutOfBounds);
    }
    let ghost c = reader.spec_content();
    let mut hasher = crate::hashing::hasher_new();
    let mut buffer: Vec<u8> = vec![0u8; 65536];
    let mut offset: u64 = start;
    while offset < end
        invariant
            start <= offset <= end <= len,
            buffer@.len() == 65536,
            c == reader.spec_content(),
            offset > start ==> offset <= c.len(),
            offset > start ==> crate::hashing::hasher_input(hasher) == c.subrange(start as int, offset as int),
            offset == start ==> crate::hashing::hasher_input(hasher) == Seq::<u8>::empty(),
        decreases end - offset,
    {
        let remaining = end - offset;
        let read_len: usize = if remaining < 65536 { remaining as usize } else { 65536 };
        let (piece, _) = buffer.as_mut_slice().split_at_mut(read_len);
        read_exact_at_qzt(reader, offset, piece)?;
        crate::hashing::hasher_update(&mut hasher, piece);
        let ghost before = offset;
        offset = offset + read_len as u64;
        proof {
            if before == start {
                assert(Seq::<u8>::empty() + c.subrange(before as int, offset as int) =~= c.subrange(start as int, offset as int));
            } else {
                assert(c.subrange(start as int, before as int) + c.subrange(before as int, offset as int) =~= c.subrange(start as int, offset as int));
            }
        }
    }
    proof {
        if start < end {
            assert(end <= c.len());
            assert(spec_file_bytes(c, len).subrange(start as int, end as int) =~= c.subrange(start as int, end as int));
        } else {
            assert(spec_file_bytes(c, len).subrange(start as int, end as int) =~= Seq::<u8>::empty());
        }
    }
    Ok(crate::hashing::hasher_finalize(&hasher))
}

/// Reads `offset..offset + size` of a source taken as `len` bytes long.
fn read_physical_at<R: ReadAt>(reader: &R, len: u64, offset: u64, size: u64) -> (r: Result<Vec<u8>>)
    ensures
        match (r, spec_region(spec_file_bytes(reader.spec_content(), len), offset, size)) {
            (Ok(b), Ok(sb)) => b@ == sb && offset + size <= reader.spec_content().len(),
            (Err(e), Err(se)) => e == se || spec_io_failure(e),
            (Err(e), Ok(_)) => spec_io_failure(e),
            _ => false,
        },
        reader.spec_reliable() && len <= reader.spec_content().len() && len <= usize::MAX
            ==> match (r, spec_region(spec_file_bytes(reader.spec_content(), len), offset, size)) {
                (Err(e), Err(se)) => e == se,
                (Err(_), Ok(_)) => false,
                _ => true,
            },
{
    let end = crate::primitives::checked_physical_end(offset, size)?;
    if end > len {
        return Err(QztError::PhysicalRangeOutOfBounds);
    }
    if size as u128 > usize::MAX as u128 {
        return Err(QztError::ResourceLimitExceeded);
    }
    let mut bytes: Vec<u8> = vec![0u8; size as usize];
    read_exact_at_qzt(reader, offset, bytes.as_mut_slice())?;
    proof {
        let c = reader.spec_content();
        if len <= c.len() {
            assert(spec_file_bytes(c, len).subrange(offset as int, offset + size) =~= c.subrange(offset as int, offset + size));
        } else {
            assert(spec_file_bytes(c, len).subrange(offset as int, offset + size) =~= c.subrange(offset as int, offset + size));
        }
    }
    Ok(bytes)
}

/// A positioned read; a short read is `UnexpectedEof`, any other failure
/// `ContainerCorrupt`.
pub(crate) fn read_exact_at_qzt<R: ReadAt>(reader: &R, offset: u64, buf: &mut [u8]) -> (r: Result<()>)
    ensures
        final(buf)@.len() == old(buf)@.len(),
        r is Ok ==> offset + old(buf)@.len() <= reader.spec_content().len() && final(buf)@
            == reader.spec_content().subrange(offset as int, offset + old(buf)@.len()),
        r matches Err(e) ==> e == QztError::UnexpectedEof || e == QztError::ContainerCorrupt,
        reader.spec_reliable() && offset + old(buf)@.len() <= reader.spec_content().len() ==> r is Ok,
{
    match reader.read_exact_at(offset, buf) {
        Ok(()) => Ok(()),
        Err(error) => if is_unexpected_eof(&error) {
            Err(QztError::UnexpectedEof)
        } else {
            Err(QztError::ContainerCorrupt)
        },
    }
}

fn slice_physical(bytes: &[u8], offset: u64, size: u64) -> (r: Result<&[u8]>)
    ensures
        match (r, spec_region(bytes@, offset, size)) {
            (Ok(b), Ok(sb)) => b@ == sb,
            (Err(e), Err(se)) => e == se,
            _ => false,
        },
{
    let end = crate::primitives::checked_physical_end(offset, size)?;
    if end as u128 > bytes.len() as u128 {
        return Err(QztError::PhysicalRangeOutOfBounds);
    }
    let start = offset as usize;
    let stop = end as usize;
    Ok(slice_subrange(bytes, start, stop))
}

pub(crate) fn slice_subrange(bytes: &[u8], start: usize, stop: usize) -> (r: &[u8])
    requires
        start <= stop <= bytes@.len(),
    ensures
        r@ == bytes@.subrange(start as int, stop as int),
{
    let (head, _) = bytes.split_at(stop);
    let (_, mid) = head.split_at(start);
    assert(mid@ =~= bytes@.subrange(start as int, stop as int));
    mid
}

fn parse_dictionary_blocks<S: BlockSource>(
    src: &S,
    index_root: &IndexRoot,
    container_id: &[u8; 16],
    limits: ResourceLimits,
    Ghost(vs): Ghost<Seq<CborItem>>,
) -> (r: Result<Vec<DictionaryEntry>>)
    requires
        vs.len() == index_root.blocks@.len(),
        forall|k: int| 0 <= k < vs.len() ==> crate::schema::spec_descriptor_matches(vs[k], #[trigger] index_root.blocks@[k]),
    ensures
        match (r, spec_dictionary_stage(src.spec_bytes(), limits, vs, vs.len() as int, container_id@)) {
            (Ok(ds), Ok(items)) => ds@.len() == items.len()
                && forall|k: int| 0 <= k < items.len() ==> spec_dictionary_entry_matches(items[k], #[trigger] ds@[k]),
            (Err(e), Err(se)) => e == se || (!src.spec_exact() && spec_io_failure(e)),
            (Err(e), Ok(_)) => !src.spec_exact() && spec_io_failure(e),
            _ => false,
        },
{
    let mut dictionaries: Vec<DictionaryEntry> = Vec::new();
    let ghost mut acc: Seq<CborItem> = Seq::empty();
    let mut i: usize = 0;
    while i < index_root.blocks.len()
        invariant
            i <= vs.len(),
            vs.len() == index_root.blocks@.len(),
            forall|k: int| 0 <= k < vs.len() ==> crate::schema::spec_descriptor_matches(vs[k], #[trigger] index_root.blocks@[k]),
            spec_dictionary_stage(src.spec_bytes(), limits, vs, i as int, container_id@) == Ok::<Seq<CborItem>, QztError>(acc),
            dictionaries@.len() == acc.len(),
            forall|k: int| 0 <= k < acc.len() ==> spec_dictionary_entry_matches(acc[k], #[trigger] dictionaries@[k]),
        decreases vs.len() - i,
    {
        let descriptor = &index_root.blocks[i];
        assert(crate::schema::spec_descriptor_matches(vs[i as int], index_root.blocks@[i as int]));
        proof {
            lemma_dictionary_stage_sticks(src.spec_bytes(), limits, vs, i + 1, vs.len() as int, container_id@);
        }
        if text_is(&descriptor.block_type, DICTIONARY_TYPE) {
            if descriptor.required || !text_is(&descriptor.codec, DICTIONARY_CODEC) {
                return Err(QztError::ContainerCorrupt);
            }
            limits.enforce_index_block_size(descriptor.size)?;
            let db = src.fetch(descriptor.offset, descriptor.size)?;
            let block = check_dictionary_block(db.as_slice(), &descriptor.checksum.value, container_id, limits)?;
            let ghost items = spec_dictionary_block_check(db@, descriptor.checksum.value@, container_id@, limits)->Ok_0;
            merge_dictionaries(&mut dictionaries, block, Ghost(acc), Ghost(items))?;
            proof {
                acc = acc + items;
            }
        }
        i = i + 1;
    }
    Ok(dictionaries)
}

fn validate_required_dictionaries(
    chunk_entries: &Vec<ChunkEntry>,
    dictionaries: &Vec<DictionaryEntry>,
    Ghost(items): Ghost<Seq<CborItem>>,
) -> (r: Result<()>)
    requires
        dictionaries@.len() == items.len(),
        forall|k: int| 0 <= k < items.len() ==> spec_dictionary_entry_matches(items[k], #[trigger] dictionaries@[k]),
    ensures
        r is Ok <==> !spec_missing_dictionary(chunk_entries@, items),
        r is Err ==> r == Err::<(), QztError>(QztError::MissingDictionary),
{
    let mut i: usize = 0;
    while i < chunk_entries.len()
        invariant
            i <= chunk_entries@.len(),
            dictionaries@.len() == items.len(),
            forall|k: int| 0 <= k < items.len() ==> spec_dictionary_entry_matches(items[k], #[trigger] dictionaries@[k]),
            forall|k: int| 0 <= k < i ==> #[trigger] chunk_entries@[k].dictionary_id == 0
                || spec_has_dict_id(items, Some(chunk_entries@[k].dictionary_id as u64)),
        decreases chunk_entries@.len() - i,
    {
        let id = chunk_entries[i].dictionary_id;
        if id != 0 {
            let found = has_dictionary(dictionaries, id);
            proof {
                if found {
                    let k = choose|k: int| 0 <= k < dictionaries@.len() && #[trigger] dictionaries@[k].dictionary_id == id;
                    assert(spec_dictionary_entry_matches(items[k], dictionaries@[k]));
                    assert(spec_dict_id(items[k]) == Some(id as u64));
                } else {
                    assert forall|k: int| 0 <= k < items.len() implies #[trigger] spec_dict_id(items[k]) != Some(id as u64) by {
                        assert(spec_dictionary_entry_matches(items[k], dictionaries@[k]));
                    }
                    assert(chunk_entries@[i as int].dictionary_id != 0);
                }
            }
            if !found {
                return Err(QztError::MissingDictionary);
            }
        }
        i = i + 1;
    }
    Ok(())
}

fn check_dense_block(b: &[u8], digest: &[u8; 32], chunk_entries: &Vec<ChunkEntry>) -> (r: Result<DenseLineIndex>)
    ensures
        match r {
            Ok(index) => blake3_digest(b@) == digest@
                && spec_decode_dense(b@, chunk_entries@, 268435456) == Ok::<Seq<(u64, Seq<u64>)>, QztError>(index@),
            Err(e) => (blake3_digest(b@) != digest@ && e == QztError::ChunkTableChecksumMismatch)
                || (blake3_digest(b@) == digest@ && (spec_decode_dense(b@, chunk_entries@, 268435456)
                    == Err::<Seq<(u64, Seq<u64>)>, QztError>(e) || e == QztError::ResourceLimitExceeded)),
        },
{
    let actual = Checksum::blake3(b);
    if !bytes_equal(&actual.value, digest) {
        return Err(QztError::ChunkTableChecksumMismatch);
    }
    DenseLineIndex::decode_for_chunks(b, chunk_entries.as_slice())
}

fn check_document_block(b: &[u8], digest: &[u8; 32], container_id: &[u8; 16], limits: ResourceLimits) -> (r: Result<DocumentIndex>)
    ensures
        match r {
            Ok(d) => spec_document_block_check(b@, digest@, container_id@, limits) is None
                && spec_document_index_holds(b@, d),
            Err(e) => spec_document_block_check(b@, digest@, container_id@, limits) == Some(e),
        },
{
    check_block(b, digest, QztError::ContainerCorrupt, limits)?;
    let block = DocumentIndex::decode(b)?;
    if !bytes_equal(&block.container_id, container_id) {
        return Err(QztError::ContainerIdMismatch);
    }
    Ok(block)
}

/// A nonempty range that passes the physical range checks of a file of
/// `size` bytes ends before the trailer.
proof fn lemma_checked_range_before_trailer(size: u64, rs: Seq<PhysicalRange>)
    requires
        rs.len() >= 3,
        spec_validate_physical_ranges(size, rs) is Ok,
        rs[2].size > 0,
    ensures
        size >= 192,
        rs[2].offset + rs[2].size <= size - 64,
{
    let r1 = rs.drop_first();
    let r2 = r1.drop_first();
    assert(crate::fixed::spec_first_range_error(size, rs) is None);
    assert(crate::fixed::spec_range_error(size, rs[0]) is None);
    assert(crate::fixed::spec_first_range_error(size, r1) is None);
    assert(crate::fixed::spec_range_error(size, r1[0]) is None);
    assert(crate::fixed::spec_first_range_error(size, r2) is None);
    assert(crate::fixed::spec_range_error(size, r2[0]) is None);
    assert(r2[0] == rs[2]);
}

/// The footer payload of a container whose head checks is not empty.
proof fn lemma_footer_nonempty(s: Seq<u8>, limits: ResourceLimits)
    requires
        spec_head_error(s, limits) is None,
    ensures
        le64_at(spec_trailer_region(s), 24) > 0,
{
    let t = spec_trailer_region(s);
    let fb = spec_region(s, le64_at(t, 16), le64_at(t, 24))->Ok_0;
    if le64_at(t, 24) == 0 {
        assert(fb.len() == 0);
        assert(spec_validate(fb, spec_cbor_limits(limits)) is Err);
    }
}

/// In a container that opens, the footer payload starts before the trailer.
#[verifier::rlimit(100)]
#[verifier::spinoff_prover]
pub proof fn lemma_footer_before_trailer(s: Seq<u8>, limits: ResourceLimits, d: SkeletonDetails)
    requires
        spec_skeleton_error(s, limits) is None,
        spec_skeleton_holds(s, limits, d),
    ensures
        s.len() >= 192,
        d.footer_payload_offset <= s.len() - 64,
{
    let mi = spec_index_root_map(s);
    assert(spec_head_error(s, limits) is None);
    assert(spec_chunk_table_stage(s, limits, mi) is Ok);
    let es = spec_chunk_table_stage(s, limits, mi)->Ok_0;
    let rs = spec_layout(s, es);
    assert(spec_validate_physical_ranges(s.len() as u64, rs) is Ok);
    lemma_footer_nonempty(s, limits);
    assert(rs[2].size == le64_at(spec_trailer_region(s), 24));
    lemma_checked_range_before_trailer(s.len() as u64, rs);
    assert(d.footer_payload_offset == le64_at(spec_trailer_region(s), 16));
}

/// Besides the errors the skeleton checks name, opening fails with
/// `ResourceLimitExceeded` only when the memory for a dense line index is
/// refused: the head checks passed and a dense line index block is listed.
pub open spec fn spec_open_failure(s: Seq<u8>, limits: ResourceLimits, e: QztError) -> bool {
    ||| spec_skeleton_error(s, limits) == Some(e)
    ||| (e == QztError::ResourceLimitExceeded && spec_head_error(s, limits) is None && !spec_no_dense_block(s))
}

/// No block descriptor of container `s` is a dense line index.
pub open spec fn spec_no_dense_block(s: Seq<u8>) -> bool {
    let vs = spec_blocks_of(spec_index_root_map(s));
    forall|j: int| 0 <= j < vs.len() ==> spec_desc_text(#[trigger] vs[j], "type"@) != DENSE_LINE_INDEX_TYPE@
}

fn parse_dense_line_index<S: BlockSource>(
    src: &S,
    index_root: &IndexRoot,
    chunk_entries: &Vec<ChunkEntry>,
    Ghost(vs): Ghost<Seq<CborItem>>,
) -> (r: Result<Option<DenseLineIndex>>)
    requires
        vs.len() == index_root.blocks@.len(),
        forall|k: int| 0 <= k < vs.len() ==> crate::schema::spec_descriptor_matches(vs[k], #[trigger] index_root.blocks@[k]),
    ensures
        match (r, spec_dense_stage(src.spec_bytes(), vs, vs.len() as int, chunk_entries@)) {
            (Ok(None), Ok(None)) => true,
            (Ok(Some(d)), Ok(Some(x))) => d@ == x,
            (Err(e), Err(se)) => e == se || e == QztError::ResourceLimitExceeded || (!src.spec_exact() && spec_io_failure(e)),
            (Err(e), _) => e == QztError::ResourceLimitExceeded || (!src.spec_exact() && spec_io_failure(e)),
            _ => false,
        },
        (forall|j: int| 0 <= j < vs.len() ==> spec_desc_text(#[trigger] vs[j], "type"@) != DENSE_LINE_INDEX_TYPE@) ==> r is Ok,
{
    let mut dense: Option<DenseLineIndex> = None;
    let mut i: usize = 0;
    while i < index_root.blocks.len()
        invariant
            i <= vs.len(),
            vs.len() == index_root.blocks@.len(),
            forall|k: int| 0 <= k < vs.len() ==> crate::schema::spec_descriptor_matches(vs[k], #[trigger] index_root.blocks@[k]),
            match (dense, spec_dense_stage(src.spec_bytes(), vs, i as int, chunk_entries@)) {
                (None, Ok(None)) => true,
                (Some(d), Ok(Some(x))) => d@ == x,
                _ => false,
            },
        decreases vs.len() - i,
    {
        let descriptor = &index_root.blocks[i];
        assert(crate::schema::spec_descriptor_matches(vs[i as int], index_root.blocks@[i as int]));
        proof {
            lemma_dense_stage_sticks(src.spec_bytes(), vs, i + 1, vs.len() as int, chunk_entries@);
        }
        if text_is(&descriptor.block_type, DENSE_LINE_INDEX_TYPE) {
            if descriptor.required || !text_is(&descriptor.codec, DENSE_LINE_INDEX_CODEC) {
                return Err(QztError::ChunkTableInvalid);
            }
            if dense.is_some() {
                return Err(QztError::ChunkTableInvalid);
            }
            let b = src.fetch(descriptor.offset, descriptor.size)?;
            let index = check_dense_block(b.as_slice(), &descriptor.checksum.value, chunk_entries)?;
            dense = Some(index);
        }
        i = i + 1;
    }
    Ok(dense)
}

#[verifier::rlimit(30)]
fn parse_document_index<S: BlockSource>(
    src: &S,
    index_root: &IndexRoot,
    container_id: &[u8; 16],
    limits: ResourceLimits,
    Ghost(vs): Ghost<Seq<CborItem>>,
) -> (r: Result<Option<DocumentIndex>>)
    requires
        vs.len() == index_root.blocks@.len(),
        forall|k: int| 0 <= k < vs.len() ==> crate::schema::spec_descriptor_matches(vs[k], #[trigger] index_root.blocks@[k]),
    ensures
        match (r, spec_document_stage(src.spec_bytes(), limits, vs, vs.len() as int, container_id@)) {
            (Ok(None), Ok(None)) => true,
            (Ok(Some(d)), Ok(Some(b))) => spec_document_index_holds(b, d),
            (Err(e), Err(se)) => e == se || (!src.spec_exact() && spec_io_failure(e)),
            (Err(e), Ok(_)) => !src.spec_exact() && spec_io_failure(e),
            _ => false,
        },
{
    let mut document_index: Option<DocumentIndex> = None;
    let mut i: usize = 0;
    while i < index_root.blocks.len()
        invariant
            i <= vs.len(),
            vs.len() == index_root.blocks@.len(),
            forall|k: int| 0 <= k < vs.len() ==> crate::schema::spec_descriptor_matches(vs[k], #[trigger] index_root.blocks@[k]),
            match (document_index, spec_document_stage(src.spec_bytes(), limits, vs, i as int, container_id@)) {
                (None, Ok(None)) => true,
                (Some(d), Ok(Some(b))) => spec_document_index_holds(b, d),
                _ => false,
            },
        decreases vs.len() - i,
    {
        let descriptor = &index_root.blocks[i];
        assert(crate::schema::spec_descriptor_matches(vs[i as int], index_root.blocks@[i as int]));
        proof {
            lemma_document_stage_sticks(src.spec_bytes(), limits, vs, i + 1, vs.len() as int, container_id@);
        }
        if text_is(&descriptor.block_type, DOCUMENT_INDEX_TYPE) {
            if descriptor.required || !text_is(&descriptor.codec, DOCUMENT_INDEX_CODEC) {
                return Err(QztError::ContainerCorrupt);
            }
            if document_index.is_some() {
                return Err(QztError::ContainerCorrupt);
            }
            let b = src.fetch(descriptor.offset, descriptor.size)?;
            let block = check_document_block(b.as_slice(), &descriptor.checksum.value, container_id, limits)?;
            document_index = Some(block);
        }
        i = i + 1;
    }
    Ok(document_index)
}

fn push_block_ranges(ranges: &mut Vec<PhysicalRange>, index_root: &IndexRoot, Ghost(vs): Ghost<Seq<CborItem>>)
    requires
        vs.len() == index_root.blocks@.len(),
        forall|k: int| 0 <= k < vs.len() ==> crate::schema::spec_descriptor_matches(vs[k], #[trigger] index_root.blocks@[k]),
    ensures
        final(ranges)@ == old(ranges)@ + spec_block_ranges(vs, vs.len() as int),
{
    let ghost orig = ranges@;
    let mut i: usize = 0;
    while i < index_root.blocks.len()
        invariant
            i <= vs.len(),
            vs.len() == index_root.blocks@.len(),
            forall|k: int| 0 <= k < vs.len() ==> crate::schema::spec_descriptor_matches(vs[k], #[trigger] index_root.blocks@[k]),
            ranges@ == orig + spec_block_ranges(vs, i as int),
        decreases vs.len() - i,
    {
        let block = &index_root.blocks[i];
        assert(crate::schema::spec_descriptor_matches(vs[i as int], index_root.blocks@[i as int]));
        if !text_is(&block.block_type, "metadata") && !text_is(&block.block_type, CHUNK_TABLE_TYPE) {
            ranges.push(PhysicalRange::new(block.offset, block.size));
        }
        assert(ranges@ =~= orig + spec_block_ranges(vs, i + 1));
        i = i + 1;
    }
}

fn push_entry_ranges(ranges: &mut Vec<PhysicalRange>, entries: &Vec<ChunkEntry>)
    ensures
        final(ranges)@ == old(ranges)@ + spec_entry_ranges(entries@),
{
    let ghost orig = ranges@;
    let mut i: usize = 0;
    while i < entries.len()
        invariant
            i <= entries@.len(),
            ranges@ == orig + spec_entry_ranges(entries@).subrange(0, i as int),
        decreases entries@.len() - i,
    {
        ranges.push(PhysicalRange::new(entries[i].physical_offset, entries[i].compressed_size));
        assert(spec_entry_ranges(entries@).subrange(0, i + 1) =~= spec_entry_ranges(entries@).subrange(0, i as int).push(
            PhysicalRange { offset: entries@[i as int].physical_offset, size: entries@[i as int].compressed_size }));
        i = i + 1;
    }
    assert(spec_entry_ranges(entries@).subrange(0, entries@.len() as int) =~= spec_entry_ranges(entries@));
}

/// The parts of the structure read before the chunk table.
struct Head {
    header: Header,
    trailer: FooterTrailer,
    footer_payload: FooterPayload,
    metadata: Metadata,
    index_root: IndexRoot,
}

/// `h` holds the parts of `s` read before the chunk table.
spec fn spec_head_holds(s: Seq<u8>, h: Head) -> bool {
    &&& header_fields_of(h.header, spec_header_region(s))
    &&& trailer_fields_of(h.trailer, spec_trailer_region(s))
    &&& spec_footer_matches(spec_map_item(spec_footer_bytes(s)), h.footer_payload)
    &&& spec_metadata_matches(spec_map_item(spec_metadata_bytes(s)), h.metadata)
    &&& spec_index_root_decode_error(spec_region(s, spec_index_root_ref(s).0, spec_index_root_ref(s).1)->Ok_0) is None
    &&& spec_index_root_matches(spec_index_root_map(s), h.index_root)
}

fn open_frame<S: BlockSource>(src: &S) -> (r: Result<(Header, FooterTrailer)>)
    ensures
        match r {
            Ok((h, t)) => spec_frame_error(src.spec_bytes()) is None && src.spec_bytes().len() >= 192
                && header_fields_of(h, spec_header_region(src.spec_bytes()))
                && trailer_fields_of(t, spec_trailer_region(src.spec_bytes())),
            Err(e) => spec_frame_error(src.spec_bytes()) == Some(e) || (!src.spec_exact() && spec_io_failure(e)),
        },
{
    let len = src.source_len();
    if len < HEADER_LEN as u64 {
        return Err(QztError::InvalidHeader);
    }
    if len < (HEADER_LEN + FOOTER_TRAILER_LEN) as u64 {
        return Err(QztError::InvalidFooterTrailer);
    }
    let header_bytes = src.fetch(0, HEADER_LEN as u64)?;
    let header = Header::decode(header_bytes.as_slice())?;
    let trailer_bytes = src.fetch(len - FOOTER_TRAILER_LEN as u64, FOOTER_TRAILER_LEN as u64)?;
    let trailer = FooterTrailer::decode(trailer_bytes.as_slice())?;
    Ok((header, trailer))
}

fn open_head<S: BlockSource>(src: &S, limits: ResourceLimits) -> (r: Result<Head>)
    ensures
        match r {
            Ok(h) => spec_head_error(src.spec_bytes(), limits) is None && spec_head_holds(src.spec_bytes(), h),
            Err(e) => spec_head_error(src.spec_bytes(), limits) == Some(e) || (!src.spec_exact() && spec_io_failure(e)),
        },
{
    let ghost s = src.spec_bytes();
    let (header, trailer) = open_frame(src)?;
    let final_file_size = src.source_len();
    let footer_bytes = src.fetch(trailer.footer_payload_offset, trailer.footer_payload_size)?;
    let footer_payload = check_footer(footer_bytes.as_slice(), &trailer, &header, final_file_size, limits)?;
    assert(footer_bytes@ == spec_footer_bytes(s));

    limits.enforce_index_block_size(footer_payload.metadata.size)?;
    let metadata_bytes = src.fetch(footer_payload.metadata.offset, footer_payload.metadata.size)?;
    let metadata = check_metadata(metadata_bytes.as_slice(), &footer_payload, &header, limits)?;
    assert(metadata_bytes@ == spec_metadata_bytes(s));

    limits.enforce_index_block_size(footer_payload.index_root.size)?;
    let index_root_bytes = src.fetch(footer_payload.index_root.offset, footer_payload.index_root.size)?;
    let index_root = check_index_root(index_root_bytes.as_slice(), &footer_payload, &metadata, limits)?;
    Ok(Head { header, trailer, footer_payload, metadata, index_root })
}

#[verifier::rlimit(60)]
fn open_structure<S: BlockSource>(src: &S, limits: ResourceLimits) -> (r: Result<SkeletonDetails>)
    ensures
        match r {
            Ok(d) => spec_skeleton_error(src.spec_bytes(), limits) is None && spec_skeleton_holds(src.spec_bytes(), limits, d),
            Err(e) => spec_open_failure(src.spec_bytes(), limits, e) || (!src.spec_exact() && spec_io_failure(e)),
        },
        src.spec_exact() && spec_skeleton_error(src.spec_bytes(), limits) is None && spec_no_dense_block(src.spec_bytes()) ==> r is Ok,
{
    let ghost s = src.spec_bytes();
    let head = open_head(src, limits)?;
    let Head { header, trailer, footer_payload, metadata, index_root } = head;
    let final_file_size = src.source_len();
    let ghost mi = spec_index_root_map(s);
    let ghost vs = spec_blocks_of(mi);

    let table = select_chunk_table(&index_root, limits)?;
    let table_bytes = src.fetch(table.offset, table.size)?;
    let chunk_entries = check_chunk_table(table_bytes.as_slice(), table, &index_root, limits)?;
    assert(chunk_entries@ == spec_chunk_table_stage(s, limits, mi)->Ok_0);

    let mut ranges: Vec<PhysicalRange> = Vec::new();
    ranges.push(PhysicalRange::new(header.metadata_offset, header.metadata_size));
    ranges.push(PhysicalRange::new(footer_payload.index_root.offset, footer_payload.index_root.size));
    ranges.push(PhysicalRange::new(trailer.footer_payload_offset, trailer.footer_payload_size));
    ranges.push(PhysicalRange::new(table.offset, table.size));
    push_block_ranges(&mut ranges, &index_root, Ghost(vs));
    push_entry_ranges(&mut ranges, &chunk_entries);
    assert(ranges@ =~= spec_layout(s, chunk_entries@));
    validate_physical_ranges(final_file_size, ranges.as_slice())?;

    let dictionaries = parse_dictionary_blocks(src, &index_root, &header.container_id, limits, Ghost(vs))?;
    let ghost items = spec_dictionary_stage(s, limits, vs, vs.len() as int, header.container_id@)->Ok_0;
    validate_required_dictionaries(&chunk_entries, &dictionaries, Ghost(items))?;
    let dense_line_index = parse_dense_line_index(src, &index_root, &chunk_entries, Ghost(vs))?;
    let document_index = parse_document_index(src, &index_root, &header.container_id, limits, Ghost(vs))?;

    Ok(SkeletonDetails {
        summary: SkeletonSummary {
            container_id: header.container_id,
            original_size: index_root.original_size,
            chunk_count: index_root.chunk_count,
            line_count: index_root.line_count,
        },
        chunk_entries,
        metadata,
        footer_payload,
        footer_payload_offset: trailer.footer_payload_offset,
        dictionaries,
        dense_line_index,
        document_index,
    })
}

/// Opens a QZT skeleton and returns structural details with explicit resource
/// limits: the fixed frame, the footer payload, metadata and index root (each
/// checksummed and deterministic CBOR within the limits), the chunk table, the
/// physical layout, and the optional dictionary, dense line and document index
/// blocks. A refused reservation for the dense line index also fails with
/// `ResourceLimitExceeded`.
pub fn open_skeleton_details_with_limits(bytes: &[u8], limits: ResourceLimits) -> (r: Result<SkeletonDetails>)
    ensures
        match r {
            Ok(d) => spec_skeleton_error(bytes@, limits) is None && spec_skeleton_holds(bytes@, limits, d),
            Err(e) => spec_open_failure(bytes@, limits, e),
        },
        spec_skeleton_error(bytes@, limits) is None && spec_no_dense_block(bytes@) ==> r is Ok,
{
    open_structure(&slice_source(bytes), limits)
}

/// Opens structural details with the default resource limits.
pub fn open_skeleton_details(bytes: &[u8]) -> (r: Result<SkeletonDetails>)
    ensures
        match r {
            Ok(d) => spec_skeleton_error(bytes@, spec_default_resource_limits()) is None
                && spec_skeleton_holds(bytes@, spec_default_resource_limits(), d),
            Err(e) => spec_open_failure(bytes@, spec_default_resource_limits(), e),
        },
        spec_skeleton_error(bytes@, spec_default_resource_limits()) is None && spec_no_dense_block(bytes@) ==> r is Ok,
{
    open_skeleton_details_with_limits(bytes, ResourceLimits::default())
}

/// Opens a QZT skeleton through Footer Payload, Metadata, Index Root, and Chunk Table validation.
pub fn open_skeleton(bytes: &[u8]) -> (r: Result<SkeletonSummary>)
    ensures
        match r {
            Ok(summary) => spec_skeleton_error(bytes@, spec_default_resource_limits()) is None
                && exists|d: SkeletonDetails| spec_skeleton_holds(bytes@, spec_default_resource_limits(), d)
                    && d.summary == summary,
            Err(e) => spec_open_failure(bytes@, spec_default_resource_limits(), e),
        },
        spec_skeleton_error(bytes@, spec_default_resource_limits()) is None && spec_no_dense_block(bytes@) ==> r is Ok,
{
    let details = open_skeleton_details(bytes)?;
    Ok(details.summary)
}

/// Opens structural details from a positioned reader without reading chunk
/// data, taking the source as `final_file_size` bytes long. Besides the errors
/// of the in-memory opener, a short read fails with `UnexpectedEof` and any
/// other failed read with `ContainerCorrupt`.
pub fn open_skeleton_details_read_at<R: ReadAt>(
    reader: &R,
    final_file_size: u64,
    limits: ResourceLimits,
) -> (r: Result<SkeletonDetails>)
    ensures
        match r {
            Ok(d) => spec_skeleton_error(spec_file_bytes(reader.spec_content(), final_file_size), limits) is None
                && spec_skeleton_holds(spec_file_bytes(reader.spec_content(), final_file_size), limits, d),
            Err(e) => spec_skeleton_error(spec_file_bytes(reader.spec_content(), final_file_size), limits) == Some(e)
                || spec_io_failure(e),
        },
        reader.spec_reliable() && final_file_size <= reader.spec_content().len() && final_file_size <= usize::MAX
            ==> (r matches Err(e) ==> spec_open_failure(spec_file_bytes(reader.spec_content(), final_file_size), limits, e)),
        reader.spec_reliable() && final_file_size <= reader.spec_content().len() && final_file_size <= usize::MAX
            && spec_skeleton_error(spec_file_bytes(reader.spec_content(), final_file_size), limits) is None
            && spec_no_dense_block(spec_file_bytes(reader.spec_content(), final_file_size)) ==> r is Ok,
{
    open_structure(&positioned_source(reader, final_file_size), limits)
}

/// The footer payload that records `final_file_size` for the given references.
pub open spec fn spec_footer_candidate(
    container_id: [u8; 16],
    index_root: BlockRef,
    metadata: BlockRef,
    final_file_size: u64,
    container_checksum: Option<Checksum>,
) -> FooterPayload {
    FooterPayload { container_id, index_root, metadata, final_file_size, footer_flags: 0, container_checksum }
}

/// The size of the file that ends with the footer payload recording `size`
/// at `footer_payload_offset`, followed by the trailer.
pub open spec fn spec_footer_next_size(
    container_id: [u8; 16],
    index_root: BlockRef,
    metadata: BlockRef,
    footer_payload_offset: u64,
    container_checksum: Option<Checksum>,
    size: u64,
) -> Result<int> {
    match spec_encode_det(spec_footer_item(spec_footer_candidate(container_id, index_root, metadata, size, container_checksum))) {
        Ok(b) => Ok(footer_payload_offset + b.len() + 64),
        Err(e) => Err(e),
    }
}

/// The footer payload found by starting from a recorded size of `size` and
/// replacing it by the size of the file it gives, until the two agree, for
/// at most `rounds` rounds: an encoding failure, a size past `u64` or no
/// agreement within the rounds is an error.
pub open spec fn spec_footer_fixed_point(
    container_id: [u8; 16],
    index_root: BlockRef,
    metadata: BlockRef,
    footer_payload_offset: u64,
    container_checksum: Option<Checksum>,
    size: u64,
    rounds: nat,
) -> Result<FooterPayload>
    decreases rounds,
{
    if rounds == 0 {
        Err(QztError::ContainerCorrupt)
    } else {
        match spec_footer_next_size(container_id, index_root, metadata, footer_payload_offset, container_checksum, size) {
            Err(e) => Err(e),
            Ok(next) => if next > u64::MAX {
                Err(QztError::PhysicalRangeOutOfBounds)
            } else if next == size {
                Ok(spec_footer_candidate(container_id, index_root, metadata, size, container_checksum))
            } else {
                spec_footer_fixed_point(container_id, index_root, metadata, footer_payload_offset, container_checksum,
                    next as u64, (rounds - 1) as nat)
            },
        }
    }
}

/// The footer payload for the given references that records the size of the
/// file it ends: the file is the bytes before `footer_payload_offset`, the
/// payload's encoding, and the 64-byte trailer. The payload's size depends on
/// the recorded file size, so the size is iterated to a fixed point, at most
/// eight times.
pub(crate) fn fixed_point_footer_payload(
    container_id: [u8; 16],
    index_root: &BlockRef,
    metadata: &BlockRef,
    footer_payload_offset: u64,
    container_checksum: Option<&Checksum>,
) -> (r: Result<FooterPayload>)
    ensures
        r matches Ok(f) ==> {
            &&& f.container_id == container_id
            &&& f.index_root == *index_root
            &&& f.metadata == *metadata
            &&& f.footer_flags == 0
            &&& f.container_checksum == match container_checksum {
                Some(c) => Some(*c),
                None => None::<Checksum>,
            }
            &&& spec_encode_det(spec_footer_item(f)) is Ok
            &&& f.final_file_size == footer_payload_offset + spec_encode_det(spec_footer_item(f))->Ok_0.len() + 64
        },
        r == spec_footer_fixed_point(container_id, *index_root, *metadata, footer_payload_offset,
            match container_checksum { Some(c) => Some(*c), None => None::<Checksum> }, 0, 8),
{
    let ghost cc = match container_checksum { Some(c) => Some(*c), None => None::<Checksum> };
    let mut final_file_size: u64 = 0;
    let mut round: usize = 0;
    while round < 8
        invariant
            round <= 8,
            cc == match container_checksum { Some(c) => Some(*c), None => None::<Checksum> },
            spec_footer_fixed_point(container_id, *index_root, *metadata, footer_payload_offset, cc, 0, 8)
                == spec_footer_fixed_point(container_id, *index_root, *metadata, footer_payload_offset, cc, final_file_size,
                    (8 - round) as nat),
        decreases 8 - round,
    {
        let checksum = match container_checksum {
            Some(c) => Some(copy_checksum(c)),
            None => None,
        };
        let candidate = FooterPayload {
            container_id,
            index_root: copy_block_ref(index_root),
            metadata: copy_block_ref(metadata),
            final_file_size,
            footer_flags: 0,
            container_checksum: checksum,
        };
        assert(candidate == spec_footer_candidate(container_id, *index_root, *metadata, final_file_size, cc));
        let encoded = candidate.encode()?;
        let size = encoded.len() as u64;
        if footer_payload_offset as u128 + size as u128 + FOOTER_TRAILER_LEN as u128 > u64::MAX as u128 {
            return Err(QztError::PhysicalRangeOutOfBounds);
        }
        let next = footer_payload_offset + size + FOOTER_TRAILER_LEN as u64;
        if next == final_file_size {
            return Ok(candidate);
        }
        final_file_size = next;
        round = round + 1;
    }
    Err(QztError::ContainerCorrupt)
}

/// `b` is the container that `write_empty_container` writes for `id`: the
/// header, the metadata of an empty source, an empty chunk table, the index
/// root, the footer payload and the trailer, in that order.
#[verifier::opaque]
pub open spec fn spec_empty_container(b: Seq<u8>, id: Seq<u8>, md: Metadata, root: IndexRoot, f: FooterPayload) -> bool {
    let mb = spec_encode_det(spec_metadata_item(md))->Ok_0;
    let ib = spec_encode_det(spec_index_root_item(root))->Ok_0;
    let fb = spec_encode_det(spec_footer_item(f))->Ok_0;
    let io: int = 128 + mb.len() as int;
    let fo: int = io + ib.len();
    &&& spec_encode_det(spec_metadata_item(md)) is Ok
    &&& spec_encode_det(spec_index_root_item(root)) is Ok
    &&& spec_encode_det(spec_footer_item(f)) is Ok
    &&& crate::schema::spec_metadata_fields(md, id, 0, md.original_checksum, "none"@, 0, 0, 4194304, 16777216,
        "none"@, "core"@, false, false)
    &&& spec_is_blake3_checksum(md.original_checksum, blake3_digest(Seq::<u8>::empty()))
    &&& root.container_id@ == id
    &&& root.blocks@.len() == 1
    &&& crate::schema::spec_descriptor_is(root.blocks@[0], "chunk_table"@, true, "qzt-ctbl-fixed-v1"@, io as u64, 0,
        root.blocks@[0].checksum)
    &&& spec_is_blake3_checksum(root.blocks@[0].checksum, blake3_digest(Seq::<u8>::empty()))
    &&& root.original_size == 0 && root.chunk_count == 0 && root.line_count == 0
    &&& root.original_checksum == md.original_checksum
    &&& f.container_id@ == id
    &&& f.metadata.offset == 128 && f.metadata.size == mb.len()
    &&& spec_is_blake3_checksum(f.metadata.checksum, blake3_digest(mb))
    &&& f.index_root.offset == io && f.index_root.size == ib.len()
    &&& spec_is_blake3_checksum(f.index_root.checksum, blake3_digest(ib))
    &&& f.final_file_size == b.len()
    &&& f.footer_flags == 0 && f.container_checksum is None
    &&& b.len() == fo + fb.len() + 64
    &&& b.subrange(0, 128) == crate::fixed::spec_header_bytes(Header {
        metadata_offset: 128,
        metadata_size: mb.len() as u64,
        index_hint_offset: io as u64,
        container_id: f.container_id,
    })
    &&& b.subrange(128, io) == mb
    &&& b.subrange(io, fo) == ib
    &&& b.subrange(fo, fo + fb.len()) == fb
    &&& b.subrange(fo + fb.len(), b.len() as int) == crate::fixed::spec_trailer_bytes(FooterTrailer {
        footer_payload_offset: fo as u64,
        footer_payload_size: fb.len() as u64,
        footer_payload_checksum_blake3: crate::chunk_table::spec_digest_array(blake3_digest(fb)),
    })
}

/// `b` is an empty container with id `id`, laid out as `write_empty_container` writes it.
pub open spec fn spec_is_empty_container(b: Seq<u8>, id: Seq<u8>) -> bool {
    exists|md: Metadata, root: IndexRoot, f: FooterPayload| #[trigger] spec_empty_container(b, id, md, root, f)
}

/// `md` is the metadata of an empty source with id `id`.
pub open spec fn spec_empty_metadata(id: Seq<u8>, md: Metadata) -> bool {
    &&& crate::schema::spec_metadata_fields(md, id, 0, md.original_checksum, "none"@, 0, 0, 4194304, 16777216,
        "none"@, "core"@, false, false)
    &&& spec_is_blake3_checksum(md.original_checksum, blake3_digest(Seq::<u8>::empty()))
}

/// `root` is the index root of an empty container with id `id` and metadata
/// `md` encoded as `mb`.
pub open spec fn spec_empty_root(id: Seq<u8>, md: Metadata, mb: Seq<u8>, root: IndexRoot) -> bool {
    &&& root.container_id@ == id
    &&& root.blocks@.len() == 1
    &&& crate::schema::spec_descriptor_is(root.blocks@[0], "chunk_table"@, true, "qzt-ctbl-fixed-v1"@, (128 + mb.len()) as u64, 0,
        root.blocks@[0].checksum)
    &&& spec_is_blake3_checksum(root.blocks@[0].checksum, blake3_digest(Seq::<u8>::empty()))
    &&& root.original_size == 0 && root.chunk_count == 0 && root.line_count == 0
    &&& root.original_checksum == md.original_checksum
}

/// `ir` and `mr` are the footer's references to an index root encoded as
/// `ib` right after metadata encoded as `mb`.
pub open spec fn spec_empty_refs(mb: Seq<u8>, ib: Seq<u8>, ir: BlockRef, mr: BlockRef) -> bool {
    &&& mr.offset == 128 && mr.size == mb.len() && spec_is_blake3_checksum(mr.checksum, blake3_digest(mb))
    &&& ir.offset == 128 + mb.len() && ir.size == ib.len() && spec_is_blake3_checksum(ir.checksum, blake3_digest(ib))
}

/// Writing an empty container with id `id` fails with `e`: encoding its
/// metadata, encoding its index root, a size past `u64`, or a footer whose
/// recorded size does not settle.
pub open spec fn spec_empty_container_failure(id: [u8; 16], e: QztError) -> bool {
    exists|md: Metadata| #[trigger] spec_empty_metadata(id@, md) && match spec_encode_det(spec_metadata_item(md)) {
        Err(x) => e == x,
        Ok(mb) => (128 + mb.len() > u64::MAX && e == QztError::PhysicalRangeOutOfBounds)
            || (128 + mb.len() <= u64::MAX && exists|root: IndexRoot| #[trigger] spec_empty_root(id@, md, mb, root)
                && match spec_encode_det(spec_index_root_item(root)) {
                    Err(x) => e == x,
                    Ok(ib) => (128 + mb.len() + ib.len() > u64::MAX && e == QztError::PhysicalRangeOutOfBounds)
                        || (128 + mb.len() + ib.len() <= u64::MAX && exists|ir: BlockRef, mr: BlockRef|
                            #[trigger] spec_empty_refs(mb, ib, ir, mr)
                            && spec_footer_fixed_point(id, ir, mr, (128 + mb.len() + ib.len()) as u64, None, 0, 8)
                                == Err::<FooterPayload, QztError>(e)),
                })
    }
}

/// Writes an empty, structurally valid QZT Core container skeleton.
pub fn write_empty_container(container_id: [u8; 16]) -> (r: Result<Vec<u8>>)
    ensures
        r matches Ok(b) ==> spec_is_empty_container(b@, container_id@),
        r matches Err(e) ==> spec_empty_container_failure(container_id, e),
{
    let metadata = Metadata::empty(container_id);
    proof {
        assert(spec_empty_metadata(container_id@, metadata));
    }
    let metadata_bytes = metadata.encode()?;
    let metadata_offset: u64 = HEADER_LEN as u64;
    let metadata_size = metadata_bytes.len() as u64;
    if metadata_offset as u128 + metadata_size as u128 > u64::MAX as u128 {
        proof {
            assert(spec_empty_container_failure(container_id, QztError::PhysicalRangeOutOfBounds));
        }
        return Err(QztError::PhysicalRangeOutOfBounds);
    }
    let chunk_table_bytes: Vec<u8> = Vec::new();
    let chunk_table_offset = metadata_offset + metadata_size;
    let chunk_table_size: u64 = 0;
    let chunk_table_checksum = Checksum::blake3(chunk_table_bytes.as_slice());
    let index_root = IndexRoot {
        container_id,
        blocks: vec![BlockDescriptor::chunk_table(chunk_table_offset, chunk_table_size, chunk_table_checksum)],
        original_size: metadata.original_size,
        original_checksum: copy_checksum(&metadata.original_checksum),
        chunk_count: 0,
        line_count: metadata.line_count,
    };
    let index_root_bytes = match index_root.encode() {
        Ok(b) => b,
        Err(e) => {
            proof {
                assert(spec_empty_root(container_id@, metadata, metadata_bytes@, index_root));
                assert(spec_empty_container_failure(container_id, e));
            }
            return Err(e);
        },
    };
    let index_root_offset = chunk_table_offset + chunk_table_size;
    let index_root_size = index_root_bytes.len() as u64;
    let index_root_ref = BlockRef {
        offset: index_root_offset,
        size: index_root_size,
        checksum: Checksum::blake3(index_root_bytes.as_slice()),
    };
    let metadata_ref = BlockRef {
        offset: metadata_offset,
        size: metadata_size,
        checksum: Checksum::blake3(metadata_bytes.as_slice()),
    };
    proof {
        assert(spec_empty_root(container_id@, metadata, metadata_bytes@, index_root));
        assert(spec_empty_refs(metadata_bytes@, index_root_bytes@, index_root_ref, metadata_ref));
    }
    if index_root_offset as u128 + index_root_size as u128 > u64::MAX as u128 {
        proof {
            assert(spec_empty_container_failure(container_id, QztError::PhysicalRangeOutOfBounds));
        }
        return Err(QztError::PhysicalRangeOutOfBounds);
    }
    let footer_payload_offset = index_root_offset + index_root_size;
    let footer_payload = match fixed_point_footer_payload(container_id, &index_root_ref, &metadata_ref, footer_payload_offset, None) {
        Ok(f) => f,
        Err(e) => {
            proof {
                assert(spec_empty_container_failure(container_id, e));
            }
            return Err(e);
        },
    };
    let footer_payload_bytes = footer_payload.encode()?;
    let footer_trailer = FooterTrailer {
        footer_payload_offset,
        footer_payload_size: footer_payload_bytes.len() as u64,
        footer_payload_checksum_blake3: Checksum::blake3(footer_payload_bytes.as_slice()).value,
    };
    let header = Header {
        metadata_offset,
        metadata_size,
        index_hint_offset: index_root_offset,
        container_id,
    };
    let header_bytes = header.encode();
    let trailer_bytes = footer_trailer.encode();
    let mut bytes: Vec<u8> = Vec::new();
    extend_bytes(&mut bytes, header_bytes.as_slice());
    extend_bytes(&mut bytes, metadata_bytes.as_slice());
    extend_bytes(&mut bytes, chunk_table_bytes.as_slice());
    extend_bytes(&mut bytes, index_root_bytes.as_slice());
    extend_bytes(&mut bytes, footer_payload_bytes.as_slice());
    extend_bytes(&mut bytes, trailer_bytes.as_slice());
    proof {
        crate::chunk_table::lemma_digest_array_unique(footer_trailer.footer_payload_checksum_blake3, blake3_digest(footer_payload_bytes@));
        let b = bytes@;
        let mb = metadata_bytes@;
        let ib = index_root_bytes@;
        let fb = footer_payload_bytes@;
        let io: int = 128 + mb.len() as int;
        let fo: int = io + ib.len();
        assert(chunk_table_bytes@ =~= Seq::<u8>::empty());
        assert(b.subrange(0, 128) =~= header_bytes@);
        assert(b.subrange(128, io) =~= mb);
        assert(b.subrange(io, fo) =~= ib);
        assert(b.subrange(fo, fo + fb.len()) =~= fb);
        assert(b.subrange(fo + fb.len(), b.len() as int) =~= trailer_bytes@);
        assert(spec_empty_container(b, container_id@, metadata, index_root, footer_payload)) by {
            reveal(spec_empty_container);
        }
        assert(spec_is_empty_container(b, container_id@));
    }
    Ok(bytes)
}

/// The chunk table of an opened container is consistent: its entries tile the
/// original in order, in bytes and in lines.
pub proof fn lemma_opened_table_consistent(s: Seq<u8>, limits: ResourceLimits, d: SkeletonDetails)
    requires
        spec_skeleton_error(s, limits) is None,
        spec_skeleton_holds(s, limits, d),
    ensures
        spec_table_consistent(d.chunk_entries@, d.summary.original_size, d.summary.line_count),
        d.chunk_entries@.len() == d.summary.chunk_count,
{
    let mi = spec_index_root_map(s);
    let vs = spec_blocks_of(mi);
    let t = vs[spec_table_index(vs)];
    let c = spec_content_of(mi);
    let b = spec_region(s, spec_desc_u64(t, "offset"@), spec_desc_u64(t, "size"@))->Ok_0;
    let es = spec_entries_of(b);
    assert(d.chunk_entries@ == es);
    if d.summary.original_size == 0 {
        assert(es.len() == 0);
        assert(es =~= Seq::<ChunkEntry>::empty());
    }
}

} // verus!
