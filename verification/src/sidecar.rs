//! QZI search sidecars: a magic header, a deterministic CBOR manifest that binds
//! the sidecar to one container, and three checksummed payload sections
//! (granule records, term dictionary, delta varint posting lists).

use vstd::prelude::*;
use vstd::bytes::{spec_u32_from_le_bytes, spec_u32_to_le_bytes, spec_u64_from_le_bytes, spec_u64_to_le_bytes};
use crate::bytes_util::{bytes_equal, extend_bytes, slice_to_vec};
use crate::cbor::{
    cbor_entries, cbor_item, cbor_items, encode_deterministic, spec_encode_det, spec_validate, spec_default_limits,
    validate_deterministic, CborItem, CborValue,
};
use crate::error::{QztError, Result};
use crate::primitives::{push_u32_le, push_u64_le, read_u32_le, read_u64_le, u64_to_usize, usize_to_u64};
use crate::schema::{
    as_map, checksum_value, field, required_bool, required_bstr16, required_checksum, required_text,
    required_u64_with_overflow, spec_bool_of, spec_bstr_of, spec_checksum_item, spec_checksum_of, spec_field,
    spec_is_blake3_checksum, spec_map_of, spec_text_of, spec_u64_of, text_is, text_pair, u64_value, Checksum,
};
use crate::search::{
    spec_built_from, NgramIndexBuildOptions, PlannerDecision, RawNgramIndex, RawTokenIndex, SearchGranule, SearchOptions,
    SearchReport, TermDictionaryEntry, TokenIndexBuildOptions,
};
use crate::reader::QztReader;
use vstd::string::StringSliceAdditionalSpecFns;
use crate::hashing::blake3_digest;
use crate::io::ReadAt;
use crate::limits::spec_default_resource_limits;
use crate::reader::QztFileReader;
use crate::skeleton::{spec_file_bytes, spec_skeleton_holds, SkeletonDetails};
use crate::varint::{spec_varuint, spec_read_varuint, read_varuint, write_varuint};

verus! {

/// Magic bytes that open a sidecar.
pub const SIDECAR_MAGIC: [u8; 8] = [0x51, 0x5a, 0x49, 0x53, 0x49, 0x44, 0x45, 0x31];

/// Magic and manifest length.
pub const SIDECAR_HEADER_LEN: usize = 16;

/// Bytes of a granule record that spells out every field.
pub const LEGACY_GRANULE_RECORD_LEN: u64 = 56;

/// Bytes of a line granule record whose identifier and line fields are implied.
pub const COMPACT_LINE_GRANULE_RECORD_LEN: u64 = 20;

/// Layout of the granule section.
#[derive(Debug, Clone, Copy, PartialEq, Eq, Structural)]
pub enum GranuleEncoding {
    LegacyV1,
    LineImpliedV2,
}

/// Layout of the term section.
#[derive(Debug, Clone, Copy, PartialEq, Eq, Structural)]
pub enum TermEncoding {
    LegacyV1,
    CompactV2,
}

/// Sidecar manifest schema version.
#[derive(Debug, Clone, Copy, PartialEq, Eq, Structural)]
pub enum SidecarFormatVersion {
    V1,
    V2,
}

/// The manifest name of a granule layout.
pub open spec fn spec_granule_encoding_name(e: GranuleEncoding) -> Seq<char> {
    match e {
        GranuleEncoding::LegacyV1 => "legacy-v1"@,
        GranuleEncoding::LineImpliedV2 => "line-implied-v2"@,
    }
}

/// The manifest name of a term layout.
pub open spec fn spec_term_encoding_name(e: TermEncoding) -> Seq<char> {
    match e {
        TermEncoding::LegacyV1 => "legacy-v1"@,
        TermEncoding::CompactV2 => "key-posting-varint-v2"@,
    }
}

/// The schema name of a manifest version.
pub open spec fn spec_schema_name(v: SidecarFormatVersion) -> Seq<char> {
    match v {
        SidecarFormatVersion::V1 => "qzt.sidecar.v1"@,
        SidecarFormatVersion::V2 => "qzt.sidecar.v2"@,
    }
}

/// Bytes of one granule record in a layout.
pub open spec fn spec_record_len(e: GranuleEncoding) -> u64 {
    match e {
        GranuleEncoding::LegacyV1 => 56,
        GranuleEncoding::LineImpliedV2 => 20,
    }
}

impl GranuleEncoding {
    /// Bytes of one granule record.
    pub fn record_len(self) -> (r: u64)
        ensures
            r == spec_record_len(self),
    {
        match self {
            GranuleEncoding::LegacyV1 => LEGACY_GRANULE_RECORD_LEN,
            GranuleEncoding::LineImpliedV2 => COMPACT_LINE_GRANULE_RECORD_LEN,
        }
    }

    /// The name this layout has in the manifest.
    pub fn manifest_name(self) -> (r: &'static str)
        ensures
            r@ == spec_granule_encoding_name(self),
    {
        match self {
            GranuleEncoding::LegacyV1 => "legacy-v1",
            GranuleEncoding::LineImpliedV2 => "line-implied-v2",
        }
    }
}

impl TermEncoding {
    /// The name this layout has in the manifest.
    pub fn manifest_name(self) -> (r: &'static str)
        ensures
            r@ == spec_term_encoding_name(self),
    {
        match self {
            TermEncoding::LegacyV1 => "legacy-v1",
            TermEncoding::CompactV2 => "key-posting-varint-v2",
        }
    }
}

impl SidecarFormatVersion {
    /// The schema name of this version.
    pub fn schema_name(self) -> (r: &'static str)
        ensures
            r@ == spec_schema_name(self),
    {
        match self {
            SidecarFormatVersion::V1 => "qzt.sidecar.v1",
            SidecarFormatVersion::V2 => "qzt.sidecar.v2",
        }
    }
}

/// Search sidecar index kind.
#[derive(Debug, Clone, Copy, PartialEq, Eq)]
#[non_exhaustive]
pub enum SidecarIndexKind {
    Token,
    Ngram { n: usize },
}

/// Place and checksum of one payload section, relative to the end of the manifest.
#[derive(Debug, Clone, PartialEq, Eq)]
pub struct SectionRef {
    pub offset: u64,
    pub size: u64,
    pub checksum: Checksum,
}

/// Sidecar manifest: the container it is bound to, the index it holds, and
/// where its sections are.
#[derive(Debug, Clone, PartialEq, Eq)]
pub struct SidecarManifest {
    pub source_container_id: [u8; 16],
    pub source_original_checksum: Checksum,
    pub source_qzt_footer_checksum: Checksum,
    pub index_type: String,
    pub ngram_n: Option<usize>,
    pub complete: bool,
    pub high_df_per_million: u32,
    pub index_size_bytes: u64,
    pub source_size_bytes: u64,
    pub format_version: SidecarFormatVersion,
    pub granule_encoding: GranuleEncoding,
    pub term_encoding: TermEncoding,
    pub granules: SectionRef,
    pub terms: SectionRef,
    pub postings: SectionRef,
}

// ---------------------------------------------------------------------------
// Manifest encoding
// ---------------------------------------------------------------------------

/// The map of a section reference.
pub open spec fn spec_section_item(s: SectionRef) -> CborItem {
    CborItem::Mapping(seq![
        (CborItem::Text("offset"@), CborItem::Int(s.offset as int)),
        (CborItem::Text("size"@), CborItem::Int(s.size as int)),
        (CborItem::Text("checksum"@), spec_checksum_item(s.checksum)),
    ])
}

/// The map a manifest is written as.
pub open spec fn spec_manifest_item(m: SidecarManifest) -> CborItem {
    CborItem::Mapping(seq![
        (CborItem::Text("schema"@), CborItem::Text(spec_schema_name(m.format_version))),
        (CborItem::Text("source_container_id"@), CborItem::Bytes(m.source_container_id@)),
        (CborItem::Text("source_format_version"@), CborItem::Array(seq![CborItem::Int(0), CborItem::Int(1)])),
        (CborItem::Text("source_original_checksum"@), spec_checksum_item(m.source_original_checksum)),
        (CborItem::Text("source_qzt_footer_checksum"@), spec_checksum_item(m.source_qzt_footer_checksum)),
        (CborItem::Text("index_type"@), CborItem::Text(m.index_type@)),
        (CborItem::Text("ngram_n"@), match m.ngram_n {
            None => CborItem::Null,
            Some(v) => CborItem::Int(v as int),
        }),
        (CborItem::Text("complete"@), CborItem::Bool(m.complete)),
        (CborItem::Text("high_df_per_million"@), CborItem::Int(m.high_df_per_million as int)),
        (CborItem::Text("granule_encoding"@), CborItem::Text(spec_granule_encoding_name(m.granule_encoding))),
        (CborItem::Text("term_encoding"@), CborItem::Text(spec_term_encoding_name(m.term_encoding))),
        (CborItem::Text("index_manifest"@), CborItem::Mapping(seq![
            (CborItem::Text("schema"@), CborItem::Text("qzt.search-index.v1"@)),
            (CborItem::Text("kind"@), CborItem::Text(m.index_type@)),
            (CborItem::Text("posting_granularity"@), CborItem::Text("line"@)),
            (CborItem::Text("index_size_bytes"@), CborItem::Int(m.index_size_bytes as int)),
            (CborItem::Text("source_size_bytes"@), CborItem::Int(m.source_size_bytes as int)),
        ])),
        (CborItem::Text("sections"@), CborItem::Mapping(seq![
            (CborItem::Text("granules"@), spec_section_item(m.granules)),
            (CborItem::Text("terms"@), spec_section_item(m.terms)),
            (CborItem::Text("postings"@), spec_section_item(m.postings)),
        ])),
    ])
}

fn section_ref_value(s: &SectionRef) -> (r: CborValue)
    ensures
        r@ == spec_section_item(*s),
{
    let mut es: Vec<(CborValue, CborValue)> = Vec::new();
    es.push(text_pair("offset", u64_value(s.offset)));
    es.push(text_pair("size", u64_value(s.size)));
    es.push(text_pair("checksum", checksum_value(&s.checksum)));
    proof {
        crate::cbor::lemma_cbor_entries_index(es@);
        assert(cbor_entries(es@) =~= spec_section_item(*s)->Mapping_0);
    }
    CborValue::Mapping(es)
}

fn text_value(t: &str) -> (r: CborValue)
    ensures
        r@ == CborItem::Text(t@),
{
    CborValue::Text(t.to_owned())
}

/// Encodes a manifest as deterministic CBOR.
pub fn encode_manifest(m: &SidecarManifest) -> (r: Result<Vec<u8>>)
    ensures
        match (r, spec_encode_det(spec_manifest_item(*m))) {
            (Ok(b), Ok(sb)) => b@ == sb,
            (Err(e), Err(se)) => e == se,
            _ => false,
        },
{
    let mut version: Vec<CborValue> = Vec::new();
    version.push(CborValue::Integer(0));
    version.push(CborValue::Integer(1));
    proof {
        crate::cbor::lemma_cbor_items_index(version@);
        assert(cbor_items(version@) =~= seq![CborItem::Int(0), CborItem::Int(1)]);
    }
    let mut im: Vec<(CborValue, CborValue)> = Vec::new();
    im.push(text_pair("schema", text_value("qzt.search-index.v1")));
    im.push(text_pair("kind", CborValue::Text(m.index_type.clone())));
    im.push(text_pair("posting_granularity", text_value("line")));
    im.push(text_pair("index_size_bytes", u64_value(m.index_size_bytes)));
    im.push(text_pair("source_size_bytes", u64_value(m.source_size_bytes)));
    let mut secs: Vec<(CborValue, CborValue)> = Vec::new();
    secs.push(text_pair("granules", section_ref_value(&m.granules)));
    secs.push(text_pair("terms", section_ref_value(&m.terms)));
    secs.push(text_pair("postings", section_ref_value(&m.postings)));
    let id_bytes = slice_to_vec(&m.source_container_id, 0, 16);
    assert(id_bytes@ =~= m.source_container_id@);
    let ngram = match m.ngram_n {
        None => CborValue::Null,
        Some(v) => CborValue::Integer(v as i128),
    };
    let mut es: Vec<(CborValue, CborValue)> = Vec::new();
    es.push(text_pair("schema", text_value(m.format_version.schema_name())));
    es.push(text_pair("source_container_id", CborValue::Bytes(id_bytes)));
    es.push(text_pair("source_format_version", CborValue::Array(version)));
    es.push(text_pair("source_original_checksum", checksum_value(&m.source_original_checksum)));
    es.push(text_pair("source_qzt_footer_checksum", checksum_value(&m.source_qzt_footer_checksum)));
    es.push(text_pair("index_type", CborValue::Text(m.index_type.clone())));
    es.push(text_pair("ngram_n", ngram));
    es.push(text_pair("complete", CborValue::Bool(m.complete)));
    es.push(text_pair("high_df_per_million", CborValue::Integer(m.high_df_per_million as i128)));
    es.push(text_pair("granule_encoding", text_value(m.granule_encoding.manifest_name())));
    es.push(text_pair("term_encoding", text_value(m.term_encoding.manifest_name())));
    es.push(text_pair("index_manifest", CborValue::Mapping(im)));
    es.push(text_pair("sections", CborValue::Mapping(secs)));
    proof {
        crate::cbor::lemma_cbor_entries_index(im@);
        crate::cbor::lemma_cbor_entries_index(secs@);
        crate::cbor::lemma_cbor_entries_index(es@);
        let sm = spec_manifest_item(*m)->Mapping_0;
        assert(cbor_entries(im@) =~= sm[11].1->Mapping_0);
        assert(cbor_entries(secs@) =~= sm[12].1->Mapping_0);
        assert(es@[11].1@ == sm[11].1);
        assert(es@[12].1@ == sm[12].1);
        assert(es@[2].1@ == sm[2].1);
        assert(es@[6].1@ == sm[6].1);
        assert(cbor_entries(es@) =~= spec_manifest_item(*m)->Mapping_0);
    }
    let value = CborValue::Mapping(es);
    encode_deterministic(&value)
}

// ---------------------------------------------------------------------------
// Manifest decoding
// ---------------------------------------------------------------------------

/// The error an unsigned 64-bit field raises, if any: `ResourceLimitExceeded`
/// above `u64::MAX`, `ContainerCorrupt` when absent or not such an integer.
pub open spec fn spec_u64_field_error(m: Seq<(CborItem, CborItem)>, name: Seq<char>) -> Option<QztError> {
    if spec_u64_of(spec_field(m, name)) is Some {
        None
    } else if spec_field(m, name) matches Some(CborItem::Int(i)) && i > u64::MAX {
        Some(QztError::ResourceLimitExceeded)
    } else {
        Some(QztError::ContainerCorrupt)
    }
}

/// A format version component: an integer that fits 16 bits.
pub open spec fn spec_version_component(v: CborItem) -> Option<int> {
    match v {
        CborItem::Int(i) => if 0 <= i <= 65535 { Some(i) } else { None },
        _ => None,
    }
}

/// The error of the `source_format_version` field: it must be `[0, 1]`.
pub open spec fn spec_version_error(m: Seq<(CborItem, CborItem)>) -> Option<QztError> {
    match spec_field(m, "source_format_version"@) {
        Some(CborItem::Array(vs)) => if vs.len() != 2 {
            Some(QztError::ContainerCorrupt)
        } else if spec_version_component(vs[0]) is None || spec_version_component(vs[1]) is None {
            Some(QztError::ContainerCorrupt)
        } else if spec_version_component(vs[0]) != Some(0int) || spec_version_component(vs[1]) != Some(1int) {
            Some(QztError::UnsupportedVersion)
        } else {
            None
        },
        _ => Some(QztError::ContainerCorrupt),
    }
}

/// The error of the `ngram_n` field: null or a nonnegative integer that fits `usize`.
pub open spec fn spec_ngram_field_error(m: Seq<(CborItem, CborItem)>) -> Option<QztError> {
    match spec_field(m, "ngram_n"@) {
        Some(CborItem::Null) => None,
        Some(CborItem::Int(i)) => if i < 0 {
            Some(QztError::ContainerCorrupt)
        } else if i > usize::MAX {
            Some(QztError::ResourceLimitExceeded)
        } else {
            None
        },
        _ => Some(QztError::ContainerCorrupt),
    }
}

/// The schema version named by the manifest.
pub open spec fn spec_manifest_version(m: Seq<(CborItem, CborItem)>) -> Option<SidecarFormatVersion> {
    if spec_text_of(spec_field(m, "schema"@)) == Some("qzt.sidecar.v1"@) {
        Some(SidecarFormatVersion::V1)
    } else if spec_text_of(spec_field(m, "schema"@)) == Some("qzt.sidecar.v2"@) {
        Some(SidecarFormatVersion::V2)
    } else {
        None
    }
}

/// The granule layout the manifest names; absent means the legacy layout in v1.
pub open spec fn spec_manifest_granule_encoding(m: Seq<(CborItem, CborItem)>, v: SidecarFormatVersion) -> Option<GranuleEncoding> {
    match spec_field(m, "granule_encoding"@) {
        None => if v == SidecarFormatVersion::V1 { Some(GranuleEncoding::LegacyV1) } else { None },
        Some(CborItem::Text(t)) => if t == "legacy-v1"@ {
            Some(GranuleEncoding::LegacyV1)
        } else if t == "line-implied-v2"@ {
            Some(GranuleEncoding::LineImpliedV2)
        } else {
            None
        },
        _ => None,
    }
}

/// The term layout the manifest names; absent means the legacy layout in v1.
pub open spec fn spec_manifest_term_encoding(m: Seq<(CborItem, CborItem)>, v: SidecarFormatVersion) -> Option<TermEncoding> {
    match spec_field(m, "term_encoding"@) {
        None => if v == SidecarFormatVersion::V1 { Some(TermEncoding::LegacyV1) } else { None },
        Some(CborItem::Text(t)) => if t == "legacy-v1"@ {
            Some(TermEncoding::LegacyV1)
        } else if t == "key-posting-varint-v2"@ {
            Some(TermEncoding::CompactV2)
        } else {
            None
        },
        _ => None,
    }
}

/// The error of a section reference under `name` of the sections map.
pub open spec fn spec_section_error(secs: Seq<(CborItem, CborItem)>, name: Seq<char>) -> Option<QztError> {
    match spec_map_of(spec_field(secs, name)) {
        None => Some(QztError::ContainerCorrupt),
        Some(sm) => if spec_u64_field_error(sm, "offset"@) is Some {
            spec_u64_field_error(sm, "offset"@)
        } else if spec_u64_field_error(sm, "size"@) is Some {
            spec_u64_field_error(sm, "size"@)
        } else if spec_checksum_of(spec_field(sm, "checksum"@)) is None {
            Some(QztError::ContainerCorrupt)
        } else {
            None
        },
    }
}

/// The first error decoding a manifest map raises, checked in order.
pub open spec fn spec_manifest_error(m: Seq<(CborItem, CborItem)>) -> Option<QztError> {
    let im = spec_map_of(spec_field(m, "index_manifest"@));
    let secs = spec_map_of(spec_field(m, "sections"@));
    if spec_manifest_version(m) is None {
        Some(QztError::ContainerCorrupt)
    } else if spec_version_error(m) is Some {
        spec_version_error(m)
    } else if spec_bstr_of(spec_field(m, "source_container_id"@), 16) is None {
        Some(QztError::ContainerCorrupt)
    } else if spec_checksum_of(spec_field(m, "source_original_checksum"@)) is None {
        Some(QztError::ContainerCorrupt)
    } else if spec_checksum_of(spec_field(m, "source_qzt_footer_checksum"@)) is None {
        Some(QztError::ContainerCorrupt)
    } else if spec_text_of(spec_field(m, "index_type"@)) is None {
        Some(QztError::ContainerCorrupt)
    } else if spec_ngram_field_error(m) is Some {
        spec_ngram_field_error(m)
    } else if spec_bool_of(spec_field(m, "complete"@)) is None {
        Some(QztError::ContainerCorrupt)
    } else if spec_u64_field_error(m, "high_df_per_million"@) is Some {
        spec_u64_field_error(m, "high_df_per_million"@)
    } else if spec_u64_of(spec_field(m, "high_df_per_million"@))->Some_0 > u32::MAX {
        Some(QztError::ResourceLimitExceeded)
    } else if spec_manifest_granule_encoding(m, spec_manifest_version(m)->Some_0) is None {
        Some(QztError::ContainerCorrupt)
    } else if spec_manifest_term_encoding(m, spec_manifest_version(m)->Some_0) is None {
        Some(QztError::ContainerCorrupt)
    } else if im is None {
        Some(QztError::ContainerCorrupt)
    } else if spec_u64_field_error(im->Some_0, "index_size_bytes"@) is Some {
        spec_u64_field_error(im->Some_0, "index_size_bytes"@)
    } else if spec_u64_field_error(im->Some_0, "source_size_bytes"@) is Some {
        spec_u64_field_error(im->Some_0, "source_size_bytes"@)
    } else if secs is None {
        Some(QztError::ContainerCorrupt)
    } else if spec_section_error(secs->Some_0, "granules"@) is Some {
        spec_section_error(secs->Some_0, "granules"@)
    } else if spec_section_error(secs->Some_0, "terms"@) is Some {
        spec_section_error(secs->Some_0, "terms"@)
    } else if spec_section_error(secs->Some_0, "postings"@) is Some {
        spec_section_error(secs->Some_0, "postings"@)
    } else {
        None
    }
}

/// A section reference holds the values under `name` of the sections map.
pub open spec fn spec_section_matches(secs: Seq<(CborItem, CborItem)>, name: Seq<char>, s: SectionRef) -> bool {
    let sm = spec_map_of(spec_field(secs, name))->Some_0;
    &&& spec_u64_of(spec_field(sm, "offset"@)) == Some(s.offset)
    &&& spec_u64_of(spec_field(sm, "size"@)) == Some(s.size)
    &&& spec_checksum_of(spec_field(sm, "checksum"@)) == Some(s.checksum.value@)
    &&& spec_is_blake3_checksum(s.checksum, s.checksum.value@)
}

/// A manifest holds the values of a manifest map.
pub open spec fn spec_manifest_matches(m: Seq<(CborItem, CborItem)>, man: SidecarManifest) -> bool {
    let im = spec_map_of(spec_field(m, "index_manifest"@))->Some_0;
    let secs = spec_map_of(spec_field(m, "sections"@))->Some_0;
    &&& Some(man.format_version) == spec_manifest_version(m)
    &&& spec_bstr_of(spec_field(m, "source_container_id"@), 16) == Some(man.source_container_id@)
    &&& spec_checksum_of(spec_field(m, "source_original_checksum"@)) == Some(man.source_original_checksum.value@)
    &&& spec_is_blake3_checksum(man.source_original_checksum, man.source_original_checksum.value@)
    &&& spec_checksum_of(spec_field(m, "source_qzt_footer_checksum"@)) == Some(man.source_qzt_footer_checksum.value@)
    &&& spec_is_blake3_checksum(man.source_qzt_footer_checksum, man.source_qzt_footer_checksum.value@)
    &&& spec_text_of(spec_field(m, "index_type"@)) == Some(man.index_type@)
    &&& man.ngram_n == (match spec_field(m, "ngram_n"@) {
        Some(CborItem::Int(i)) => Some(i as usize),
        _ => None,
    })
    &&& spec_bool_of(spec_field(m, "complete"@)) == Some(man.complete)
    &&& spec_u64_of(spec_field(m, "high_df_per_million"@)) == Some(man.high_df_per_million as u64)
    &&& spec_manifest_granule_encoding(m, man.format_version) == Some(man.granule_encoding)
    &&& spec_manifest_term_encoding(m, man.format_version) == Some(man.term_encoding)
    &&& spec_u64_of(spec_field(im, "index_size_bytes"@)) == Some(man.index_size_bytes)
    &&& spec_u64_of(spec_field(im, "source_size_bytes"@)) == Some(man.source_size_bytes)
    &&& spec_section_matches(secs, "granules"@, man.granules)
    &&& spec_section_matches(secs, "terms"@, man.terms)
    &&& spec_section_matches(secs, "postings"@, man.postings)
}

/// What decoding manifest bytes gives: the CBOR error, `ContainerCorrupt` for
/// an item that is not a map, or the first field error.
pub open spec fn spec_manifest_decode_error(bytes: Seq<u8>) -> Option<QztError> {
    match spec_validate(bytes, spec_default_limits()) {
        Err(e) => Some(e),
        Ok(CborItem::Mapping(m)) => spec_manifest_error(m),
        Ok(_) => Some(QztError::ContainerCorrupt),
    }
}

fn version_component(v: &CborValue) -> (r: Result<u16>)
    ensures
        match spec_version_component(v@) {
            Some(i) => r == Ok::<u16, QztError>(i as u16),
            None => r == Err::<u16, QztError>(QztError::ContainerCorrupt),
        },
{
    match v {
        CborValue::Integer(i) => {
            if *i >= 0 && *i <= 65535 {
                Ok(*i as u16)
            } else {
                Err(QztError::ContainerCorrupt)
            }
        },
        _ => Err(QztError::ContainerCorrupt),
    }
}

fn expect_source_format_version(map: &[(CborValue, CborValue)]) -> (r: Result<()>)
    ensures
        match spec_version_error(cbor_entries(map@)) {
            Some(e) => r == Err::<(), QztError>(e),
            None => r is Ok,
        },
{
    match field(map, "source_format_version", QztError::ContainerCorrupt)? {
        CborValue::Array(values) => {
            proof {
                crate::cbor::lemma_cbor_items_index(values@);
            }
            if values.len() != 2 {
                return Err(QztError::ContainerCorrupt);
            }
            let major = version_component(&values[0])?;
            let minor = version_component(&values[1])?;
            if major != 0 || minor != 1 {
                return Err(QztError::UnsupportedVersion);
            }
            Ok(())
        },
        _ => Err(QztError::ContainerCorrupt),
    }
}

fn u64_field(map: &[(CborValue, CborValue)], key: &str) -> (r: Result<u64>)
    ensures
        match spec_u64_field_error(cbor_entries(map@), key@) {
            Some(e) => r == Err::<u64, QztError>(e),
            None => r == Ok::<u64, QztError>(spec_u64_of(spec_field(cbor_entries(map@), key@))->Some_0),
        },
{
    required_u64_with_overflow(map, key, QztError::ContainerCorrupt, QztError::ResourceLimitExceeded)
}

fn section_ref_from(secs: &[(CborValue, CborValue)], key: &str) -> (r: Result<SectionRef>)
    ensures
        match spec_section_error(cbor_entries(secs@), key@) {
            Some(e) => r == Err::<SectionRef, QztError>(e),
            None => r matches Ok(s) && spec_section_matches(cbor_entries(secs@), key@, s),
        },
{
    let section = as_map(field(secs, key, QztError::ContainerCorrupt)?, QztError::ContainerCorrupt)?;
    let offset = u64_field(section, "offset")?;
    let size = u64_field(section, "size")?;
    let checksum = required_checksum(section, "checksum", QztError::ContainerCorrupt)?;
    Ok(SectionRef { offset, size, checksum })
}

fn encoding_text<'a>(map: &'a [(CborValue, CborValue)], key: &str) -> (r: Option<&'a CborValue>)
    ensures
        match r {
            Some(v) => spec_field(cbor_entries(map@), key@) == Some(v@),
            None => spec_field(cbor_entries(map@), key@) is None,
        },
{
    match field(map, key, QztError::ContainerCorrupt) {
        Ok(v) => Some(v),
        Err(_) => None,
    }
}

/// Decodes and checks a manifest.
pub fn decode_manifest(bytes: &[u8]) -> (r: Result<SidecarManifest>)
    ensures
        match spec_manifest_decode_error(bytes@) {
            Some(e) => r == Err::<SidecarManifest, QztError>(e),
            None => r matches Ok(man) && spec_manifest_matches(spec_validate(bytes@, spec_default_limits())->Ok_0->Mapping_0, man),
        },
{
    let value = validate_deterministic(bytes)?;
    let map = as_map(&value, QztError::ContainerCorrupt)?;
    let ghost m = cbor_entries(map@);
    let schema = required_text(map, "schema", QztError::ContainerCorrupt)?;
    let format_version = if text_is(&schema, "qzt.sidecar.v1") {
        SidecarFormatVersion::V1
    } else if text_is(&schema, "qzt.sidecar.v2") {
        SidecarFormatVersion::V2
    } else {
        return Err(QztError::ContainerCorrupt);
    };
    expect_source_format_version(map)?;
    let source_container_id = required_bstr16(map, "source_container_id", QztError::ContainerCorrupt)?;
    let source_original_checksum = required_checksum(map, "source_original_checksum", QztError::ContainerCorrupt)?;
    let source_qzt_footer_checksum = required_checksum(map, "source_qzt_footer_checksum", QztError::ContainerCorrupt)?;
    let index_type = required_text(map, "index_type", QztError::ContainerCorrupt)?;
    let ngram_n: Option<usize> = match field(map, "ngram_n", QztError::ContainerCorrupt)? {
        CborValue::Null => None,
        CborValue::Integer(v) => {
            if *v < 0 {
                return Err(QztError::ContainerCorrupt);
            }
            if *v > usize::MAX as i128 {
                return Err(QztError::ResourceLimitExceeded);
            }
            Some(*v as usize)
        },
        _ => {
            return Err(QztError::ContainerCorrupt);
        },
    };
    let complete = required_bool(map, "complete", QztError::ContainerCorrupt)?;
    let high_df = u64_field(map, "high_df_per_million")?;
    if high_df > u32::MAX as u64 {
        return Err(QztError::ResourceLimitExceeded);
    }
    let granule_encoding = match encoding_text(map, "granule_encoding") {
        None => {
            if format_version == SidecarFormatVersion::V1 {
                GranuleEncoding::LegacyV1
            } else {
                return Err(QztError::ContainerCorrupt);
            }
        },
        Some(CborValue::Text(t)) => {
            if text_is(t, "legacy-v1") {
                GranuleEncoding::LegacyV1
            } else if text_is(t, "line-implied-v2") {
                GranuleEncoding::LineImpliedV2
            } else {
                return Err(QztError::ContainerCorrupt);
            }
        },
        Some(_) => {
            return Err(QztError::ContainerCorrupt);
        },
    };
    let term_encoding = match encoding_text(map, "term_encoding") {
        None => {
            if format_version == SidecarFormatVersion::V1 {
                TermEncoding::LegacyV1
            } else {
                return Err(QztError::ContainerCorrupt);
            }
        },
        Some(CborValue::Text(t)) => {
            if text_is(t, "legacy-v1") {
                TermEncoding::LegacyV1
            } else if text_is(t, "key-posting-varint-v2") {
                TermEncoding::CompactV2
            } else {
                return Err(QztError::ContainerCorrupt);
            }
        },
        Some(_) => {
            return Err(QztError::ContainerCorrupt);
        },
    };
    let index_manifest = as_map(field(map, "index_manifest", QztError::ContainerCorrupt)?, QztError::ContainerCorrupt)?;
    let index_size_bytes = u64_field(index_manifest, "index_size_bytes")?;
    let source_size_bytes = u64_field(index_manifest, "source_size_bytes")?;
    let sections = as_map(field(map, "sections", QztError::ContainerCorrupt)?, QztError::ContainerCorrupt)?;
    let granules = section_ref_from(sections, "granules")?;
    let terms = section_ref_from(sections, "terms")?;
    let postings = section_ref_from(sections, "postings")?;
    Ok(SidecarManifest {
        source_container_id,
        source_original_checksum,
        source_qzt_footer_checksum,
        index_type,
        ngram_n,
        complete,
        high_df_per_million: high_df as u32,
        index_size_bytes,
        source_size_bytes,
        format_version,
        granule_encoding,
        term_encoding,
        granules,
        terms,
        postings,
    })
}

// ---------------------------------------------------------------------------
// Granule section
// ---------------------------------------------------------------------------

/// `value`, or `u64::MAX` for none.
pub open spec fn spec_or_max(v: Option<u64>) -> u64 {
    match v {
        Some(x) => x,
        None => u64::MAX,
    }
}

/// The record of one granule.
pub open spec fn spec_granule_record(g: SearchGranule, e: GranuleEncoding) -> Seq<u8> {
    match e {
        GranuleEncoding::LegacyV1 => spec_u64_to_le_bytes(g.granule_id) + spec_u64_to_le_bytes(g.logical_offset)
            + spec_u64_to_le_bytes(g.byte_length) + spec_u64_to_le_bytes(g.chunk_start) + spec_u64_to_le_bytes(g.chunk_end)
            + spec_u64_to_le_bytes(spec_or_max(g.first_line)) + spec_u64_to_le_bytes(spec_or_max(g.line_count)),
        GranuleEncoding::LineImpliedV2 => spec_u64_to_le_bytes(g.logical_offset) + spec_u32_to_le_bytes(g.byte_length as u32)
            + spec_u32_to_le_bytes(g.chunk_start as u32) + spec_u32_to_le_bytes((g.chunk_end - g.chunk_start) as u32),
    }
}

/// Why a granule has no record in a layout, if it has none.
pub open spec fn spec_granule_record_error(g: SearchGranule, e: GranuleEncoding) -> Option<QztError> {
    match e {
        GranuleEncoding::LegacyV1 => None,
        GranuleEncoding::LineImpliedV2 => if g.byte_length > u32::MAX {
            Some(QztError::ResourceLimitExceeded)
        } else if g.chunk_start > u32::MAX {
            Some(QztError::ResourceLimitExceeded)
        } else if g.chunk_end < g.chunk_start {
            Some(QztError::ChunkTableInvalid)
        } else if g.chunk_end - g.chunk_start > u32::MAX {
            Some(QztError::ResourceLimitExceeded)
        } else {
            None
        },
    }
}

/// Records of the first `n` granules, or the first granule that has none.
pub open spec fn spec_granule_records(gs: Seq<SearchGranule>, e: GranuleEncoding, n: int) -> Result<Seq<u8>>
    decreases n,
{
    if n <= 0 {
        Ok(Seq::empty())
    } else {
        match spec_granule_records(gs, e, n - 1) {
            Err(x) => Err(x),
            Ok(b) => match spec_granule_record_error(gs[n - 1], e) {
                Some(x) => Err(x),
                None => Ok(b + spec_granule_record(gs[n - 1], e)),
            },
        }
    }
}

proof fn lemma_granule_records_err(gs: Seq<SearchGranule>, e: GranuleEncoding, n: int, m: int)
    requires
        0 <= n <= m,
        spec_granule_records(gs, e, n) is Err,
    ensures
        spec_granule_records(gs, e, m) == spec_granule_records(gs, e, n),
    decreases m - n,
{
    if n < m {
        lemma_granule_records_err(gs, e, n, m - 1);
    }
}

/// The granule section: the count, then one record per granule.
pub open spec fn spec_encode_granules(gs: Seq<SearchGranule>, e: GranuleEncoding) -> Result<Seq<u8>> {
    match spec_granule_records(gs, e, gs.len() as int) {
        Err(x) => Err(x),
        Ok(b) => Ok(spec_u64_to_le_bytes(gs.len() as u64) + b),
    }
}

fn push_legacy_granule(bytes: &mut Vec<u8>, g: &SearchGranule)
    ensures
        final(bytes)@ == old(bytes)@ + spec_granule_record(*g, GranuleEncoding::LegacyV1),
{
    let ghost b0 = bytes@;
    push_u64_le(bytes, g.granule_id);
    push_u64_le(bytes, g.logical_offset);
    push_u64_le(bytes, g.byte_length);
    push_u64_le(bytes, g.chunk_start);
    push_u64_le(bytes, g.chunk_end);
    push_u64_le(bytes, match g.first_line { Some(x) => x, None => u64::MAX });
    push_u64_le(bytes, match g.line_count { Some(x) => x, None => u64::MAX });
    assert(bytes@ =~= b0 + spec_granule_record(*g, GranuleEncoding::LegacyV1));
}

fn push_compact_granule(bytes: &mut Vec<u8>, g: &SearchGranule)
    requires
        spec_granule_record_error(*g, GranuleEncoding::LineImpliedV2) is None,
    ensures
        final(bytes)@ == old(bytes)@ + spec_granule_record(*g, GranuleEncoding::LineImpliedV2),
{
    let ghost b0 = bytes@;
    let span = g.chunk_end - g.chunk_start;
    push_u64_le(bytes, g.logical_offset);
    push_u32_le(bytes, g.byte_length as u32);
    push_u32_le(bytes, g.chunk_start as u32);
    push_u32_le(bytes, span as u32);
    assert(bytes@ =~= b0 + spec_granule_record(*g, GranuleEncoding::LineImpliedV2));
}

/// Encodes the granule section.
pub fn encode_granules(granules: &Vec<SearchGranule>, encoding: GranuleEncoding) -> (r: Result<Vec<u8>>)
    ensures
        match (r, spec_encode_granules(granules@, encoding)) {
            (Ok(b), Ok(sb)) => b@ == sb,
            (Err(x), Err(sx)) => x == sx,
            _ => false,
        },
{
    let mut bytes: Vec<u8> = Vec::new();
    push_u64_le(&mut bytes, granules.len() as u64);
    let ghost head = bytes@;
    let mut i: usize = 0;
    while i < granules.len()
        invariant
            i <= granules@.len(),
            head == spec_u64_to_le_bytes(granules@.len() as u64),
            spec_granule_records(granules@, encoding, i as int) matches Ok(b) && bytes@ == head + b,
        decreases granules@.len() - i,
    {
        let g = granules[i];
        let ghost before = bytes@;
        match encoding {
            GranuleEncoding::LegacyV1 => {
                push_legacy_granule(&mut bytes, &g);
            },
            GranuleEncoding::LineImpliedV2 => {
                let bad = if g.byte_length > 0xffff_ffff {
                    Some(QztError::ResourceLimitExceeded)
                } else if g.chunk_start > 0xffff_ffff {
                    Some(QztError::ResourceLimitExceeded)
                } else if g.chunk_end < g.chunk_start {
                    Some(QztError::ChunkTableInvalid)
                } else if g.chunk_end - g.chunk_start > 0xffff_ffff {
                    Some(QztError::ResourceLimitExceeded)
                } else {
                    None
                };
                if let Some(x) = bad {
                    proof {
                        assert(spec_granule_records(granules@, encoding, i + 1) == Err::<Seq<u8>, QztError>(x));
                        lemma_granule_records_err(granules@, encoding, i + 1, granules@.len() as int);
                    }
                    return Err(x);
                }
                push_compact_granule(&mut bytes, &g);
            },
        }
        proof {
            let b = spec_granule_records(granules@, encoding, i as int)->Ok_0;
            assert(before == head + b);
            assert(bytes@ =~= head + (b + spec_granule_record(g, encoding)));
        }
        i = i + 1;
    }
    Ok(bytes)
}

/// The granule a record of identifier `id` describes.
pub open spec fn spec_parse_granule_record(rec: Seq<u8>, id: u64, e: GranuleEncoding) -> SearchGranule {
    match e {
        GranuleEncoding::LegacyV1 => SearchGranule {
            granule_id: spec_u64_from_le_bytes(rec.subrange(0, 8)),
            logical_offset: spec_u64_from_le_bytes(rec.subrange(8, 16)),
            byte_length: spec_u64_from_le_bytes(rec.subrange(16, 24)),
            chunk_start: spec_u64_from_le_bytes(rec.subrange(24, 32)),
            chunk_end: spec_u64_from_le_bytes(rec.subrange(32, 40)),
            first_line: if spec_u64_from_le_bytes(rec.subrange(40, 48)) == u64::MAX { None } else { Some(spec_u64_from_le_bytes(rec.subrange(40, 48))) },
            line_count: if spec_u64_from_le_bytes(rec.subrange(48, 56)) == u64::MAX { None } else { Some(spec_u64_from_le_bytes(rec.subrange(48, 56))) },
        },
        GranuleEncoding::LineImpliedV2 => SearchGranule {
            granule_id: id,
            logical_offset: spec_u64_from_le_bytes(rec.subrange(0, 8)),
            byte_length: spec_u32_from_le_bytes(rec.subrange(8, 12)) as u64,
            chunk_start: spec_u32_from_le_bytes(rec.subrange(12, 16)) as u64,
            chunk_end: (spec_u32_from_le_bytes(rec.subrange(12, 16)) + spec_u32_from_le_bytes(rec.subrange(16, 20))) as u64,
            first_line: Some(id),
            line_count: Some(1u64),
        },
    }
}

/// Records `i..count` of a granule section.
pub open spec fn spec_decode_granule_records(bytes: Seq<u8>, e: GranuleEncoding, i: int, count: int) -> Result<Seq<SearchGranule>>
    decreases count - i,
{
    if i < 0 || i >= count {
        Ok(Seq::empty())
    } else {
        let rl = spec_record_len(e) as int;
        let start = 8 + i * rl;
        if start + rl > bytes.len() {
            Err(QztError::UnexpectedEof)
        } else {
            let g = spec_parse_granule_record(bytes.subrange(start, start + rl), i as u64, e);
            if g.granule_id != i {
                Err(QztError::ContainerCorrupt)
            } else {
                match spec_decode_granule_records(bytes, e, i + 1, count) {
                    Err(x) => Err(x),
                    Ok(rest) => Ok(seq![g] + rest),
                }
            }
        }
    }
}

/// A granule section decoded: the count, every record, and nothing after them.
pub open spec fn spec_decode_granules(bytes: Seq<u8>, e: GranuleEncoding) -> Result<Seq<SearchGranule>> {
    if bytes.len() < 8 {
        Err(QztError::UnexpectedEof)
    } else {
        let count = spec_u64_from_le_bytes(bytes.subrange(0, 8));
        if count > usize::MAX {
            Err(QztError::ResourceLimitExceeded)
        } else {
            match spec_decode_granule_records(bytes, e, 0, count as int) {
                Err(x) => Err(x),
                Ok(gs) => if 8 + count * spec_record_len(e) != bytes.len() {
                    Err(QztError::ContainerCorrupt)
                } else {
                    Ok(gs)
                },
            }
        }
    }
}

/// Decodes the granule record of identifier `id`.
pub fn decode_granule_record(rec: &[u8], id: u64, encoding: GranuleEncoding) -> (r: Result<SearchGranule>)
    requires
        rec@.len() == spec_record_len(encoding),
    ensures
        ({
            let g = spec_parse_granule_record(rec@, id, encoding);
            if g.granule_id != id { r == Err::<SearchGranule, QztError>(QztError::ContainerCorrupt) } else { r == Ok::<SearchGranule, QztError>(g) }
        }),
{
    match encoding {
        GranuleEncoding::LegacyV1 => {
            let granule_id = read_u64_le(crate::skeleton::slice_subrange(rec, 0, 8))?;
            let logical_offset = read_u64_le(crate::skeleton::slice_subrange(rec, 8, 16))?;
            let byte_length = read_u64_le(crate::skeleton::slice_subrange(rec, 16, 24))?;
            let chunk_start = read_u64_le(crate::skeleton::slice_subrange(rec, 24, 32))?;
            let chunk_end = read_u64_le(crate::skeleton::slice_subrange(rec, 32, 40))?;
            let first = read_u64_le(crate::skeleton::slice_subrange(rec, 40, 48))?;
            let count = read_u64_le(crate::skeleton::slice_subrange(rec, 48, 56))?;
            if granule_id != id {
                return Err(QztError::ContainerCorrupt);
            }
            Ok(SearchGranule {
                granule_id,
                logical_offset,
                byte_length,
                chunk_start,
                chunk_end,
                first_line: if first == u64::MAX { None } else { Some(first) },
                line_count: if count == u64::MAX { None } else { Some(count) },
            })
        },
        GranuleEncoding::LineImpliedV2 => {
            let logical_offset = read_u64_le(crate::skeleton::slice_subrange(rec, 0, 8))?;
            let byte_length = read_u32_le(crate::skeleton::slice_subrange(rec, 8, 12))?;
            let chunk_start = read_u32_le(crate::skeleton::slice_subrange(rec, 12, 16))?;
            let span = read_u32_le(crate::skeleton::slice_subrange(rec, 16, 20))?;
            Ok(SearchGranule {
                granule_id: id,
                logical_offset,
                byte_length: byte_length as u64,
                chunk_start: chunk_start as u64,
                chunk_end: chunk_start as u64 + span as u64,
                first_line: Some(id),
                line_count: Some(1u64),
            })
        },
    }
}

/// Decodes the granule section.
pub fn decode_granules(bytes: &[u8], encoding: GranuleEncoding) -> (r: Result<Vec<SearchGranule>>)
    ensures
        match (r, spec_decode_granules(bytes@, encoding)) {
            (Ok(gs), Ok(sgs)) => gs@ == sgs,
            (Err(x), Err(sx)) => x == sx,
            _ => false,
        },
{
    if bytes.len() < 8 {
        return Err(QztError::UnexpectedEof);
    }
    let count = read_u64_le(crate::skeleton::slice_subrange(bytes, 0, 8))?;
    let _ = u64_to_usize(count)?;
    let rl = encoding.record_len() as usize;
    let mut granules: Vec<SearchGranule> = Vec::new();
    let mut cursor: usize = 8;
    let mut id: u64 = 0;
    while id < count
        invariant
            id <= count,
            count <= usize::MAX,
            rl == spec_record_len(encoding),
            cursor == 8 + id * rl,
            cursor <= bytes@.len(),
            count == spec_u64_from_le_bytes(bytes@.subrange(0, 8)),
            spec_decode_granule_records(bytes@, encoding, 0, count as int) == match spec_decode_granule_records(bytes@, encoding, id as int, count as int) {
                Ok(rest) => Ok(granules@ + rest),
                Err(x) => Err::<Seq<SearchGranule>, QztError>(x),
            },
        decreases count - id,
    {
        if rl > bytes.len() - cursor {
            return Err(QztError::UnexpectedEof);
        }
        let rec = crate::skeleton::slice_subrange(bytes, cursor, cursor + rl);
        let g = decode_granule_record(rec, id, encoding)?;
        let ghost g0 = granules@;
        granules.push(g);
        proof {
            match spec_decode_granule_records(bytes@, encoding, id + 1, count as int) {
                Ok(rest) => {
                    assert(g0 + (seq![g] + rest) =~= granules@ + rest);
                },
                Err(x) => {},
            }
        }
        cursor = cursor + rl;
        id = id + 1;
    }
    proof {
        assert(granules@ + Seq::<SearchGranule>::empty() =~= granules@);
    }
    if cursor != bytes.len() {
        return Err(QztError::ContainerCorrupt);
    }
    Ok(granules)
}

// ---------------------------------------------------------------------------
// Term section
// ---------------------------------------------------------------------------

/// A dictionary entry as plain values.
pub open spec fn term_view(t: TermDictionaryEntry) -> (Seq<u8>, Seq<u8>, u64, u64, u64, u64, u64, u64, u64) {
    (t.key@, t.key_hash@, t.document_frequency, t.granule_frequency, t.posting_offset, t.posting_size, t.skip_offset, t.skip_size, t.flags)
}

/// Entries as plain values.
pub open spec fn terms_view(ts: Seq<TermDictionaryEntry>) -> Seq<(Seq<u8>, Seq<u8>, u64, u64, u64, u64, u64, u64, u64)> {
    ts.map_values(|t: TermDictionaryEntry| term_view(t))
}

/// The record of one dictionary entry.
pub open spec fn spec_term_record(t: TermDictionaryEntry, e: TermEncoding) -> Seq<u8> {
    match e {
        TermEncoding::LegacyV1 => spec_u64_to_le_bytes(t.key@.len() as u64) + t.key@ + t.key_hash@
            + spec_u64_to_le_bytes(t.document_frequency) + spec_u64_to_le_bytes(t.granule_frequency)
            + spec_u64_to_le_bytes(t.posting_offset) + spec_u64_to_le_bytes(t.posting_size)
            + spec_u64_to_le_bytes(t.skip_offset) + spec_u64_to_le_bytes(t.skip_size) + spec_u64_to_le_bytes(t.flags),
        TermEncoding::CompactV2 => spec_varuint(t.key@.len()) + t.key@ + spec_varuint(t.granule_frequency as nat)
            + spec_varuint(t.posting_size as nat),
    }
}

/// Records of the first `n` entries.
pub open spec fn spec_term_records(ts: Seq<TermDictionaryEntry>, e: TermEncoding, n: int) -> Seq<u8>
    decreases n,
{
    if n <= 0 { Seq::empty() } else { spec_term_records(ts, e, n - 1) + spec_term_record(ts[n - 1], e) }
}

/// The term section: the count, then one record per entry.
pub open spec fn spec_encode_terms(ts: Seq<TermDictionaryEntry>, e: TermEncoding) -> Seq<u8> {
    spec_u64_to_le_bytes(ts.len() as u64) + spec_term_records(ts, e, ts.len() as int)
}

/// Encodes the term section.
pub fn encode_terms(terms: &Vec<TermDictionaryEntry>, encoding: TermEncoding) -> (r: Vec<u8>)
    ensures
        r@ == spec_encode_terms(terms@, encoding),
{
    let mut bytes: Vec<u8> = Vec::new();
    push_u64_le(&mut bytes, terms.len() as u64);
    let ghost head = bytes@;
    let mut i: usize = 0;
    while i < terms.len()
        invariant
            i <= terms@.len(),
            head == spec_u64_to_le_bytes(terms@.len() as u64),
            bytes@ == head + spec_term_records(terms@, encoding, i as int),
        decreases terms@.len() - i,
    {
        let t = &terms[i];
        let ghost before = bytes@;
        match encoding {
            TermEncoding::LegacyV1 => {
                push_u64_le(&mut bytes, t.key.len() as u64);
                extend_bytes(&mut bytes, t.key.as_slice());
                extend_bytes(&mut bytes, &t.key_hash);
                push_u64_le(&mut bytes, t.document_frequency);
                push_u64_le(&mut bytes, t.granule_frequency);
                push_u64_le(&mut bytes, t.posting_offset);
                push_u64_le(&mut bytes, t.posting_size);
                push_u64_le(&mut bytes, t.skip_offset);
                push_u64_le(&mut bytes, t.skip_size);
                push_u64_le(&mut bytes, t.flags);
            },
            TermEncoding::CompactV2 => {
                write_varuint(t.key.len() as u64, &mut bytes);
                extend_bytes(&mut bytes, t.key.as_slice());
                write_varuint(t.granule_frequency, &mut bytes);
                write_varuint(t.posting_size, &mut bytes);
            },
        }
        proof {
            assert(bytes@ =~= before + spec_term_record(*t, encoding));
            assert(bytes@ =~= head + spec_term_records(terms@, encoding, i + 1));
        }
        i = i + 1;
    }
    bytes
}

/// Bytes `pos..pos + len`: `ResourceLimitExceeded` past the address space,
/// `UnexpectedEof` past the end.
pub open spec fn spec_take(s: Seq<u8>, pos: int, len: int) -> Result<Seq<u8>> {
    if pos + len > usize::MAX {
        Err(QztError::ResourceLimitExceeded)
    } else if pos + len > s.len() {
        Err(QztError::UnexpectedEof)
    } else {
        Ok(s.subrange(pos, pos + len))
    }
}

fn take(bytes: &[u8], pos: usize, len: usize) -> (r: Result<&[u8]>)
    requires
        pos <= bytes@.len(),
    ensures
        match (r, spec_take(bytes@, pos as int, len as int)) {
            (Ok(b), Ok(sb)) => b@ == sb,
            (Err(x), Err(sx)) => x == sx,
            _ => false,
        },
{
    if pos > usize::MAX - len {
        return Err(QztError::ResourceLimitExceeded);
    }
    if pos + len > bytes.len() {
        return Err(QztError::UnexpectedEof);
    }
    Ok(crate::skeleton::slice_subrange(bytes, pos, pos + len))
}

/// One legacy record at `pos`: the entry and the position after it.
pub open spec fn spec_legacy_term_at(s: Seq<u8>, pos: int) -> Result<((Seq<u8>, Seq<u8>, u64, u64, u64, u64, u64, u64, u64), int)> {
    match spec_take(s, pos, 8) {
        Err(x) => Err(x),
        Ok(lb) => {
            let key_len = spec_u64_from_le_bytes(lb);
            if key_len > usize::MAX {
                Err(QztError::ResourceLimitExceeded)
            } else {
                let p1 = pos + 8;
                match spec_take(s, p1, key_len as int) {
                    Err(x) => Err(x),
                    Ok(key) => {
                        let p2 = p1 + key_len;
                        match spec_take(s, p2, 72) {
                            Err(x) => Err(x),
                            Ok(rest) => Ok(((key, rest.subrange(0, 16),
                                spec_u64_from_le_bytes(rest.subrange(16, 24)), spec_u64_from_le_bytes(rest.subrange(24, 32)),
                                spec_u64_from_le_bytes(rest.subrange(32, 40)), spec_u64_from_le_bytes(rest.subrange(40, 48)),
                                spec_u64_from_le_bytes(rest.subrange(48, 56)), spec_u64_from_le_bytes(rest.subrange(56, 64)),
                                spec_u64_from_le_bytes(rest.subrange(64, 72))), p2 + 72)),
                        }
                    },
                }
            }
        },
    }
}

/// One compact record at `pos` whose postings start at `offset`: the entry,
/// the position after it, and where the next entry's postings start.
pub open spec fn spec_compact_term_at(s: Seq<u8>, pos: int, offset: u64) -> Result<((Seq<u8>, Seq<u8>, u64, u64, u64, u64, u64, u64, u64), int, u64)> {
    match spec_read_varuint(s, pos, QztError::ContainerCorrupt) {
        Err(x) => Err(x),
        Ok((kl, p1)) => if kl > usize::MAX {
            Err(QztError::ResourceLimitExceeded)
        } else {
            match spec_take(s, p1, kl as int) {
                Err(x) => Err(x),
                Ok(key) => match spec_read_varuint(s, p1 + kl, QztError::ContainerCorrupt) {
                    Err(x) => Err(x),
                    Ok((gf, p3)) => match spec_read_varuint(s, p3, QztError::ContainerCorrupt) {
                        Err(x) => Err(x),
                        Ok((ps, p4)) => if offset + ps > u64::MAX {
                            Err(QztError::ResourceLimitExceeded)
                        } else {
                            Ok(((key, crate::search::spec_key_hash(key), 0u64, gf, offset, ps, 0u64, 0u64, 0u64), p4, (offset + ps) as u64))
                        },
                    },
                },
            }
        },
    }
}

/// Entries `i..count` of a term section from `pos`, the section ending right after them.
pub open spec fn spec_decode_terms_from(s: Seq<u8>, e: TermEncoding, pos: int, i: int, count: int, offset: u64)
    -> Result<Seq<(Seq<u8>, Seq<u8>, u64, u64, u64, u64, u64, u64, u64)>>
    decreases count - i,
{
    if i >= count {
        if pos != s.len() { Err(QztError::ContainerCorrupt) } else { Ok(Seq::empty()) }
    } else {
        match e {
            TermEncoding::LegacyV1 => match spec_legacy_term_at(s, pos) {
                Err(x) => Err(x),
                Ok((t, p)) => match spec_decode_terms_from(s, e, p, i + 1, count, offset) {
                    Err(x) => Err(x),
                    Ok(rest) => Ok(seq![t] + rest),
                },
            },
            TermEncoding::CompactV2 => match spec_compact_term_at(s, pos, offset) {
                Err(x) => Err(x),
                Ok((t, p, o)) => match spec_decode_terms_from(s, e, p, i + 1, count, o) {
                    Err(x) => Err(x),
                    Ok(rest) => Ok(seq![t] + rest),
                },
            },
        }
    }
}

/// A term section decoded.
pub open spec fn spec_decode_terms(s: Seq<u8>, e: TermEncoding) -> Result<Seq<(Seq<u8>, Seq<u8>, u64, u64, u64, u64, u64, u64, u64)>> {
    if s.len() < 8 {
        Err(QztError::UnexpectedEof)
    } else {
        let count = spec_u64_from_le_bytes(s.subrange(0, 8));
        if count > usize::MAX {
            Err(QztError::ResourceLimitExceeded)
        } else {
            spec_decode_terms_from(s, e, 8, 0, count as int, 0)
        }
    }
}

fn read_u64_at(bytes: &[u8], pos: usize) -> (r: Result<u64>)
    requires
        pos <= bytes@.len(),
    ensures
        match (r, spec_take(bytes@, pos as int, 8)) {
            (Ok(v), Ok(b)) => v == spec_u64_from_le_bytes(b),
            (Err(x), Err(sx)) => x == sx,
            _ => false,
        },
{
    let b = take(bytes, pos, 8)?;
    read_u64_le(b)
}

fn legacy_term_at(bytes: &[u8], pos: usize) -> (r: Result<(TermDictionaryEntry, usize)>)
    requires
        pos <= bytes@.len(),
    ensures
        match (r, spec_legacy_term_at(bytes@, pos as int)) {
            (Ok((t, p)), Ok((st, sp))) => term_view(t) == st && p == sp && p <= bytes@.len(),
            (Err(x), Err(sx)) => x == sx,
            _ => false,
        },
{
    let key_len64 = read_u64_at(bytes, pos)?;
    let key_len = u64_to_usize(key_len64)?;
    let p1 = pos + 8;
    let key = take(bytes, p1, key_len)?;
    let p2 = p1 + key_len;
    let rest = take(bytes, p2, 72)?;
    let hash: [u8; 16] = crate::bytes_util::array_from_slice::<16>(crate::skeleton::slice_subrange(rest, 0, 16));
    let t = TermDictionaryEntry {
        key: slice_to_vec(key, 0, key.len()),
        key_hash: hash,
        document_frequency: read_u64_le(crate::skeleton::slice_subrange(rest, 16, 24))?,
        granule_frequency: read_u64_le(crate::skeleton::slice_subrange(rest, 24, 32))?,
        posting_offset: read_u64_le(crate::skeleton::slice_subrange(rest, 32, 40))?,
        posting_size: read_u64_le(crate::skeleton::slice_subrange(rest, 40, 48))?,
        skip_offset: read_u64_le(crate::skeleton::slice_subrange(rest, 48, 56))?,
        skip_size: read_u64_le(crate::skeleton::slice_subrange(rest, 56, 64))?,
        flags: read_u64_le(crate::skeleton::slice_subrange(rest, 64, 72))?,
    };
    assert(t.key@ =~= key@);
    Ok((t, p2 + 72))
}

fn compact_term_at(bytes: &[u8], pos: usize, offset: u64) -> (r: Result<(TermDictionaryEntry, usize, u64)>)
    requires
        pos <= bytes@.len(),
    ensures
        match (r, spec_compact_term_at(bytes@, pos as int, offset)) {
            (Ok((t, p, o)), Ok((st, sp, so))) => term_view(t) == st && p == sp && o == so && p <= bytes@.len(),
            (Err(x), Err(sx)) => x == sx,
            _ => false,
        },
{
    let (kl, p1) = read_varuint(bytes, pos, QztError::ContainerCorrupt)?;
    let key_len = u64_to_usize(kl)?;
    let key = take(bytes, p1, key_len)?;
    let p2 = p1 + key_len;
    let (gf, p3) = read_varuint(bytes, p2, QztError::ContainerCorrupt)?;
    let (ps, p4) = read_varuint(bytes, p3, QztError::ContainerCorrupt)?;
    if offset > u64::MAX - ps {
        return Err(QztError::ResourceLimitExceeded);
    }
    let key_vec = slice_to_vec(key, 0, key.len());
    assert(key_vec@ =~= key@);
    let hash = crate::search::key_hash(key_vec.as_slice());
    let t = TermDictionaryEntry {
        key: key_vec,
        key_hash: hash,
        document_frequency: 0,
        granule_frequency: gf,
        posting_offset: offset,
        posting_size: ps,
        skip_offset: 0,
        skip_size: 0,
        flags: 0,
    };
    Ok((t, p4, offset + ps))
}

/// Decodes the term section.
pub fn decode_terms(bytes: &[u8], encoding: TermEncoding) -> (r: Result<Vec<TermDictionaryEntry>>)
    ensures
        match (r, spec_decode_terms(bytes@, encoding)) {
            (Ok(ts), Ok(sts)) => terms_view(ts@) == sts,
            (Err(x), Err(sx)) => x == sx,
            _ => false,
        },
{
    if bytes.len() < 8 {
        return Err(QztError::UnexpectedEof);
    }
    let count = read_u64_le(crate::skeleton::slice_subrange(bytes, 0, 8))?;
    let _ = u64_to_usize(count)?;
    let mut terms: Vec<TermDictionaryEntry> = Vec::new();
    let mut cursor: usize = 8;
    let mut offset: u64 = 0;
    let mut i: u64 = 0;
    while i < count
        invariant
            i <= count,
            count <= usize::MAX,
            cursor <= bytes@.len(),
            count == spec_u64_from_le_bytes(bytes@.subrange(0, 8)),
            spec_decode_terms_from(bytes@, encoding, 8, 0, count as int, 0) == match spec_decode_terms_from(bytes@, encoding, cursor as int, i as int, count as int, offset) {
                Ok(rest) => Ok(terms_view(terms@) + rest),
                Err(x) => Err::<Seq<(Seq<u8>, Seq<u8>, u64, u64, u64, u64, u64, u64, u64)>, QztError>(x),
            },
        decreases count - i,
    {
        let ghost t0 = terms_view(terms@);
        match encoding {
            TermEncoding::LegacyV1 => {
                let (t, p) = legacy_term_at(bytes, cursor)?;
                terms.push(t);
                proof {
                    assert(terms_view(terms@) =~= t0.push(term_view(t)));
                    match spec_decode_terms_from(bytes@, encoding, p as int, i + 1, count as int, offset) {
                        Ok(rest) => { assert(t0 + (seq![term_view(t)] + rest) =~= terms_view(terms@) + rest); },
                        Err(x) => {},
                    }
                }
                cursor = p;
            },
            TermEncoding::CompactV2 => {
                let (t, p, o) = compact_term_at(bytes, cursor, offset)?;
                terms.push(t);
                proof {
                    assert(terms_view(terms@) =~= t0.push(term_view(t)));
                    match spec_decode_terms_from(bytes@, encoding, p as int, i + 1, count as int, o) {
                        Ok(rest) => { assert(t0 + (seq![term_view(t)] + rest) =~= terms_view(terms@) + rest); },
                        Err(x) => {},
                    }
                }
                cursor = p;
                offset = o;
            },
        }
        i = i + 1;
    }
    if cursor != bytes.len() {
        return Err(QztError::ContainerCorrupt);
    }
    proof {
        assert(terms_view(terms@) + Seq::empty() =~= terms_view(terms@));
    }
    Ok(terms)
}

// ---------------------------------------------------------------------------
// Posting section and dictionary checks
// ---------------------------------------------------------------------------

/// The posting section: each list's delta varint encoding, in order; the
/// first list that is not strictly increasing makes it fail.
pub open spec fn spec_encode_postings(ps: Seq<Vec<u64>>, n: int) -> Result<Seq<u8>>
    decreases n,
{
    if n <= 0 {
        Ok(Seq::empty())
    } else {
        match spec_encode_postings(ps, n - 1) {
            Err(x) => Err(x),
            Ok(b) => if crate::search::spec_adjacent_increasing(ps[n - 1]@) {
                Ok(b + crate::search::spec_delta_encode(ps[n - 1]@))
            } else {
                Err(QztError::ContainerCorrupt)
            },
        }
    }
}

proof fn lemma_encode_postings_err(ps: Seq<Vec<u64>>, n: int, m: int)
    requires
        0 <= n <= m,
        spec_encode_postings(ps, n) is Err,
    ensures
        spec_encode_postings(ps, m) == spec_encode_postings(ps, n),
    decreases m - n,
{
    if n < m {
        lemma_encode_postings_err(ps, n, m - 1);
    }
}

/// Encodes the posting section.
pub fn encode_posting_section(postings: &Vec<Vec<u64>>) -> (r: Result<Vec<u8>>)
    ensures
        match (r, spec_encode_postings(postings@, postings@.len() as int)) {
            (Ok(b), Ok(sb)) => b@ == sb,
            (Err(x), Err(sx)) => x == sx,
            _ => false,
        },
{
    let mut bytes: Vec<u8> = Vec::new();
    let mut i: usize = 0;
    while i < postings.len()
        invariant
            i <= postings@.len(),
            spec_encode_postings(postings@, i as int) == Ok::<Seq<u8>, QztError>(bytes@),
        decreases postings@.len() - i,
    {
        match crate::search::encode_delta_varint_u64(postings[i].as_slice()) {
            Ok(b) => {
                extend_bytes(&mut bytes, b.as_slice());
            },
            Err(x) => {
                proof {
                    lemma_encode_postings_err(postings@, i + 1, postings@.len() as int);
                }
                return Err(x);
            },
        }
        i = i + 1;
    }
    Ok(bytes)
}

/// Posting lists of terms `i..` read from the section by each term's offset and size.
pub open spec fn spec_decode_postings_from(bytes: Seq<u8>, ts: Seq<TermDictionaryEntry>, i: int) -> Result<Seq<Seq<u64>>>
    decreases ts.len() - i,
{
    if i < 0 || i >= ts.len() {
        Ok(Seq::empty())
    } else {
        let t = ts[i];
        if t.posting_offset > usize::MAX || t.posting_size > usize::MAX {
            Err(QztError::ResourceLimitExceeded)
        } else if t.posting_offset + t.posting_size > usize::MAX {
            Err(QztError::ResourceLimitExceeded)
        } else if t.posting_offset + t.posting_size > bytes.len() {
            Err(QztError::UnexpectedEof)
        } else {
            match crate::search::spec_delta_decode(bytes.subrange(t.posting_offset as int, t.posting_offset + t.posting_size), u64::MAX) {
                Err(x) => Err(x),
                Ok(p) => match spec_decode_postings_from(bytes, ts, i + 1) {
                    Err(x) => Err(x),
                    Ok(rest) => Ok(seq![p] + rest),
                },
            }
        }
    }
}

/// Decodes each term's posting list from the posting section.
pub fn decode_posting_section(bytes: &[u8], terms: &Vec<TermDictionaryEntry>) -> (r: Result<Vec<Vec<u64>>>)
    ensures
        match (r, spec_decode_postings_from(bytes@, terms@, 0)) {
            (Ok(ps), Ok(sps)) => crate::search::lists_view(ps@) == sps,
            (Err(x), Err(sx)) => x == sx,
            _ => false,
        },
{
    let mut postings: Vec<Vec<u64>> = Vec::new();
    let mut i: usize = 0;
    while i < terms.len()
        invariant
            i <= terms@.len(),
            spec_decode_postings_from(bytes@, terms@, 0) == match spec_decode_postings_from(bytes@, terms@, i as int) {
                Ok(rest) => Ok(crate::search::lists_view(postings@) + rest),
                Err(x) => Err::<Seq<Seq<u64>>, QztError>(x),
            },
        decreases terms@.len() - i,
    {
        let t = &terms[i];
        let start = u64_to_usize(t.posting_offset)?;
        let size = u64_to_usize(t.posting_size)?;
        if start > usize::MAX - size {
            return Err(QztError::ResourceLimitExceeded);
        }
        if start + size > bytes.len() {
            return Err(QztError::UnexpectedEof);
        }
        let encoded = crate::skeleton::slice_subrange(bytes, start, start + size);
        let p = crate::search::decode_delta_varint_u64(encoded)?;
        let ghost p0 = crate::search::lists_view(postings@);
        postings.push(p);
        proof {
            assert(crate::search::lists_view(postings@) =~= p0.push(p@));
            match spec_decode_postings_from(bytes@, terms@, i + 1) {
                Ok(rest) => {
                    assert(p0 + (seq![p@] + rest) =~= crate::search::lists_view(postings@) + rest);
                },
                Err(x) => {},
            }
        }
        i = i + 1;
    }
    proof {
        assert(crate::search::lists_view(postings@) + Seq::<Seq<u64>>::empty() =~= crate::search::lists_view(postings@));
    }
    Ok(postings)
}

/// The failure of one entry of a file-backed term dictionary whose postings
/// should start at `po` and skip records at `so`.
pub open spec fn spec_file_term_error(t: TermDictionaryEntry, e: TermEncoding, po: nat, so: nat) -> Option<QztError> {
    if t.key@.len() == 0 || t.key_hash@ != crate::search::spec_key_hash(t.key@) {
        Some(QztError::ContainerCorrupt)
    } else if t.flags != 0 {
        Some(QztError::InvalidFlags)
    } else if t.document_frequency != 0 || t.granule_frequency == 0 || t.posting_size == 0 {
        Some(QztError::ContainerCorrupt)
    } else if t.posting_offset != po
        || (e == TermEncoding::LegacyV1 && (t.skip_offset != so || t.skip_size % 24 != 0))
        || (e == TermEncoding::CompactV2 && (t.skip_offset != 0 || t.skip_size != 0)) {
        Some(QztError::ContainerCorrupt)
    } else if po + t.posting_size > u64::MAX || so + t.skip_size > u64::MAX {
        Some(QztError::ResourceLimitExceeded)
    } else {
        None
    }
}

/// Posting bytes of the first `n` entries.
pub open spec fn spec_posting_total(ts: Seq<TermDictionaryEntry>, n: int) -> nat
    decreases n,
{
    if n <= 0 { 0 } else { spec_posting_total(ts, n - 1) + ts[n - 1].posting_size as nat }
}

/// Skip record bytes of the first `n` entries.
pub open spec fn spec_skip_total(ts: Seq<TermDictionaryEntry>, n: int) -> nat
    decreases n,
{
    if n <= 0 { 0 } else { spec_skip_total(ts, n - 1) + ts[n - 1].skip_size as nat }
}

/// The first failure among the first `n` entries.
pub open spec fn spec_file_terms_error(ts: Seq<TermDictionaryEntry>, e: TermEncoding, n: int) -> Option<QztError>
    decreases n,
{
    if n <= 0 {
        None
    } else if spec_file_terms_error(ts, e, n - 1) is Some {
        spec_file_terms_error(ts, e, n - 1)
    } else {
        spec_file_term_error(ts[n - 1], e, spec_posting_total(ts, n - 1), spec_skip_total(ts, n - 1))
    }
}

/// The failure of a file-backed term dictionary, if any: entries in order,
/// then key order and the total posting size.
pub open spec fn spec_file_dictionary_error(ts: Seq<TermDictionaryEntry>, postings_size: u64, e: TermEncoding) -> Option<QztError> {
    if spec_file_terms_error(ts, e, ts.len() as int) is Some {
        spec_file_terms_error(ts, e, ts.len() as int)
    } else if !crate::search::spec_adjacent_sorted(crate::search::term_keys(ts)) || spec_posting_total(ts, ts.len() as int) != postings_size {
        Some(QztError::ContainerCorrupt)
    } else {
        None
    }
}

proof fn lemma_file_terms_err(ts: Seq<TermDictionaryEntry>, e: TermEncoding, n: int, m: int)
    requires
        0 <= n <= m,
        spec_file_terms_error(ts, e, n) is Some,
    ensures
        spec_file_terms_error(ts, e, m) == spec_file_terms_error(ts, e, n),
    decreases m - n,
{
    if n < m {
        lemma_file_terms_err(ts, e, n, m - 1);
    }
}

/// Checks a file-backed term dictionary: nonempty hashed keys, zero flags and
/// document frequency, contiguous postings and skip records, sorted keys, and
/// postings that fill the posting section exactly.
pub fn validate_file_term_dictionary(terms: &Vec<TermDictionaryEntry>, postings_size: u64, encoding: TermEncoding) -> (r: Result<()>)
    ensures
        match spec_file_dictionary_error(terms@, postings_size, encoding) {
            Some(x) => r == Err::<(), QztError>(x),
            None => r is Ok,
        },
{
    let mut po: u64 = 0;
    let mut so: u64 = 0;
    let mut i: usize = 0;
    while i < terms.len()
        invariant
            i <= terms@.len(),
            spec_file_terms_error(terms@, encoding, i as int) is None,
            po == spec_posting_total(terms@, i as int),
            so == spec_skip_total(terms@, i as int),
        decreases terms@.len() - i,
    {
        let t = &terms[i];
        let bad = if t.key.len() == 0 || !bytes_equal(&t.key_hash, &crate::search::key_hash(t.key.as_slice())) {
            Some(QztError::ContainerCorrupt)
        } else if t.flags != 0 {
            Some(QztError::InvalidFlags)
        } else if t.document_frequency != 0 || t.granule_frequency == 0 || t.posting_size == 0 {
            Some(QztError::ContainerCorrupt)
        } else if t.posting_offset != po
            || (encoding == TermEncoding::LegacyV1 && (t.skip_offset != so || t.skip_size % 24 != 0))
            || (encoding == TermEncoding::CompactV2 && (t.skip_offset != 0 || t.skip_size != 0)) {
            Some(QztError::ContainerCorrupt)
        } else if po > u64::MAX - t.posting_size || so > u64::MAX - t.skip_size {
            Some(QztError::ResourceLimitExceeded)
        } else {
            None
        };
        assert(spec_file_terms_error(terms@, encoding, i + 1) == bad);
        if let Some(x) = bad {
            proof {
                lemma_file_terms_err(terms@, encoding, i + 1, terms@.len() as int);
            }
            return Err(x);
        }
        po = po + t.posting_size;
        so = so + t.skip_size;
        i = i + 1;
    }
    let mut j: usize = 1;
    while j < terms.len()
        invariant
            1 <= j,
            spec_file_terms_error(terms@, encoding, terms@.len() as int) is None,
            po == spec_posting_total(terms@, terms@.len() as int),
            forall|k: int| 1 <= k < j && k < terms@.len() ==> crate::cbor::spec_lex_lt(#[trigger] crate::search::term_keys(terms@)[k - 1], crate::search::term_keys(terms@)[k]),
        decreases terms@.len() - j,
    {
        if crate::cbor::compare_bytes(terms[j - 1].key.as_slice(), terms[j].key.as_slice()) >= 0 {
            proof {
                assert(crate::search::term_keys(terms@)[j - 1] == terms@[j - 1].key@);
                assert(crate::search::term_keys(terms@)[j as int] == terms@[j as int].key@);
                if crate::cbor::spec_lex_lt(terms@[j - 1].key@, terms@[j as int].key@) {
                    crate::cbor::lemma_lex_asymmetric(terms@[j - 1].key@, terms@[j as int].key@);
                    crate::cbor::lemma_lex_irreflexive(terms@[j as int].key@);
                }
            }
            return Err(QztError::ContainerCorrupt);
        }
        j = j + 1;
    }
    if po != postings_size {
        return Err(QztError::ContainerCorrupt);
    }
    Ok(())
}

// ---------------------------------------------------------------------------
// Building a sidecar
// ---------------------------------------------------------------------------

/// A section reference names `bytes` at `offset`.
pub open spec fn spec_section_names(s: SectionRef, offset: int, bytes: Seq<u8>) -> bool {
    &&& s.offset == offset
    &&& s.size == bytes.len()
    &&& spec_is_blake3_checksum(s.checksum, blake3_digest(bytes))
}

/// The manifest of a version-2 sidecar over container `d`, whose sections are
/// the granule, term and posting bytes laid end to end.
pub open spec fn spec_manifest_for(
    m: SidecarManifest,
    d: SkeletonDetails,
    footer: Checksum,
    index_type: Seq<char>,
    ngram_n: Option<usize>,
    complete: bool,
    high_df_per_million: u32,
    ge: GranuleEncoding,
    gb: Seq<u8>,
    tb: Seq<u8>,
    pb: Seq<u8>,
) -> bool {
    &&& m.source_container_id == d.summary.container_id
    &&& m.source_original_checksum == d.metadata.original_checksum
    &&& m.source_qzt_footer_checksum == footer
    &&& m.index_type@ == index_type
    &&& m.ngram_n == ngram_n
    &&& m.complete == complete
    &&& m.high_df_per_million == high_df_per_million
    &&& m.index_size_bytes == gb.len() + tb.len() + pb.len()
    &&& m.source_size_bytes == d.summary.original_size
    &&& m.format_version == SidecarFormatVersion::V2
    &&& m.granule_encoding == ge
    &&& m.term_encoding == TermEncoding::CompactV2
    &&& spec_section_names(m.granules, 0, gb)
    &&& spec_section_names(m.terms, gb.len() as int, tb)
    &&& spec_section_names(m.postings, (gb.len() + tb.len()) as int, pb)
}

/// Magic, manifest length, manifest and the three sections.
pub open spec fn spec_sidecar_layout(m: SidecarManifest, gb: Seq<u8>, tb: Seq<u8>, pb: Seq<u8>) -> Result<Seq<u8>> {
    match spec_encode_det(spec_manifest_item(m)) {
        Err(e) => Err(e),
        Ok(mb) => Ok(SIDECAR_MAGIC@ + spec_u64_to_le_bytes(mb.len() as u64) + mb + gb + tb + pb),
    }
}

/// The granule layout a granule list is written in.
pub open spec fn spec_chosen_granule_encoding(gs: Seq<SearchGranule>) -> GranuleEncoding {
    if crate::search::spec_compact_granules(gs) {
        GranuleEncoding::LineImpliedV2
    } else {
        GranuleEncoding::LegacyV1
    }
}

/// `r` is the sidecar of an index with these granules, terms and postings
/// over container `d`.
pub open spec fn spec_sidecar_of(
    d: SkeletonDetails,
    footer: Checksum,
    index_type: Seq<char>,
    ngram_n: Option<usize>,
    complete: bool,
    high_df_per_million: u32,
    gs: Seq<SearchGranule>,
    ts: Seq<TermDictionaryEntry>,
    ps: Seq<Vec<u64>>,
    r: Result<Vec<u8>>,
) -> bool {
    let ge = spec_chosen_granule_encoding(gs);
    match spec_encode_granules(gs, ge) {
        Err(e) => r == Err::<Vec<u8>, QztError>(e),
        Ok(gb) => match spec_encode_postings(ps, ps.len() as int) {
            Err(e) => r == Err::<Vec<u8>, QztError>(e),
            Ok(pb) => {
                let tb = spec_encode_terms(ts, TermEncoding::CompactV2);
                if gb.len() + tb.len() + pb.len() > u64::MAX {
                    r == Err::<Vec<u8>, QztError>(QztError::ResourceLimitExceeded)
                } else {
                    exists|m: SidecarManifest| #[trigger] spec_manifest_for(m, d, footer, index_type, ngram_n, complete, high_df_per_million, ge, gb, tb, pb)
                        && match r {
                            Ok(b) => spec_sidecar_layout(m, gb, tb, pb) == Ok::<Seq<u8>, QztError>(b@),
                            Err(e) => spec_sidecar_layout(m, gb, tb, pb) == Err::<Seq<u8>, QztError>(e),
                        }
                }
            },
        },
    }
}

/// Writes the sidecar of an index's parts over container `details`.
fn sidecar_from_parts(
    details: &SkeletonDetails,
    footer: Checksum,
    index_type: &str,
    ngram_n: Option<usize>,
    complete: bool,
    high_df_per_million: u32,
    granules: &Vec<SearchGranule>,
    terms: &Vec<TermDictionaryEntry>,
    postings: &Vec<Vec<u64>>,
) -> (r: Result<Vec<u8>>)
    ensures
        spec_sidecar_of(*details, footer, index_type@, ngram_n, complete, high_df_per_million, granules@, terms@, postings@, r),
{
    let granule_encoding = if crate::search::compact_line_granules_supported(granules) {
        GranuleEncoding::LineImpliedV2
    } else {
        GranuleEncoding::LegacyV1
    };
    let granule_bytes = encode_granules(granules, granule_encoding)?;
    let posting_bytes = encode_posting_section(postings)?;
    let term_bytes = encode_terms(terms, TermEncoding::CompactV2);
    let ghost gb = granule_bytes@;
    let ghost tb = term_bytes@;
    let ghost pb = posting_bytes@;
    let terms_offset = usize_to_u64(granule_bytes.len())?;
    let term_size = usize_to_u64(term_bytes.len())?;
    let posting_size = usize_to_u64(posting_bytes.len())?;
    if terms_offset > u64::MAX - term_size {
        return Err(QztError::ResourceLimitExceeded);
    }
    let postings_offset = terms_offset + term_size;
    if postings_offset > u64::MAX - posting_size {
        return Err(QztError::ResourceLimitExceeded);
    }
    let index_size_bytes = postings_offset + posting_size;
    let manifest = SidecarManifest {
        source_container_id: details.summary.container_id,
        source_original_checksum: crate::schema::copy_checksum(&details.metadata.original_checksum),
        source_qzt_footer_checksum: footer,
        index_type: index_type.to_owned(),
        ngram_n,
        complete,
        high_df_per_million,
        index_size_bytes,
        source_size_bytes: details.summary.original_size,
        format_version: SidecarFormatVersion::V2,
        granule_encoding,
        term_encoding: TermEncoding::CompactV2,
        granules: SectionRef { offset: 0, size: terms_offset, checksum: Checksum::blake3(granule_bytes.as_slice()) },
        terms: SectionRef { offset: terms_offset, size: term_size, checksum: Checksum::blake3(term_bytes.as_slice()) },
        postings: SectionRef { offset: postings_offset, size: posting_size, checksum: Checksum::blake3(posting_bytes.as_slice()) },
    };
    assert(spec_manifest_for(manifest, *details, footer, index_type@, ngram_n, complete, high_df_per_million, granule_encoding, gb, tb, pb));
    let manifest_bytes = match encode_manifest(&manifest) {
        Ok(b) => b,
        Err(e) => {
            return Err(e);
        },
    };
    let manifest_len = usize_to_u64(manifest_bytes.len())?;
    let mut bytes: Vec<u8> = Vec::new();
    extend_bytes(&mut bytes, &SIDECAR_MAGIC);
    push_u64_le(&mut bytes, manifest_len);
    extend_bytes(&mut bytes, manifest_bytes.as_slice());
    extend_bytes(&mut bytes, granule_bytes.as_slice());
    extend_bytes(&mut bytes, term_bytes.as_slice());
    extend_bytes(&mut bytes, posting_bytes.as_slice());
    Ok(bytes)
}

/// The n-gram length of an index kind; zero for tokens.
pub open spec fn spec_kind_n(kind: SidecarIndexKind) -> usize {
    match kind {
        SidecarIndexKind::Ngram { n } => n,
        SidecarIndexKind::Token => 0,
    }
}

/// `r` is the sidecar of an index of `kind` built over the container held by
/// `s` with details `d`, bound to footer checksum `footer`.
pub open spec fn spec_built_sidecar(s: Seq<u8>, d: SkeletonDetails, footer: Checksum, kind: SidecarIndexKind, r: Result<Vec<u8>>) -> bool {
    exists|gs: Seq<SearchGranule>, ts: Seq<TermDictionaryEntry>, ps: Seq<Vec<u64>>| {
        &&& #[trigger] crate::search::spec_built_from(s, d, kind is Ngram, spec_kind_n(kind), gs, ts, ps)
        &&& crate::search::spec_index_ok(d.summary.original_size, gs, ts, ps)
        &&& match kind {
            SidecarIndexKind::Token => spec_sidecar_of(d, footer, "token"@, None, true, 200_000, gs, ts, ps, r),
            SidecarIndexKind::Ngram { n } => spec_sidecar_of(d, footer, "ngram"@, Some(n), true, 200_000, gs, ts, ps, r),
        }
    }
}

/// Builds a sidecar from a positioned container, decoding one chunk at a
/// time; the same bytes as [`build_search_sidecar`] gives for the container's
/// bytes.
pub fn build_search_sidecar_from_file<R: ReadAt>(reader: &QztFileReader<R>, kind: SidecarIndexKind) -> (r: Result<Vec<u8>>)
    ensures
        kind matches SidecarIndexKind::Ngram { n } && n == 0 ==> r is Err,
        r is Ok ==> exists|footer: Checksum|
            #[trigger] spec_is_blake3_checksum(footer, blake3_digest(reader.spec_bytes().subrange(
                reader.spec_details().footer_payload_offset as int, reader.spec_bytes().len() - 64)))
            && spec_built_sidecar(reader.spec_bytes(), reader.spec_details(), footer, kind, r),
        reader.spec_source().spec_reliable() && reader.spec_bytes().len() <= reader.spec_source().spec_content().len()
            && reader.spec_details().chunk_entries@.len() == 0 && !(kind matches SidecarIndexKind::Ngram { n } && n == 0)
            ==> exists|footer: Checksum|
            #[trigger] spec_is_blake3_checksum(footer, blake3_digest(reader.spec_bytes().subrange(
                reader.spec_details().footer_payload_offset as int, reader.spec_bytes().len() - 64)))
            && spec_built_sidecar(reader.spec_bytes(), reader.spec_details(), footer, kind, r),
{
    let details = reader.skeleton_details();
    let footer = reader.footer_checksum()?;
    let ghost fc = footer;
    match kind {
        SidecarIndexKind::Token => {
            let index = RawTokenIndex::build_from_file(reader, TokenIndexBuildOptions::default())?;
            let r = sidecar_from_parts(details, footer, "token", None, index.complete, 200_000,
                &index.granules, &index.terms, &index.postings);
            proof {
                reveal_strlit("token");
                assert(spec_built_from(reader.spec_bytes(), reader.spec_details(), kind is Ngram, spec_kind_n(kind), index.granules@, index.terms@, index.postings@));
                assert(spec_built_sidecar(reader.spec_bytes(), reader.spec_details(), fc, kind, r));
            }
            r
        },
        SidecarIndexKind::Ngram { n } => {
            let mut options = NgramIndexBuildOptions::default();
            options.n = n;
            let index = RawNgramIndex::build_from_file(reader, options)?;
            let r = sidecar_from_parts(details, footer, "ngram", Some(n), index.complete,
                index.planner_config.high_df_per_million, &index.granules, &index.terms, &index.postings);
            proof {
                assert(spec_built_from(reader.spec_bytes(), reader.spec_details(), kind is Ngram, spec_kind_n(kind), index.granules@, index.terms@, index.postings@));
                assert(spec_built_sidecar(reader.spec_bytes(), reader.spec_details(), fc, kind, r));
            }
            r
        },
    }
}

/// Builds a sidecar for an in-memory container.
pub fn build_search_sidecar(qzt_bytes: &[u8], kind: SidecarIndexKind) -> (r: Result<Vec<u8>>)
    ensures
        kind matches SidecarIndexKind::Ngram { n } && n == 0 ==> r is Err,
        r is Ok ==> exists|d: SkeletonDetails, footer: Checksum|
            #[trigger] spec_skeleton_holds(qzt_bytes@, spec_default_resource_limits(), d)
            && #[trigger] spec_is_blake3_checksum(footer, blake3_digest(qzt_bytes@.subrange(d.footer_payload_offset as int, qzt_bytes@.len() - 64)))
            && spec_built_sidecar(qzt_bytes@, d, footer, kind, r),
        crate::search::spec_chunkless_container(qzt_bytes@) && !(kind matches SidecarIndexKind::Ngram { n } && n == 0)
            ==> exists|d: SkeletonDetails, footer: Checksum|
            #[trigger] spec_skeleton_holds(qzt_bytes@, spec_default_resource_limits(), d)
            && #[trigger] spec_is_blake3_checksum(footer, blake3_digest(qzt_bytes@.subrange(d.footer_payload_offset as int, qzt_bytes@.len() - 64)))
            && spec_built_sidecar(qzt_bytes@, d, footer, kind, r),
{
    let len = usize_to_u64(qzt_bytes.len())?;
    proof {
        assert(spec_file_bytes(qzt_bytes@, len) =~= qzt_bytes@);
    }
    let reader = QztFileReader::open_read_at(qzt_bytes, len)?;
    let r = build_search_sidecar_from_file(&reader, kind);
    proof {
        assert(spec_skeleton_holds(qzt_bytes@, spec_default_resource_limits(), reader.spec_details()));
    }
    r
}

// ---------------------------------------------------------------------------
// Opening an in-memory sidecar
// ---------------------------------------------------------------------------

/// Opened QZI sidecar.
pub struct QziSidecar {
    pub manifest: SidecarManifest,
    pub index: SidecarSearchIndex,
}

/// Search index restored from the sidecar payload sections.
pub enum SidecarSearchIndex {
    Token(RawTokenIndex),
    Ngram(RawNgramIndex),
}

/// Whether sidecar bytes open with the magic and room for the manifest length.
pub open spec fn spec_sidecar_header_ok(sc: Seq<u8>) -> bool {
    sc.len() >= SIDECAR_HEADER_LEN && sc.subrange(0, 8) == SIDECAR_MAGIC@
}

/// Length of the manifest a sidecar header announces.
pub open spec fn spec_manifest_len(sc: Seq<u8>) -> int {
    spec_u64_from_le_bytes(sc.subrange(8, 16)) as int
}

/// Bytes of the section a reference names, `base` bytes into the sidecar.
pub open spec fn spec_section_bytes(sc: Seq<u8>, base: int, s: SectionRef) -> Seq<u8> {
    sc.subrange(base + s.offset, base + s.offset + s.size)
}

/// The section lies inside the sidecar and carries its BLAKE3 checksum.
pub open spec fn spec_section_checked(sc: Seq<u8>, base: int, s: SectionRef) -> bool {
    &&& base + s.offset + s.size <= sc.len()
    &&& spec_is_blake3_checksum(s.checksum, blake3_digest(spec_section_bytes(sc, base, s)))
}

/// The manifest of an opened sidecar is bound to container bytes `q`: same
/// container identifier and original checksum, and the footer checksum of `q`.
pub open spec fn spec_bound_to(q: Seq<u8>, m: SidecarManifest) -> bool {
    exists|d: SkeletonDetails| #[trigger] spec_skeleton_holds(q, spec_default_resource_limits(), d)
        && m.source_container_id == d.summary.container_id
        && m.source_original_checksum.algorithm@ == d.metadata.original_checksum.algorithm@
        && m.source_original_checksum.value@ == d.metadata.original_checksum.value@
        && q.len() >= 64
        && d.footer_payload_offset <= q.len() - 64
        && m.source_qzt_footer_checksum.algorithm@ == "blake3"@
        && m.source_qzt_footer_checksum.value@ == blake3_digest(q.subrange(d.footer_payload_offset as int, q.len() - 64))
}

/// The index was restored from the checked payload sections.
pub open spec fn spec_index_from_sections(sc: Seq<u8>, base: int, m: SidecarManifest, idx: SidecarSearchIndex) -> bool {
    let gsec = spec_section_bytes(sc, base, m.granules);
    let tsec = spec_section_bytes(sc, base, m.terms);
    let psec = spec_section_bytes(sc, base, m.postings);
    exists|ts: Seq<TermDictionaryEntry>| {
        &&& #[trigger] spec_decode_terms(tsec, m.term_encoding) == Ok::<_, QztError>(terms_view(ts))
        &&& match idx {
            SidecarSearchIndex::Token(i) => {
                &&& m.index_type@ == "token"@
                &&& spec_decode_granules(gsec, m.granule_encoding) == Ok::<Seq<SearchGranule>, QztError>(i.granules@)
                &&& spec_decode_postings_from(psec, ts, 0) == Ok::<Seq<Seq<u64>>, QztError>(crate::search::lists_view(i.postings@))
                &&& crate::search::term_keys(i.terms@) == crate::search::term_keys(ts)
                &&& i.container_id == m.source_container_id
                &&& i.source_size_bytes == m.source_size_bytes
            },
            SidecarSearchIndex::Ngram(i) => {
                &&& m.index_type@ == "ngram"@
                &&& m.ngram_n == Some(i.declaration.n)
                &&& i.complete == m.complete
                &&& i.planner_config.high_df_per_million == m.high_df_per_million
                &&& spec_decode_granules(gsec, m.granule_encoding) == Ok::<Seq<SearchGranule>, QztError>(i.granules@)
                &&& spec_decode_postings_from(psec, ts, 0) == Ok::<Seq<Seq<u64>>, QztError>(crate::search::lists_view(i.postings@))
                &&& crate::search::term_keys(i.terms@) == crate::search::term_keys(ts)
                &&& i.container_id == m.source_container_id
                &&& i.source_size_bytes == m.source_size_bytes
            },
        }
    }
}

/// What an opened sidecar holds: the manifest its header names, bound to the
/// container, and the index restored from its checked sections.
pub open spec fn spec_sidecar_opened(q: Seq<u8>, sc: Seq<u8>, s: QziSidecar) -> bool {
    let ml = spec_manifest_len(sc);
    let mb = sc.subrange(16, 16 + ml);
    &&& spec_sidecar_header_ok(sc)
    &&& 16 + ml <= sc.len()
    &&& spec_manifest_decode_error(mb) is None
    &&& spec_manifest_matches(spec_validate(mb, spec_default_limits())->Ok_0->Mapping_0, s.manifest)
    &&& spec_bound_to(q, s.manifest)
    &&& spec_section_checked(sc, 16 + ml, s.manifest.granules)
    &&& spec_section_checked(sc, 16 + ml, s.manifest.terms)
    &&& spec_section_checked(sc, 16 + ml, s.manifest.postings)
    &&& spec_index_from_sections(sc, 16 + ml, s.manifest, s.index)
}

/// The payload section a reference names, checked against its checksum.
fn section_slice<'a>(bytes: &'a [u8], base: usize, section: &SectionRef) -> (r: Result<&'a [u8]>)
    ensures
        match r {
            Ok(sl) => spec_section_checked(bytes@, base as int, *section) && sl@ == spec_section_bytes(bytes@, base as int, *section),
            Err(e) => e == QztError::ResourceLimitExceeded || e == QztError::UnexpectedEof || e == QztError::ContainerCorrupt,
        },
        match r {
            Ok(_) => spec_payload_section_error(bytes@, base as int, *section) is None,
            Err(e) => spec_payload_section_error(bytes@, base as int, *section) == Some(e),
        },
{
    let offset = u64_to_usize(section.offset)?;
    let size = u64_to_usize(section.size)?;
    if base > usize::MAX - offset {
        return Err(QztError::ResourceLimitExceeded);
    }
    let start = base + offset;
    if start > usize::MAX - size {
        return Err(QztError::ResourceLimitExceeded);
    }
    let end = start + size;
    if end > bytes.len() {
        return Err(QztError::UnexpectedEof);
    }
    let slice = crate::skeleton::slice_subrange(bytes, start, end);
    if !Checksum::blake3(slice).same_as(&section.checksum) {
        return Err(QztError::ContainerCorrupt);
    }
    Ok(slice)
}

/// The error of a payload section at `base` of sidecar bytes `sc`: an offset
/// past the address space, a section past the end, or a wrong checksum.
pub open spec fn spec_payload_section_error(sc: Seq<u8>, base: int, s: SectionRef) -> Option<QztError> {
    if s.offset > usize::MAX || s.size > usize::MAX || base + s.offset > usize::MAX || base + s.offset + s.size > usize::MAX {
        Some(QztError::ResourceLimitExceeded)
    } else if base + s.offset + s.size > sc.len() {
        Some(QztError::UnexpectedEof)
    } else if !spec_is_blake3_checksum(s.checksum, blake3_digest(spec_section_bytes(sc, base, s))) {
        Some(QztError::ContainerCorrupt)
    } else {
        None
    }
}

/// Restoring an index of the manifest's kind from decoded granules, terms
/// and posting lists fails with `e`.
pub open spec fn spec_restore_failure(m: SidecarManifest, gs: Seq<SearchGranule>, ts: Seq<TermDictionaryEntry>, ps: Seq<Vec<u64>>, e: QztError) -> bool {
    let parts = match crate::search::spec_granules_error(m.source_size_bytes, gs, gs.len() as int) {
        Some(x) => e == x,
        None => match crate::search::spec_dictionary_shape_error(ts, ps, gs.len() as usize) {
            Some(x) => e == x,
            None => e == QztError::ResourceLimitExceeded && (crate::search::spec_posting_offset(ps, ps.len() as int) > u64::MAX
                || (m.index_type@ == "ngram"@ && crate::search::spec_skip_offset(ps, ps.len() as int, true) > u64::MAX)),
        },
    };
    if m.index_type@ == "token"@ {
        parts
    } else if m.index_type@ == "ngram"@ {
        match m.ngram_n {
            None => e == QztError::ContainerCorrupt,
            Some(_) => parts,
        }
    } else {
        e == QztError::ContainerCorrupt
    }
}

#[verifier::opaque]
/// Reading the payload sections at `base` fails with `e`: a section error,
/// in order, then a decoding error, then restoring the index.
pub open spec fn spec_sections_failure(sc: Seq<u8>, base: int, m: SidecarManifest, e: QztError) -> bool {
    match spec_payload_section_error(sc, base, m.granules) {
        Some(x) => e == x,
        None => match spec_payload_section_error(sc, base, m.terms) {
            Some(x) => e == x,
            None => match spec_payload_section_error(sc, base, m.postings) {
                Some(x) => e == x,
                None => match spec_decode_granules(spec_section_bytes(sc, base, m.granules), m.granule_encoding) {
                    Err(x) => e == x,
                    Ok(gs) => match spec_decode_terms(spec_section_bytes(sc, base, m.terms), m.term_encoding) {
                        Err(x) => e == x,
                        Ok(tv) => exists|ts: Seq<TermDictionaryEntry>| #[trigger] terms_view(ts) == tv
                            && match spec_decode_postings_from(spec_section_bytes(sc, base, m.postings), ts, 0) {
                                Err(x) => e == x,
                                Ok(pv) => exists|ps: Seq<Vec<u64>>| #[trigger] crate::search::lists_view(ps) == pv
                                    && spec_restore_failure(m, gs, ts, ps, e),
                            },
                    },
                },
            },
        },
    }
}

#[verifier::opaque]
/// Binding manifest `m` to container bytes `q` with details `d`, then reading
/// the sections at `base`, fails with `e`.
pub open spec fn spec_binding_failure(q: Seq<u8>, sc: Seq<u8>, base: int, m: SidecarManifest, d: SkeletonDetails, e: QztError) -> bool {
    if m.source_container_id@ != d.summary.container_id@ {
        e == QztError::ContainerIdMismatch
    } else if !(m.source_original_checksum.algorithm@ == d.metadata.original_checksum.algorithm@
        && m.source_original_checksum.value@ == d.metadata.original_checksum.value@) {
        e == QztError::ContainerCorrupt
    } else if !spec_is_blake3_checksum(m.source_qzt_footer_checksum, blake3_digest(q.subrange(d.footer_payload_offset as int, q.len() - 64))) {
        e == QztError::ContainerCorrupt
    } else {
        spec_sections_failure(sc, base, m, e)
    }
}

/// Opening sidecar bytes `sc` over container bytes `q` fails with `e`: the
/// header, the manifest length, the manifest, opening the container, the
/// binding, the sections and the restored index, checked in that order.
pub open spec fn spec_sidecar_open_failure(q: Seq<u8>, sc: Seq<u8>, e: QztError) -> bool {
    if !spec_sidecar_header_ok(sc) {
        e == QztError::InvalidHeader
    } else {
        let ms = spec_u64_from_le_bytes(sc.subrange(8, 16));
        if ms > usize::MAX || ms > usize::MAX - 16 {
            e == QztError::ResourceLimitExceeded
        } else if 16 + ms > sc.len() {
            e == QztError::UnexpectedEof
        } else {
            let mb = sc.subrange(16, 16 + ms);
            match spec_manifest_decode_error(mb) {
                Some(x) => e == x,
                None => crate::skeleton::spec_open_failure(q, spec_default_resource_limits(), e)
                    || (crate::skeleton::spec_skeleton_error(q, spec_default_resource_limits()) is None
                        && exists|m: SidecarManifest, d: SkeletonDetails|
                            #[trigger] spec_manifest_matches(spec_validate(mb, spec_default_limits())->Ok_0->Mapping_0, m)
                            && #[trigger] spec_skeleton_holds(q, spec_default_resource_limits(), d)
                            && spec_binding_failure(q, sc, 16 + ms, m, d, e)),
            }
        }
    }
}

/// A failure to restore the index after every section decoded is a failure
/// of opening the sidecar.
proof fn lemma_open_restore_failed(
    q: Seq<u8>,
    sc: Seq<u8>,
    base: int,
    m: SidecarManifest,
    d: SkeletonDetails,
    gs: Seq<SearchGranule>,
    ts: Seq<TermDictionaryEntry>,
    ps: Seq<Vec<u64>>,
    e: QztError,
)
    requires
        spec_payload_section_error(sc, base, m.granules) is None,
        spec_payload_section_error(sc, base, m.terms) is None,
        spec_payload_section_error(sc, base, m.postings) is None,
        spec_decode_granules(spec_section_bytes(sc, base, m.granules), m.granule_encoding) == Ok::<Seq<SearchGranule>, QztError>(gs),
        spec_decode_terms(spec_section_bytes(sc, base, m.terms), m.term_encoding) == Ok::<_, QztError>(terms_view(ts)),
        spec_decode_postings_from(spec_section_bytes(sc, base, m.postings), ts, 0) == Ok::<Seq<Seq<u64>>, QztError>(crate::search::lists_view(ps)),
        spec_restore_failure(m, gs, ts, ps, e),
    ensures
        spec_sections_failure(sc, base, m, e),
{
    reveal(spec_sections_failure);
}

/// Once the manifest is bound, a failure of the sections is a failure of
/// the binding stage.
proof fn lemma_bound_then(q: Seq<u8>, sc: Seq<u8>, base: int, m: SidecarManifest, d: SkeletonDetails, footer: Checksum, e: QztError)
    requires
        m.source_container_id@ == d.summary.container_id@,
        m.source_original_checksum.algorithm@ == d.metadata.original_checksum.algorithm@,
        m.source_original_checksum.value@ == d.metadata.original_checksum.value@,
        q.len() >= 64,
        spec_is_blake3_checksum(footer, blake3_digest(q.subrange(d.footer_payload_offset as int, q.len() - 64))),
        m.source_qzt_footer_checksum.algorithm@ == footer.algorithm@,
        m.source_qzt_footer_checksum.value@ == footer.value@,
        spec_sections_failure(sc, base, m, e),
    ensures
        spec_binding_failure(q, sc, base, m, d, e),
{
    reveal(spec_binding_failure);
}

/// The BLAKE3 checksum of the footer payload region of in-memory container bytes.
fn qzt_footer_checksum(qzt_bytes: &[u8], footer_payload_offset: u64) -> (r: Result<Checksum>)
    ensures
        match r {
            Ok(c) => qzt_bytes@.len() >= 64 && footer_payload_offset <= qzt_bytes@.len() - 64
                && spec_is_blake3_checksum(c, blake3_digest(qzt_bytes@.subrange(footer_payload_offset as int, qzt_bytes@.len() - 64))),
            Err(e) => (e == QztError::InvalidFooterTrailer && qzt_bytes@.len() < 64)
                || (e == QztError::UnexpectedEof && qzt_bytes@.len() >= 64 && footer_payload_offset > qzt_bytes@.len() - 64)
                || (e == QztError::ResourceLimitExceeded && footer_payload_offset > usize::MAX),
        },
{
    let start = u64_to_usize(footer_payload_offset)?;
    if qzt_bytes.len() < 64 {
        return Err(QztError::InvalidFooterTrailer);
    }
    let end = qzt_bytes.len() - 64;
    if start > end {
        return Err(QztError::UnexpectedEof);
    }
    Ok(Checksum::blake3(crate::skeleton::slice_subrange(qzt_bytes, start, end)))
}

impl QziSidecar {
    /// Whether the restored index has the shape search relies on.
    pub open spec fn wf(&self) -> bool {
        match self.index {
            SidecarSearchIndex::Token(i) => i.wf(),
            SidecarSearchIndex::Ngram(i) => i.wf(),
        }
    }

    /// Opens a sidecar over an in-memory container: checks the header, the
    /// manifest, its binding to the container and every section checksum, and
    /// restores the index.
    #[verifier::rlimit(100)]
    #[verifier::spinoff_prover]
    pub fn open(qzt_bytes: &[u8], sidecar_bytes: &[u8]) -> (r: Result<Self>)
        ensures
            !spec_sidecar_header_ok(sidecar_bytes@) ==> r == Err::<Self, QztError>(QztError::InvalidHeader),
            r matches Ok(s) ==> s.wf() && spec_sidecar_opened(qzt_bytes@, sidecar_bytes@, s),
            r matches Err(e) ==> spec_sidecar_open_failure(qzt_bytes@, sidecar_bytes@, e),
    {
        let ghost q = qzt_bytes@;
        let ghost sc = sidecar_bytes@;
        if sidecar_bytes.len() < SIDECAR_HEADER_LEN
            || !bytes_equal(crate::skeleton::slice_subrange(sidecar_bytes, 0, 8), &SIDECAR_MAGIC) {
            return Err(QztError::InvalidHeader);
        }
        let manifest_size = read_u64_le(crate::skeleton::slice_subrange(sidecar_bytes, 8, 16))?;
        let manifest_size_usize = u64_to_usize(manifest_size)?;
        if manifest_size_usize > usize::MAX - SIDECAR_HEADER_LEN {
            return Err(QztError::ResourceLimitExceeded);
        }
        let manifest_end = SIDECAR_HEADER_LEN + manifest_size_usize;
        if manifest_end > sidecar_bytes.len() {
            return Err(QztError::UnexpectedEof);
        }
        let ghost mb = sc.subrange(16, manifest_end as int);
        let manifest = decode_manifest(crate::skeleton::slice_subrange(sidecar_bytes, SIDECAR_HEADER_LEN, manifest_end))?;
        let details = crate::skeleton::open_skeleton_details(qzt_bytes)?;
        proof {
            crate::skeleton::lemma_footer_before_trailer(q, spec_default_resource_limits(), details);
            assert(spec_manifest_matches(spec_validate(mb, spec_default_limits())->Ok_0->Mapping_0, manifest));
        }
        if !bytes_equal(&manifest.source_container_id, &details.summary.container_id) {
            proof {
                assert(spec_binding_failure(q, sc, manifest_end as int, manifest, details, QztError::ContainerIdMismatch)) by {
                    reveal(spec_binding_failure);
                }
            }
            return Err(QztError::ContainerIdMismatch);
        }
        if !manifest.source_original_checksum.same_as(&details.metadata.original_checksum) {
            proof {
                assert(spec_binding_failure(q, sc, manifest_end as int, manifest, details, QztError::ContainerCorrupt)) by {
                    reveal(spec_binding_failure);
                }
            }
            return Err(QztError::ContainerCorrupt);
        }
        let qlen = qzt_bytes.len();
        let footer = match qzt_footer_checksum(qzt_bytes, details.footer_payload_offset) {
            Ok(f) => f,
            Err(e) => {
                proof {
                    assert(q.len() >= 192);
                    assert(details.footer_payload_offset <= q.len() - 64);
                    assert(q.len() == qlen);
                    assert(false);
                }
                return Err(e);
            },
        };
        if !manifest.source_qzt_footer_checksum.same_as(&footer) {
            proof {
                assert(spec_binding_failure(q, sc, manifest_end as int, manifest, details, QztError::ContainerCorrupt)) by {
                    reveal(spec_binding_failure);
                }
            }
            return Err(QztError::ContainerCorrupt);
        }
        proof {
            assert(manifest.source_container_id@ =~= details.summary.container_id@);
            assert(manifest.source_container_id =~= details.summary.container_id) by {
                assert forall|i: int| 0 <= i < 16 implies manifest.source_container_id[i] == details.summary.container_id[i] by {
                    assert(manifest.source_container_id@[i] == details.summary.container_id@[i]);
                }
            }
            assert(spec_bound_to(qzt_bytes@, manifest));
        }
        let section_base = manifest_end;
        let granule_bytes = match section_slice(sidecar_bytes, section_base, &manifest.granules) {
            Ok(b) => b,
            Err(e) => {
                proof {
                    assert(spec_sections_failure(sc, manifest_end as int, manifest, e)) by {
                        reveal(spec_sections_failure);
                    }
                    lemma_bound_then(q, sc, manifest_end as int, manifest, details, footer, e);
                }
                return Err(e);
            },
        };
        let term_bytes = match section_slice(sidecar_bytes, section_base, &manifest.terms) {
            Ok(b) => b,
            Err(e) => {
                proof {
                    assert(spec_sections_failure(sc, manifest_end as int, manifest, e)) by {
                        reveal(spec_sections_failure);
                    }
                    lemma_bound_then(q, sc, manifest_end as int, manifest, details, footer, e);
                }
                return Err(e);
            },
        };
        let posting_bytes = match section_slice(sidecar_bytes, section_base, &manifest.postings) {
            Ok(b) => b,
            Err(e) => {
                proof {
                    assert(spec_sections_failure(sc, manifest_end as int, manifest, e)) by {
                        reveal(spec_sections_failure);
                    }
                    lemma_bound_then(q, sc, manifest_end as int, manifest, details, footer, e);
                }
                return Err(e);
            },
        };
        let granules = match decode_granules(granule_bytes, manifest.granule_encoding) {
            Ok(g) => g,
            Err(e) => {
                proof {
                    assert(spec_sections_failure(sc, manifest_end as int, manifest, e)) by {
                        reveal(spec_sections_failure);
                    }
                    lemma_bound_then(q, sc, manifest_end as int, manifest, details, footer, e);
                }
                return Err(e);
            },
        };
        let terms = match decode_terms(term_bytes, manifest.term_encoding) {
            Ok(t) => t,
            Err(e) => {
                proof {
                    assert(spec_sections_failure(sc, manifest_end as int, manifest, e)) by {
                        reveal(spec_sections_failure);
                    }
                    lemma_bound_then(q, sc, manifest_end as int, manifest, details, footer, e);
                }
                return Err(e);
            },
        };
        let postings = match decode_posting_section(posting_bytes, &terms) {
            Ok(p) => p,
            Err(e) => {
                proof {
                    assert(terms_view(terms@) == spec_decode_terms(spec_section_bytes(sc, manifest_end as int, manifest.terms), manifest.term_encoding)->Ok_0);
                    assert(spec_sections_failure(sc, manifest_end as int, manifest, e)) by {
                        reveal(spec_sections_failure);
                    }
                    lemma_bound_then(q, sc, manifest_end as int, manifest, details, footer, e);
                }
                return Err(e);
            },
        };
        let ghost tsv = terms@;
        let ghost gv = granules@;
        let ghost pv = postings@;
        proof {
            reveal_strlit("token");
            reveal_strlit("ngram");
            assert("token"@ != "ngram"@) by {
                assert("token"@[0] != "ngram"@[0]);
            }
        }
        let index = if text_is(&manifest.index_type, "token") {
            let i = match RawTokenIndex::from_parts(manifest.source_container_id, manifest.source_size_bytes, granules, terms, postings) {
                Ok(i) => i,
                Err(e) => {
                    proof {
                        lemma_open_restore_failed(q, sc, manifest_end as int, manifest, details, gv, tsv, pv, e);
                        lemma_bound_then(q, sc, manifest_end as int, manifest, details, footer, e);
                    }
                    return Err(e);
                },
            };
            proof {
                lemma_stat_keys(tsv, pv, i.terms@, false);
            }
            SidecarSearchIndex::Token(i)
        } else if text_is(&manifest.index_type, "ngram") {
            let n = match manifest.ngram_n {
                Some(n) => n,
                None => {
                    proof {
                        lemma_open_restore_failed(q, sc, manifest_end as int, manifest, details, gv, tsv, pv, QztError::ContainerCorrupt);
                        lemma_bound_then(q, sc, manifest_end as int, manifest, details, footer, QztError::ContainerCorrupt);
                    }
                    return Err(QztError::ContainerCorrupt);
                },
            };
            let mut options = NgramIndexBuildOptions::default();
            options.n = n;
            options.complete = manifest.complete;
            options.high_df_per_million = manifest.high_df_per_million;
            let i = match RawNgramIndex::from_parts(manifest.source_container_id, manifest.source_size_bytes, granules, terms, postings, options) {
                Ok(i) => i,
                Err(e) => {
                    proof {
                        lemma_open_restore_failed(q, sc, manifest_end as int, manifest, details, gv, tsv, pv, e);
                        lemma_bound_then(q, sc, manifest_end as int, manifest, details, footer, e);
                    }
                    return Err(e);
                },
            };
            proof {
                lemma_stat_keys(tsv, pv, i.terms@, true);
            }
            SidecarSearchIndex::Ngram(i)
        } else {
            proof {
                lemma_open_restore_failed(q, sc, manifest_end as int, manifest, details, gv, tsv, pv, QztError::ContainerCorrupt);
                lemma_bound_then(q, sc, manifest_end as int, manifest, details, footer, QztError::ContainerCorrupt);
            }
            return Err(QztError::ContainerCorrupt);
        };
        let s = QziSidecar { manifest, index };
        proof {
            reveal_strlit("token");
            reveal_strlit("ngram");
            assert(spec_decode_terms(spec_section_bytes(sidecar_bytes@, section_base as int, s.manifest.terms), s.manifest.term_encoding)
                == Ok::<_, QztError>(terms_view(tsv)));
            assert(spec_index_from_sections(sidecar_bytes@, section_base as int, s.manifest, s.index));
        }
        Ok(s)
    }

    /// Searches the container the sidecar is bound to with its restored index.
    pub fn search(&self, reader: &QztReader, query: &str, options: SearchOptions) -> (r: Result<SearchReport>)
        requires
            self.wf(),
        ensures
            match self.index {
                SidecarSearchIndex::Token(i) => crate::search::spec_token_search_outcome(i.terms@, i.postings@, i.granules@,
                    reader.spec_bytes(), reader.spec_details(), true, query.spec_bytes(), options, r),
                SidecarSearchIndex::Ngram(i) => crate::search::spec_ngram_search_outcome(i.terms@, i.postings@, i.granules@,
                    i.declaration.n, i.complete, reader.spec_bytes(), reader.spec_details(), true, query.spec_bytes(), options, r),
            },
    {
        match &self.index {
            SidecarSearchIndex::Token(index) => index.search(reader, query, options),
            SidecarSearchIndex::Ngram(index) => index.search(reader, query, options),
        }
    }
}

/// Restating term statistics keeps the keys.
proof fn lemma_stat_keys(ts: Seq<TermDictionaryEntry>, ps: Seq<Vec<u64>>, out: Seq<TermDictionaryEntry>, skips: bool)
    requires
        out.len() == ts.len(),
        forall|i: int| 0 <= i < ts.len() ==> crate::search::spec_stat_term(ts[i], ps, i, skips, #[trigger] out[i]),
    ensures
        crate::search::term_keys(out) == crate::search::term_keys(ts),
{
    assert(crate::search::term_keys(out) =~= crate::search::term_keys(ts)) by {
        assert forall|i: int| 0 <= i < ts.len() implies crate::search::term_keys(out)[i] == crate::search::term_keys(ts)[i] by {
            assert(crate::search::spec_stat_term(ts[i], ps, i, skips, out[i]));
        }
    }
}

// ---------------------------------------------------------------------------
// File-backed sidecar
// ---------------------------------------------------------------------------

/// File-backed QZI sidecar with lazy posting and granule lookup.
///
/// Opening loads only the manifest and the term dictionary and stream-checks
/// every section checksum with a bounded buffer; posting lists and granule
/// records are read from the source per query.
pub struct QziFileSidecar<R: ReadAt> {
    manifest: SidecarManifest,
    source: R,
    len: u64,
    section_base: u64,
    granule_count: u64,
    terms: Vec<TermDictionaryEntry>,
}

/// Bytes `offset..offset + size` of a source.
fn read_vec<R: ReadAt>(source: &R, offset: u64, size: u64) -> (r: Result<Vec<u8>>)
    ensures
        match r {
            Ok(b) => offset + size <= source.spec_content().len() && b@ == source.spec_content().subrange(offset as int, offset + size),
            Err(e) => e == QztError::ResourceLimitExceeded || e == QztError::UnexpectedEof || e == QztError::ContainerCorrupt,
        },
        source.spec_reliable() && offset + size <= source.spec_content().len() && size <= usize::MAX ==> r is Ok,
        size > usize::MAX ==> r == Err::<Vec<u8>, QztError>(QztError::ResourceLimitExceeded),
{
    let len = u64_to_usize(size)?;
    let mut bytes: Vec<u8> = vec![0u8; len];
    crate::skeleton::read_exact_at_qzt(source, offset, bytes.as_mut_slice())?;
    Ok(bytes)
}

/// Streams a section of a positioned source through BLAKE3 and compares the
/// digest with the section's checksum.
fn verify_section_checksum<R: ReadAt>(source: &R, len: u64, section_base: u64, section: &SectionRef) -> (r: Result<()>)
    ensures
        r is Ok ==> spec_section_checked(spec_file_bytes(source.spec_content(), len), section_base as int, *section),
        r matches Err(e) ==> e == QztError::ResourceLimitExceeded || e == QztError::UnexpectedEof
            || e == QztError::ContainerCorrupt || crate::skeleton::spec_io_failure(e),
        source.spec_reliable() && len <= source.spec_content().len() ==> match r {
            Ok(_) => spec_file_section_error(spec_file_bytes(source.spec_content(), len), section_base as int, *section) is None,
            Err(e) => spec_file_section_error(spec_file_bytes(source.spec_content(), len), section_base as int, *section) == Some(e),
        },
{
    if section_base > u64::MAX - section.offset {
        return Err(QztError::ResourceLimitExceeded);
    }
    let start = section_base + section.offset;
    if start > u64::MAX - section.size {
        return Err(QztError::ResourceLimitExceeded);
    }
    let end = start + section.size;
    if end > len {
        return Err(QztError::UnexpectedEof);
    }
    let h = match crate::skeleton::hash_span_at(source, len, start, end) {
        Ok(h) => h,
        Err(e) => {
            return Err(e);
        },
    };
    if !Checksum::from_raw_bytes(h).same_as(&section.checksum) {
        return Err(QztError::ContainerCorrupt);
    }
    Ok(())
}

/// The error of a payload section at `base` of a file-backed sidecar `f`:
/// an offset past `u64`, a section past the end, or a wrong checksum.
pub open spec fn spec_file_section_error(f: Seq<u8>, base: int, s: SectionRef) -> Option<QztError> {
    if base + s.offset > u64::MAX || base + s.offset + s.size > u64::MAX {
        Some(QztError::ResourceLimitExceeded)
    } else if base + s.offset + s.size > f.len() {
        Some(QztError::UnexpectedEof)
    } else if !spec_is_blake3_checksum(s.checksum, blake3_digest(spec_section_bytes(f, base, s))) {
        Some(QztError::ContainerCorrupt)
    } else {
        None
    }
}

/// After the manifest `m` of a file-backed sidecar `f` decoded, binding it to
/// container bytes `q` with details `d` and loading the granule count and
/// the term dictionary from sections at `base` fails with `e`.
#[verifier::opaque]
pub open spec fn spec_file_binding_failure(f: Seq<u8>, q: Seq<u8>, d: SkeletonDetails, base: int, m: SidecarManifest, e: QztError) -> bool {
    if m.source_container_id@ != d.summary.container_id@ {
        e == QztError::ContainerIdMismatch
    } else if !(m.source_original_checksum.algorithm@ == d.metadata.original_checksum.algorithm@
        && m.source_original_checksum.value@ == d.metadata.original_checksum.value@) {
        e == QztError::ContainerCorrupt
    } else if !spec_is_blake3_checksum(m.source_qzt_footer_checksum, blake3_digest(q.subrange(d.footer_payload_offset as int, q.len() - 64))) {
        e == QztError::ContainerCorrupt
    } else if !spec_file_index_type_ok(m) {
        e == QztError::ContainerCorrupt
    } else if spec_file_section_error(f, base, m.granules) is Some {
        spec_file_section_error(f, base, m.granules) == Some(e)
    } else if spec_file_section_error(f, base, m.terms) is Some {
        spec_file_section_error(f, base, m.terms) == Some(e)
    } else if spec_file_section_error(f, base, m.postings) is Some {
        spec_file_section_error(f, base, m.postings) == Some(e)
    } else if m.granules.size < 8 {
        e == QztError::ContainerCorrupt
    } else {
        let go = base + m.granules.offset;
        let count = spec_u64_from_le_bytes(f.subrange(go, go + 8));
        let rec = spec_record_len(m.granule_encoding);
        if count > (u64::MAX - 8) / (rec as int) {
            e == QztError::ResourceLimitExceeded
        } else if count * rec + 8 != m.granules.size {
            e == QztError::ContainerCorrupt
        } else if m.terms.size > usize::MAX {
            e == QztError::ResourceLimitExceeded
        } else {
            match spec_decode_terms(spec_section_bytes(f, base, m.terms), m.term_encoding) {
                Err(x) => e == x,
                Ok(tv) => exists|ts: Seq<TermDictionaryEntry>| #[trigger] terms_view(ts) == tv
                    && spec_file_dictionary_error(ts, m.postings.size, m.term_encoding) == Some(e),
            }
        }
    }
}

/// Opening a file-backed sidecar `f` over container bytes `q` with details
/// `d`, when every read succeeds, fails with `e`: the header, the manifest
/// length and bytes, the manifest, then the binding and loading stage.
pub open spec fn spec_file_sidecar_failure(f: Seq<u8>, q: Seq<u8>, d: SkeletonDetails, e: QztError) -> bool {
    if f.len() < 16 || f.subrange(0, 8) != SIDECAR_MAGIC@ {
        e == QztError::InvalidHeader
    } else {
        let ms = spec_u64_from_le_bytes(f.subrange(8, 16));
        if ms > u64::MAX - 16 {
            e == QztError::ResourceLimitExceeded
        } else if 16 + ms > f.len() {
            e == QztError::UnexpectedEof
        } else if ms > usize::MAX {
            e == QztError::ResourceLimitExceeded
        } else {
            let mb = f.subrange(16, 16 + ms);
            match spec_manifest_decode_error(mb) {
                Some(x) => e == x,
                None => exists|m: SidecarManifest|
                    #[trigger] spec_manifest_matches(spec_validate(mb, spec_default_limits())->Ok_0->Mapping_0, m)
                    && spec_file_binding_failure(f, q, d, 16 + ms, m, e),
            }
        }
    }
}

/// Bytes `a..b` of a source taken as `len` bytes long are the source's own
/// bytes there when the source holds them.
proof fn lemma_file_bytes_within(c: Seq<u8>, len: u64, a: int, b: int)
    requires
        0 <= a <= b <= len,
        b <= c.len(),
    ensures
        spec_file_bytes(c, len).subrange(a, b) == c.subrange(a, b),
{
    assert(spec_file_bytes(c, len).subrange(a, b) =~= c.subrange(a, b));
}

/// What opening a file-backed sidecar establishes of sidecar bytes `f`, the
/// container bytes `q` with details `d`, and the loaded state.
pub open spec fn spec_file_sidecar_opened(
    f: Seq<u8>,
    q: Seq<u8>,
    d: SkeletonDetails,
    m: SidecarManifest,
    base: u64,
    count: u64,
    ts: Seq<TermDictionaryEntry>,
) -> bool {
    let mb = f.subrange(16, base as int);
    &&& spec_sidecar_header_ok(f)
    &&& base == 16 + spec_manifest_len(f)
    &&& base <= f.len()
    &&& spec_manifest_decode_error(mb) is None
    &&& spec_manifest_matches(spec_validate(mb, spec_default_limits())->Ok_0->Mapping_0, m)
    &&& m.source_container_id == d.summary.container_id
    &&& m.source_original_checksum.algorithm@ == d.metadata.original_checksum.algorithm@
    &&& m.source_original_checksum.value@ == d.metadata.original_checksum.value@
    &&& q.len() >= 64
    &&& spec_is_blake3_checksum(m.source_qzt_footer_checksum, blake3_digest(q.subrange(d.footer_payload_offset as int, q.len() - 64)))
    &&& spec_file_index_type_ok(m)
    &&& spec_section_checked(f, base as int, m.granules)
    &&& spec_section_checked(f, base as int, m.terms)
    &&& spec_section_checked(f, base as int, m.postings)
    &&& m.granules.size >= 8
    &&& count == spec_u64_from_le_bytes(f.subrange(base + m.granules.offset, base + m.granules.offset + 8))
    &&& count * spec_record_len(m.granule_encoding) + 8 == m.granules.size
    &&& spec_decode_terms(spec_section_bytes(f, base as int, m.terms), m.term_encoding) == Ok::<_, QztError>(terms_view(ts))
    &&& spec_file_dictionary_error(ts, m.postings.size, m.term_encoding) is None
}

/// A token index, or an n-gram index with a nonzero length.
pub open spec fn spec_file_index_type_ok(m: SidecarManifest) -> bool {
    m.index_type@ == "token"@ || (m.index_type@ == "ngram"@ && (m.ngram_n matches Some(n) && n > 0))
}

impl<R: ReadAt> QziFileSidecar<R> {
    #[verifier::type_invariant]
    spec fn loaded(self) -> bool {
        &&& spec_file_index_type_ok(self.manifest)
        &&& spec_file_dictionary_error(self.terms@, self.manifest.postings.size, self.manifest.term_encoding) is None
    }

    /// The validated manifest.
    pub closed spec fn spec_manifest(&self) -> SidecarManifest {
        self.manifest
    }

    /// The sidecar bytes: the source taken as its announced length.
    pub closed spec fn spec_bytes(&self) -> Seq<u8> {
        spec_file_bytes(self.source.spec_content(), self.len)
    }

    /// Where the payload sections start.
    pub closed spec fn spec_base(&self) -> u64 {
        self.section_base
    }

    /// Number of granule records.
    pub closed spec fn spec_count(&self) -> u64 {
        self.granule_count
    }

    /// The loaded term dictionary.
    pub closed spec fn spec_terms(&self) -> Seq<TermDictionaryEntry> {
        self.terms@
    }

    /// The announced length of the sidecar.
    pub closed spec fn spec_len(&self) -> u64 {
        self.len
    }

    /// The source answers every read within its content, and holds at least
    /// the announced length.
    pub closed spec fn spec_source_holds(&self) -> bool {
        self.source.spec_reliable() && self.len <= self.source.spec_content().len()
    }

    /// Opens a sidecar of `len` bytes over a positioned source and binds it to
    /// `container`: checks the header, the manifest, its binding, every
    /// section checksum, the granule count and the term dictionary.
    pub fn open_read_at<C: ReadAt>(source: R, len: u64, container: &QztFileReader<C>) -> (r: Result<Self>)
        ensures
            len < 16 ==> r == Err::<Self, QztError>(QztError::InvalidHeader),
            source.spec_reliable() && 16 <= len <= source.spec_content().len()
                && source.spec_content().subrange(0, 8) != SIDECAR_MAGIC@ ==> r == Err::<Self, QztError>(QztError::InvalidHeader),
            r matches Ok(s) ==> s.spec_bytes() == spec_file_bytes(source.spec_content(), len)
                && spec_file_sidecar_opened(s.spec_bytes(), container.spec_bytes(), container.spec_details(),
                    s.spec_manifest(), s.spec_base(), s.spec_count(), s.spec_terms()),
            source.spec_reliable() && len <= source.spec_content().len() && container.spec_source().spec_reliable()
                && container.spec_bytes().len() <= container.spec_source().spec_content().len()
                ==> (r matches Err(e) ==> spec_file_sidecar_failure(spec_file_bytes(source.spec_content(), len),
                    container.spec_bytes(), container.spec_details(), e)),
    {
        let ghost rel = source.spec_reliable() && len <= source.spec_content().len() && container.spec_source().spec_reliable()
            && container.spec_bytes().len() <= container.spec_source().spec_content().len();
        let ghost q = container.spec_bytes();
        let ghost d = container.spec_details();
        if len < 16 {
            return Err(QztError::InvalidHeader);
        }
        let ghost c = source.spec_content();
        let ghost f = spec_file_bytes(c, len);
        let mut header: Vec<u8> = vec![0u8; 16];
        crate::skeleton::read_exact_at_qzt(&source, 0, header.as_mut_slice())?;
        proof {
            lemma_file_bytes_within(c, len, 0, 16);
            assert(header@.subrange(0, 8) =~= f.subrange(0, 8));
            assert(header@.subrange(8, 16) =~= f.subrange(8, 16));
        }
        if !bytes_equal(crate::skeleton::slice_subrange(header.as_slice(), 0, 8), &SIDECAR_MAGIC) {
            return Err(QztError::InvalidHeader);
        }
        proof {
            if len <= c.len() {
                assert(f.subrange(0, 8) =~= c.subrange(0, 8));
            }
        }
        let manifest_size = read_u64_le(crate::skeleton::slice_subrange(header.as_slice(), 8, 16))?;
        if manifest_size > u64::MAX - 16 {
            return Err(QztError::ResourceLimitExceeded);
        }
        let manifest_end = 16 + manifest_size;
        if manifest_end > len {
            return Err(QztError::UnexpectedEof);
        }
        let manifest_bytes = read_vec(&source, 16, manifest_size)?;
        proof {
            lemma_file_bytes_within(c, len, 16, manifest_end as int);
        }
        let manifest = decode_manifest(manifest_bytes.as_slice())?;
        let ghost mb = f.subrange(16, manifest_end as int);
        proof {
            assert(manifest_bytes@ == mb);
            assert(spec_manifest_matches(spec_validate(mb, spec_default_limits())->Ok_0->Mapping_0, manifest));
        }
        let details = container.skeleton_details();
        if !bytes_equal(&manifest.source_container_id, &details.summary.container_id) {
            proof {
                assert(spec_file_binding_failure(f, q, d, manifest_end as int, manifest, QztError::ContainerIdMismatch)) by {
                    reveal(spec_file_binding_failure);
                }
            }
            return Err(QztError::ContainerIdMismatch);
        }
        if !manifest.source_original_checksum.same_as(&details.metadata.original_checksum) {
            proof {
                assert(spec_file_binding_failure(f, q, d, manifest_end as int, manifest, QztError::ContainerCorrupt)) by {
                    reveal(spec_file_binding_failure);
                }
            }
            return Err(QztError::ContainerCorrupt);
        }
        let footer = container.footer_checksum()?;
        if !manifest.source_qzt_footer_checksum.same_as(&footer) {
            proof {
                assert(spec_file_binding_failure(f, q, d, manifest_end as int, manifest, QztError::ContainerCorrupt)) by {
                    reveal(spec_file_binding_failure);
                }
            }
            return Err(QztError::ContainerCorrupt);
        }
        proof {
            reveal_strlit("token");
            reveal_strlit("ngram");
            assert("token"@ != "ngram"@) by {
                assert("token"@[0] != "ngram"@[0]);
            }
        }
        if text_is(&manifest.index_type, "token") {
        } else if text_is(&manifest.index_type, "ngram") {
            match manifest.ngram_n {
                Some(n) => {
                    if n == 0 {
                        proof {
                            assert(spec_file_binding_failure(f, q, d, manifest_end as int, manifest, QztError::ContainerCorrupt)) by {
                    reveal(spec_file_binding_failure);
                }
                        }
                        return Err(QztError::ContainerCorrupt);
                    }
                },
                None => {
                    proof {
                        assert(spec_file_binding_failure(f, q, d, manifest_end as int, manifest, QztError::ContainerCorrupt)) by {
                    reveal(spec_file_binding_failure);
                }
                    }
                    return Err(QztError::ContainerCorrupt);
                },
            }
        } else {
            proof {
                assert(spec_file_binding_failure(f, q, d, manifest_end as int, manifest, QztError::ContainerCorrupt)) by {
                    reveal(spec_file_binding_failure);
                }
            }
            return Err(QztError::ContainerCorrupt);
        }
        let section_base = manifest_end;
        match verify_section_checksum(&source, len, section_base, &manifest.granules) {
            Ok(()) => {},
            Err(e) => {
                proof {
                    assert(rel ==> spec_file_binding_failure(f, q, d, manifest_end as int, manifest, e)) by {
                    reveal(spec_file_binding_failure);
                }
                }
                return Err(e);
            },
        }
        match verify_section_checksum(&source, len, section_base, &manifest.terms) {
            Ok(()) => {},
            Err(e) => {
                proof {
                    assert(rel ==> spec_file_binding_failure(f, q, d, manifest_end as int, manifest, e)) by {
                    reveal(spec_file_binding_failure);
                }
                }
                return Err(e);
            },
        }
        match verify_section_checksum(&source, len, section_base, &manifest.postings) {
            Ok(()) => {},
            Err(e) => {
                proof {
                    assert(rel ==> spec_file_binding_failure(f, q, d, manifest_end as int, manifest, e)) by {
                    reveal(spec_file_binding_failure);
                }
                }
                return Err(e);
            },
        }
        if manifest.granules.size < 8 {
            proof {
                assert(rel ==> spec_file_binding_failure(f, q, d, manifest_end as int, manifest, QztError::ContainerCorrupt)) by {
                    reveal(spec_file_binding_failure);
                }
            }
            return Err(QztError::ContainerCorrupt);
        }
        let granule_section_offset = section_base + manifest.granules.offset;
        let count_bytes = read_vec(&source, granule_section_offset, 8)?;
        proof {
            lemma_file_bytes_within(c, len, granule_section_offset as int, granule_section_offset + 8);
        }
        let granule_count = read_u64_le(count_bytes.as_slice())?;
        let record_len = manifest.granule_encoding.record_len();
        if granule_count > (u64::MAX - 8) / record_len {
            proof {
                assert(rel ==> spec_file_binding_failure(f, q, d, manifest_end as int, manifest, QztError::ResourceLimitExceeded)) by {
                    reveal(spec_file_binding_failure);
                }
            }
            return Err(QztError::ResourceLimitExceeded);
        }
        proof {
            let lim: int = (u64::MAX - 8) as int;
            assert(granule_count * record_len <= lim) by (nonlinear_arith)
                requires
                    granule_count <= lim / (record_len as int),
                    record_len > 0,
            ;
        }
        let expected_granule_size = granule_count * record_len + 8;
        if expected_granule_size != manifest.granules.size {
            proof {
                assert(rel ==> spec_file_binding_failure(f, q, d, manifest_end as int, manifest, QztError::ContainerCorrupt)) by {
                    reveal(spec_file_binding_failure);
                }
            }
            return Err(QztError::ContainerCorrupt);
        }
        let terms_offset = section_base + manifest.terms.offset;
        let term_bytes = match read_vec(&source, terms_offset, manifest.terms.size) {
            Ok(b) => b,
            Err(e) => {
                proof {
                    assert(rel ==> spec_file_binding_failure(f, q, d, manifest_end as int, manifest, e)) by {
                    reveal(spec_file_binding_failure);
                }
                }
                return Err(e);
            },
        };
        proof {
            lemma_file_bytes_within(c, len, terms_offset as int, terms_offset + manifest.terms.size);
        }
        let terms = match decode_terms(term_bytes.as_slice(), manifest.term_encoding) {
            Ok(t) => t,
            Err(e) => {
                proof {
                    assert(rel ==> spec_file_binding_failure(f, q, d, manifest_end as int, manifest, e)) by {
                    reveal(spec_file_binding_failure);
                }
                }
                return Err(e);
            },
        };
        match validate_file_term_dictionary(&terms, manifest.postings.size, manifest.term_encoding) {
            Ok(()) => {},
            Err(e) => {
                proof {
                    assert(rel ==> spec_file_binding_failure(f, q, d, manifest_end as int, manifest, e)) by {
                    reveal(spec_file_binding_failure);
                }
                }
                return Err(e);
            },
        }
        proof {
            reveal_strlit("token");
            reveal_strlit("ngram");
            assert(manifest.source_container_id =~= details.summary.container_id) by {
                assert forall|i: int| 0 <= i < 16 implies manifest.source_container_id[i] == details.summary.container_id[i] by {
                    assert(manifest.source_container_id@[i] == details.summary.container_id@[i]);
                }
            }
        }
        let s = QziFileSidecar { manifest, source, len, section_base, granule_count, terms };
        Ok(s)
    }

    /// The validated sidecar manifest.
    pub fn manifest(&self) -> (r: &SidecarManifest)
        ensures
            *r == self.spec_manifest(),
    {
        &self.manifest
    }
}

/// Bytes of a term's posting list in sidecar bytes `f`.
pub open spec fn spec_posting_bytes(f: Seq<u8>, base: u64, m: SidecarManifest, t: TermDictionaryEntry) -> Seq<u8> {
    let start = base + m.postings.offset + t.posting_offset;
    f.subrange(start, start + t.posting_size)
}

/// A term's posting list lies inside a sidecar of `len` bytes and fits in
/// memory.
pub open spec fn spec_posting_in_bounds(len: u64, base: u64, m: SidecarManifest, t: TermDictionaryEntry) -> bool {
    &&& base + m.postings.offset + t.posting_offset + t.posting_size <= len
    &&& t.posting_size <= usize::MAX
}

/// The posting list a term's bytes decode to, when it has the term's
/// granule frequency and names only existing granules.
pub open spec fn spec_fetched_list(f: Seq<u8>, base: u64, m: SidecarManifest, count: u64, t: TermDictionaryEntry) -> Option<Seq<u64>> {
    match crate::search::spec_delta_decode(spec_posting_bytes(f, base, m, t), u64::MAX) {
        Ok(p) => if p.len() == t.granule_frequency && (forall|j: int| 0 <= j < p.len() ==> #[trigger] p[j] < count) {
            Some(p)
        } else {
            None
        },
        Err(_) => None,
    }
}

/// Bytes of granule record `id` in sidecar bytes `f`.
pub open spec fn spec_record_bytes(f: Seq<u8>, base: u64, m: SidecarManifest, id: u64) -> Seq<u8> {
    let rec = spec_record_len(m.granule_encoding);
    let start = base + m.granules.offset + 8 + id * rec;
    f.subrange(start, start + rec)
}

/// Granule record `id` lies inside a sidecar of `len` bytes.
pub open spec fn spec_record_in_bounds(len: u64, base: u64, m: SidecarManifest, id: u64) -> bool {
    base + m.granules.offset + 8 + id * spec_record_len(m.granule_encoding) + spec_record_len(m.granule_encoding) <= len
}

/// Granule `id` as its record gives it, when it names itself, lies inside the
/// original text and its chunk span is ordered.
pub open spec fn spec_fetched_granule(f: Seq<u8>, base: u64, m: SidecarManifest, count: u64, id: u64) -> Option<SearchGranule> {
    let g = spec_parse_granule_record(spec_record_bytes(f, base, m, id), id, m.granule_encoding);
    if id < count && g.granule_id == id && g.logical_offset + g.byte_length <= m.source_size_bytes && g.chunk_start <= g.chunk_end {
        Some(g)
    } else {
        None
    }
}

impl<R: ReadAt> QziFileSidecar<R> {
    /// Reads and checks the posting list of term `t`.
    fn fetch_postings(&self, t: usize) -> (r: Result<Vec<u64>>)
        ensures
            r matches Ok(p) ==> t < self.spec_terms().len()
                && spec_fetched_list(self.spec_bytes(), self.spec_base(), self.spec_manifest(), self.spec_count(), self.spec_terms()[t as int]) == Some(p@),
            self.spec_source_holds() && t < self.spec_terms().len()
                && spec_posting_in_bounds(self.spec_len(), self.spec_base(), self.spec_manifest(), self.spec_terms()[t as int])
                && spec_fetched_list(self.spec_bytes(), self.spec_base(), self.spec_manifest(), self.spec_count(), self.spec_terms()[t as int]) is Some
                ==> r is Ok,
    {
        if t >= self.terms.len() {
            return Err(QztError::ContainerCorrupt);
        }
        let term = &self.terms[t];
        if self.section_base > u64::MAX - self.manifest.postings.offset {
            return Err(QztError::ResourceLimitExceeded);
        }
        let base = self.section_base + self.manifest.postings.offset;
        if base > u64::MAX - term.posting_offset {
            return Err(QztError::ResourceLimitExceeded);
        }
        let offset = base + term.posting_offset;
        if offset > u64::MAX - term.posting_size {
            return Err(QztError::ResourceLimitExceeded);
        }
        if offset + term.posting_size > self.len {
            return Err(QztError::UnexpectedEof);
        }
        let bytes = read_vec(&self.source, offset, term.posting_size)?;
        proof {
            lemma_file_bytes_within(self.source.spec_content(), self.len, offset as int, offset + term.posting_size);
            assert(spec_posting_bytes(self.spec_bytes(), self.section_base, self.manifest, self.terms@[t as int]) == bytes@);
        }
        let postings = crate::search::decode_delta_varint_u64(bytes.as_slice())?;
        if postings.len() as u64 != term.granule_frequency {
            return Err(QztError::ContainerCorrupt);
        }
        let mut i: usize = 0;
        while i < postings.len()
            invariant
                i <= postings@.len(),
                t < self.terms@.len(),
                postings@.len() == self.terms@[t as int].granule_frequency,
                crate::search::spec_delta_decode(spec_posting_bytes(self.spec_bytes(), self.section_base, self.manifest, self.terms@[t as int]), u64::MAX)
                    == Ok::<Seq<u64>, QztError>(postings@),
                forall|j: int| 0 <= j < i ==> #[trigger] postings@[j] < self.granule_count,
                spec_fetched_list(self.spec_bytes(), self.section_base, self.manifest, self.granule_count, self.terms@[t as int]) is Some
                    ==> forall|j: int| 0 <= j < postings@.len() ==> #[trigger] postings@[j] < self.granule_count,
            decreases postings@.len() - i,
        {
            if postings[i] >= self.granule_count {
                return Err(QztError::ContainerCorrupt);
            }
            i = i + 1;
        }
        Ok(postings)
    }

    /// Reads and checks granule record `granule_id`.
    fn fetch_granule(&self, granule_id: u64) -> (r: Result<SearchGranule>)
        ensures
            r matches Ok(g) ==> spec_fetched_granule(self.spec_bytes(), self.spec_base(), self.spec_manifest(), self.spec_count(), granule_id) == Some(g),
            self.spec_source_holds() && spec_record_in_bounds(self.spec_len(), self.spec_base(), self.spec_manifest(), granule_id)
                && spec_fetched_granule(self.spec_bytes(), self.spec_base(), self.spec_manifest(), self.spec_count(), granule_id) is Some
                ==> r is Ok,
    {
        if granule_id >= self.granule_count {
            return Err(QztError::ContainerCorrupt);
        }
        let rec = self.manifest.granule_encoding.record_len();
        proof {
            if spec_record_in_bounds(self.len, self.section_base, self.manifest, granule_id) {
                assert(granule_id <= u64::MAX / rec) by (nonlinear_arith)
                    requires
                        granule_id * rec <= u64::MAX,
                        rec > 0,
                ;
            }
        }
        if granule_id > u64::MAX / rec {
            return Err(QztError::ResourceLimitExceeded);
        }
        proof {
            assert(granule_id * rec <= u64::MAX) by (nonlinear_arith)
                requires
                    granule_id <= u64::MAX / rec,
                    rec > 0,
            ;
        }
        let relative = granule_id * rec;
        if relative > u64::MAX - 8 {
            return Err(QztError::ResourceLimitExceeded);
        }
        let relative = relative + 8;
        if relative > u64::MAX - self.manifest.granules.offset {
            return Err(QztError::ResourceLimitExceeded);
        }
        let relative = relative + self.manifest.granules.offset;
        if relative > u64::MAX - self.section_base {
            return Err(QztError::ResourceLimitExceeded);
        }
        let record_offset = relative + self.section_base;
        if record_offset > u64::MAX - rec || record_offset + rec > self.len {
            return Err(QztError::UnexpectedEof);
        }
        let bytes = read_vec(&self.source, record_offset, rec)?;
        proof {
            lemma_file_bytes_within(self.source.spec_content(), self.len, record_offset as int, record_offset + rec);
            assert(spec_record_bytes(self.spec_bytes(), self.section_base, self.manifest, granule_id) == bytes@);
        }
        let granule = decode_granule_record(bytes.as_slice(), granule_id, self.manifest.granule_encoding)?;
        if granule.granule_id != granule_id {
            return Err(QztError::ContainerCorrupt);
        }
        if granule.logical_offset > u64::MAX - granule.byte_length {
            return Err(QztError::LogicalRangeOutOfBounds);
        }
        if granule.logical_offset + granule.byte_length > self.manifest.source_size_bytes {
            return Err(QztError::LogicalRangeOutOfBounds);
        }
        if granule.chunk_end < granule.chunk_start {
            return Err(QztError::ChunkTableInvalid);
        }
        Ok(granule)
    }
}

/// Candidate identifiers `c` of a file-backed search: every term the keys
/// name has a readable posting list, and `c` lists, in increasing order, the
/// granules present in all of them.
pub open spec fn spec_file_candidates(
    f: Seq<u8>,
    base: u64,
    m: SidecarManifest,
    count: u64,
    ts: Seq<TermDictionaryEntry>,
    keys: Seq<Seq<u8>>,
    c: Seq<u64>,
) -> bool {
    &&& crate::search::spec_increasing(c)
    &&& forall|t: int| 0 <= t < ts.len() && keys.contains(#[trigger] ts[t].key@) ==> spec_fetched_list(f, base, m, count, ts[t]) is Some
    &&& forall|x: u64| c.contains(x) <==> (forall|t: int| 0 <= t < ts.len() && keys.contains(#[trigger] ts[t].key@)
        ==> spec_fetched_list(f, base, m, count, ts[t])->Some_0.contains(x))
}

/// Every term a key names has its posting list inside the sidecar, and the
/// list reads and checks.
pub open spec fn spec_file_lists_readable(
    f: Seq<u8>,
    len: u64,
    base: u64,
    m: SidecarManifest,
    count: u64,
    ts: Seq<TermDictionaryEntry>,
    keys: Seq<Seq<u8>>,
) -> bool {
    forall|t: int| 0 <= t < ts.len() && keys.contains(#[trigger] ts[t].key@)
        ==> spec_posting_in_bounds(len, base, m, ts[t]) && spec_fetched_list(f, base, m, count, ts[t]) is Some
}

/// A search over these posting lists stops at the candidate cap, before any
/// granule is read.
pub open spec fn spec_file_search_capped(
    f: Seq<u8>,
    base: u64,
    m: SidecarManifest,
    count: u64,
    ts: Seq<TermDictionaryEntry>,
    keys: Seq<Seq<u8>>,
    options: SearchOptions,
) -> bool {
    options.max_search_results == 0 || exists|c: Seq<u64>|
        #[trigger] spec_file_candidates(f, base, m, count, ts, keys, c) && c.len() > options.max_candidate_granules
}

/// Every candidate's granule record reads and checks.
pub open spec fn spec_file_granules_ok(f: Seq<u8>, base: u64, m: SidecarManifest, count: u64, c: Seq<u64>) -> bool {
    forall|i: int| 0 <= i < c.len() ==> spec_fetched_granule(f, base, m, count, #[trigger] c[i]) is Some
}

/// The granules of the candidates, as their records give them.
pub open spec fn spec_file_granules(f: Seq<u8>, base: u64, m: SidecarManifest, count: u64, c: Seq<u64>) -> Seq<SearchGranule> {
    c.map_values(|id: u64| spec_fetched_granule(f, base, m, count, id)->Some_0)
}

/// The keys a query needs for the manifest's index kind.
pub open spec fn spec_file_query_keys(m: SidecarManifest, query: Seq<u8>) -> Seq<Seq<u8>> {
    if m.index_type@ == "ngram"@ {
        crate::search::spec_ngram_keys(query, m.ngram_n->Some_0 as nat)
    } else {
        crate::search::spec_token_keys(crate::search::spec_tokens(query))
    }
}

/// The outcome of a search through a file-backed sidecar over sidecar bytes
/// `f` of container bytes `s` with details `d`.
pub open spec fn spec_file_search_outcome(
    f: Seq<u8>,
    base: u64,
    m: SidecarManifest,
    count: u64,
    ts: Seq<TermDictionaryEntry>,
    s: Seq<u8>,
    d: SkeletonDetails,
    query: Seq<u8>,
    options: SearchOptions,
    r: Result<SearchReport>,
) -> bool {
    let ngram = m.index_type@ == "ngram"@;
    r matches Ok(rep) ==> {
        let keys = crate::search::keys_view(rep.planner.required_keys@);
        let missing = rep.planner.missing_keys@;
        &&& crate::search::spec_strictly_sorted(keys)
        &&& forall|k: Seq<u8>| keys.contains(k) <==> spec_file_query_keys(m, query).contains(k)
        &&& rep.metrics.term_lookups == keys.len()
        &&& keys.len() == 0 ==> rep.hits@.len() == 0 && !rep.capped
            && rep.incomplete_reason == Some(if ngram { "query_shorter_than_ngram_n" } else { "query_has_no_indexable_tokens" })
        &&& keys.len() > 0 && !crate::search::spec_all_found(ts, keys) ==> {
            &&& rep.hits@.len() == 0
            &&& !rep.capped
            &&& missing.len() == 1
            &&& keys.contains(missing[0]@)
            &&& !crate::search::term_keys(ts).contains(missing[0]@)
            &&& rep.incomplete_reason == (if ngram && !m.complete { Some("missing_required_key_in_incomplete_index") } else { None })
        }
        &&& keys.len() > 0 && crate::search::spec_all_found(ts, keys) ==> {
            &&& rep.incomplete_reason is None
            &&& forall|k: Seq<u8>| crate::search::keys_view(rep.planner.selected_keys@).contains(k) <==> keys.contains(k)
            &&& exists|c: Seq<u64>| #[trigger] spec_file_candidates(f, base, m, count, ts, keys, c)
                && rep.metrics.candidate_granules == c.len()
                && if c.len() > options.max_candidate_granules || options.max_search_results == 0 {
                    rep.hits@.len() == 0 && rep.capped
                } else {
                    let gs = spec_file_granules(f, base, m, count, c);
                    &&& spec_file_granules_ok(f, base, m, count, c)
                    &&& rep.metrics.candidate_chunks == crate::search::spec_chunk_ids(gs).len() as u64
                    &&& crate::search::spec_verify_from(s, d, gs, 0, Seq::empty(), 0, ngram, if ngram { query } else { Seq::empty() }, keys, options)
                        == Ok::<(Seq<(u64, u64, u64, u64)>, bool, u64), QztError>((crate::search::hits_view(rep.hits@), rep.capped, rep.metrics.decoded_bytes))
                    &&& rep.metrics.verified_matches == rep.hits@.len()
                }
        }
    }
}

/// Posting sizes summed over more entries are no smaller.
proof fn lemma_posting_total_mono(ts: Seq<TermDictionaryEntry>, a: int, b: int)
    requires
        0 <= a <= b,
    ensures
        spec_posting_total(ts, a) <= spec_posting_total(ts, b),
    decreases b - a,
{
    if a < b {
        lemma_posting_total_mono(ts, a, b - 1);
    }
}

/// Whether a term's granule frequency, per million granules, reaches the threshold.
fn file_high_df(granule_count: u64, granule_frequency: u64, threshold: u32) -> (r: bool)
    ensures
        r == (granule_frequency * 1_000_000 / (if granule_count == 0 { 1 } else { granule_count as int }) >= threshold),
{
    let count: u128 = if granule_count == 0 { 1 } else { granule_count as u128 };
    let frequency = granule_frequency as u128;
    assert(frequency * 1_000_000 <= u128::MAX) by (nonlinear_arith)
        requires
            frequency <= u64::MAX,
    ;
    frequency * 1_000_000 / count >= threshold as u128
}

impl<R: ReadAt> QziFileSidecar<R> {
    /// Searches a positioned container through this sidecar, reading only the
    /// query's posting lists and the candidates' granule records, and decoding
    /// only candidate chunks.
    pub fn search<C: ReadAt>(&self, reader: &QztFileReader<C>, query: &str, options: SearchOptions) -> (r: Result<SearchReport>)
        ensures
            spec_file_search_outcome(self.spec_bytes(), self.spec_base(), self.spec_manifest(), self.spec_count(), self.spec_terms(),
                reader.spec_bytes(), reader.spec_details(), query.spec_bytes(), options, r),
            (forall|k: Seq<u8>| !spec_file_query_keys(self.spec_manifest(), query.spec_bytes()).contains(k)) ==> r is Ok,
            (exists|k: Seq<u8>| spec_file_query_keys(self.spec_manifest(), query.spec_bytes()).contains(k)
                && !crate::search::term_keys(self.spec_terms()).contains(k)) ==> r is Ok,
            ({
                let keys = spec_file_query_keys(self.spec_manifest(), query.spec_bytes());
                self.spec_source_holds()
                    && spec_file_lists_readable(self.spec_bytes(), self.spec_len(), self.spec_base(), self.spec_manifest(), self.spec_count(), self.spec_terms(), keys)
                    && spec_file_search_capped(self.spec_bytes(), self.spec_base(), self.spec_manifest(), self.spec_count(), self.spec_terms(), keys, options)
                    ==> r is Ok
            }),
    {
        proof {
            use_type_invariant(self);
            crate::search::lemma_adjacent_sorted(crate::search::term_keys(self.terms@));
            reveal_strlit("token");
            reveal_strlit("ngram");
            assert("token"@ != "ngram"@) by {
                assert("token"@[0] != "ngram"@[0]);
            }
        }
        let ghost f = self.spec_bytes();
        let ghost ts = self.terms@;
        let ghost qk = spec_file_query_keys(self.manifest, query.spec_bytes());
        let is_ngram = text_is(&self.manifest.index_type, "ngram");
        let keys = if is_ngram {
            let n = match self.manifest.ngram_n {
                Some(n) => n,
                None => {
                    return Err(QztError::ContainerCorrupt);
                },
            };
            crate::search::ngram_keys_for_query(query, n)?
        } else {
            crate::search::unique_query_keys(query.as_bytes())
        };
        let ghost kv = crate::search::keys_view(keys@);
        let kind: &'static str = if is_ngram { "ngram" } else { "token" };
        let mut planner = PlannerDecision::new(crate::search::clone_keys(&keys));
        let mut metrics = crate::search::empty_search_metrics(query, kind, self.manifest.index_size_bytes, self.manifest.source_size_bytes);
        metrics.term_lookups = keys.len() as u64;
        if keys.len() == 0 {
            let reason = if is_ngram { "query_shorter_than_ngram_n" } else { "query_has_no_indexable_tokens" };
            return Ok(crate::search::early_exit_report(metrics, planner, false, Some(reason)));
        }
        proof {
            assert(kv.contains(kv[0]));
        }
        let mut ranked: Vec<(u64, u64, usize)> = Vec::new();
        let ghost mut hi: int = 0;
        let mut k: usize = 0;
        while k < keys.len()
            invariant
                k <= keys@.len(),
                0 <= hi <= ts.len(),
                k == 0 ==> hi == 0,
                k > 0 ==> hi > 0 && ts[hi - 1].key@ == kv[k - 1],
                metrics.posting_bytes_read <= spec_posting_total(ts, hi),
                spec_posting_total(ts, ts.len() as int) == self.manifest.postings.size,
                kv == crate::search::keys_view(keys@),
                ts == self.terms@,
                crate::search::spec_strictly_sorted(crate::search::term_keys(ts)),
                crate::search::spec_strictly_sorted(kv),
                crate::search::keys_view(planner.required_keys@) == kv,
                planner.missing_keys@.len() == 0,
                metrics.term_lookups == keys@.len(),
                is_ngram == (self.manifest.index_type@ == "ngram"@),
                forall|q: Seq<u8>| kv.contains(q) <==> spec_file_query_keys(self.manifest, query.spec_bytes()).contains(q),
                ranked@.len() == k,
                forall|m: int| 0 <= m < k ==> {
                    let x = #[trigger] ranked@[m];
                    &&& x.2 < ts.len()
                    &&& ts[x.2 as int].key@ == keys@[m]@
                },
            decreases keys@.len() - k,
        {
            match crate::search::term_index_for_key(&self.terms, keys[k].as_slice()) {
                None => {
                    let missing = keys[k].clone();
                    assert(missing@ =~= keys@[k as int]@);
                    planner.missing_keys.push(missing);
                    let reason = if is_ngram && !self.manifest.complete { Some("missing_required_key_in_incomplete_index") } else { None };
                    let rep = crate::search::early_exit_report(metrics, planner, false, reason);
                    proof {
                        assert(kv[k as int] == keys@[k as int]@);
                        assert(!crate::search::term_keys(ts).contains(keys@[k as int]@)) by {
                            if crate::search::term_keys(ts).contains(keys@[k as int]@) {
                                let w = choose|w: int| 0 <= w < crate::search::term_keys(ts).len() && crate::search::term_keys(ts)[w] == keys@[k as int]@;
                                assert(ts[w].key@ == keys@[k as int]@);
                            }
                        }
                        assert(rep.planner.missing_keys@[0]@ == keys@[k as int]@);
                    }
                    return Ok(rep);
                },
                Some(ti) => {
                    proof {
                        assert(kv[k as int] == keys@[k as int]@);
                        if k > 0 {
                            assert(crate::cbor::spec_lex_lt(kv[k - 1], kv[k as int]));
                            if ti as int == hi - 1 {
                                crate::cbor::lemma_lex_irreflexive(kv[k as int]);
                            } else if (ti as int) < hi - 1 {
                                assert(crate::cbor::spec_lex_lt(crate::search::term_keys(ts)[ti as int], crate::search::term_keys(ts)[hi - 1]));
                                crate::cbor::lemma_lex_asymmetric(kv[k - 1], kv[k as int]);
                            }
                        }
                        lemma_posting_total_mono(ts, hi, ti as int);
                        lemma_posting_total_mono(ts, ti + 1, ts.len() as int);
                    }
                    if metrics.posting_bytes_read > u64::MAX - self.terms[ti].posting_size {
                        return Err(QztError::ResourceLimitExceeded);
                    }
                    proof {
                        hi = ti + 1;
                    }
                    metrics.posting_bytes_read = metrics.posting_bytes_read + self.terms[ti].posting_size;
                    let high: u64 = if is_ngram && file_high_df(self.granule_count, self.terms[ti].granule_frequency, self.manifest.high_df_per_million) { 1 } else { 0 };
                    ranked.push((high, self.terms[ti].granule_frequency, ti));
                },
            }
            k = k + 1;
        }
        proof {
            assert forall|a: int, b: int| 0 <= a < b < ranked@.len() implies (#[trigger] ranked@[a]).2 != (#[trigger] ranked@[b]).2 by {
                if ranked@[a].2 == ranked@[b].2 {
                    assert(kv[a] == keys@[a]@);
                    assert(kv[b] == keys@[b]@);
                    assert(crate::cbor::spec_lex_lt(kv[a], kv[b]));
                    crate::cbor::lemma_lex_irreflexive(keys@[a]@);
                }
            }
            assert forall|m: int| 0 <= m < kv.len() implies crate::search::term_keys(ts).contains(#[trigger] kv[m]) by {
                assert(kv[m] == keys@[m]@);
                assert(crate::search::term_keys(ts)[ranked@[m].2 as int] == keys@[m]@);
            }
            assert forall|q: Seq<u8>| qk.contains(q) implies crate::search::term_keys(ts).contains(q) by {
                assert(kv.contains(q));
                let w = choose|w: int| 0 <= w < kv.len() && kv[w] == q;
                assert(crate::search::term_keys(ts).contains(kv[w]));
            }
        }
        let sorted = crate::search::sort_ranked(&ranked);
        proof {
            assert forall|m: int| 0 <= m < sorted@.len() implies (#[trigger] sorted@[m]).2 < ts.len()
                && kv.contains(ts[sorted@[m].2 as int].key@) by {
                assert(ranked@.contains(sorted@[m]));
                let w = choose|w: int| 0 <= w < ranked@.len() && ranked@[w] == sorted@[m];
                assert(kv[w] == keys@[w]@);
            }
            assert forall|t: int| 0 <= t < ts.len() && kv.contains(#[trigger] ts[t].key@)
                implies exists|m: int| 0 <= m < sorted@.len() && (#[trigger] sorted@[m]).2 == t by {
                let w = choose|w: int| 0 <= w < kv.len() && kv[w] == ts[t].key@;
                assert(kv[w] == keys@[w]@);
                let x = ranked@[w];
                crate::search::lemma_sorted_keys_distinct(ts, x.2 as int, t);
                assert(ranked@.contains(x));
                assert(sorted@.contains(x));
                let m = choose|m: int| 0 <= m < sorted@.len() && sorted@[m] == x;
                assert(sorted@[m].2 == t);
            }
        }
        let mut selected: Vec<Vec<u8>> = Vec::new();
        let mut high_df: Vec<Vec<u8>> = Vec::new();
        let mut lists: Vec<Vec<u64>> = Vec::new();
        let mut order: Vec<usize> = Vec::new();
        let mut j: usize = 0;
        while j < sorted.len()
            invariant
                j <= sorted@.len(),
                ts == self.terms@,
                f == self.spec_bytes(),
                qk == spec_file_query_keys(self.manifest, query.spec_bytes()),
                ts == self.terms@,
                qk.contains(kv[0]),
                forall|q: Seq<u8>| qk.contains(q) ==> crate::search::term_keys(ts).contains(q),
                forall|q: Seq<u8>| kv.contains(q) <==> qk.contains(q),
                forall|m: int| 0 <= m < sorted@.len() ==> (#[trigger] sorted@[m]).2 < ts.len() && kv.contains(ts[sorted@[m].2 as int].key@),
                crate::search::keys_view(selected@) == sorted@.subrange(0, j as int).map_values(|x: (u64, u64, usize)| ts[x.2 as int].key@),
                lists@.len() == j,
                order@.len() == j,
                forall|m: int| 0 <= m < j ==> #[trigger] order@[m] == m,
                forall|m: int| 0 <= m < j ==> spec_fetched_list(f, self.section_base, self.manifest, self.granule_count, ts[sorted@[m].2 as int])
                    == Some((#[trigger] lists@[m])@),
            decreases sorted@.len() - j,
        {
            let t = sorted[j].2;
            if sorted[j].0 == 1 {
                high_df.push(self.terms[t].key.clone());
            }
            let key = self.terms[t].key.clone();
            assert(key@ =~= ts[sorted@[j as int].2 as int].key@);
            let ghost s0 = selected@;
            selected.push(key);
            assert(crate::search::keys_view(selected@) =~= crate::search::keys_view(s0).push(ts[sorted@[j as int].2 as int].key@));
            assert(crate::search::keys_view(selected@) =~= sorted@.subrange(0, j + 1).map_values(|x: (u64, u64, usize)| ts[x.2 as int].key@));
            let p = self.fetch_postings(t)?;
            lists.push(p);
            order.push(j);
            j = j + 1;
        }
        proof {
            let sv = crate::search::keys_view(selected@);
            assert(sorted@.subrange(0, j as int) =~= sorted@);
            assert forall|key: Seq<u8>| sv.contains(key) <==> kv.contains(key) by {
                if sv.contains(key) {
                    let w = choose|w: int| 0 <= w < sv.len() && sv[w] == key;
                    assert(sv[w] == ts[sorted@[w].2 as int].key@);
                }
                if kv.contains(key) {
                    let w = choose|w: int| 0 <= w < kv.len() && kv[w] == key;
                    assert(kv[w] == keys@[w]@);
                    let x = ranked@[w];
                    assert(ranked@.contains(x));
                    assert(sorted@.contains(x));
                    let m = choose|m: int| 0 <= m < sorted@.len() && sorted@[m] == x;
                    assert(sv[m] == key);
                }
            }
            assert forall|q: int| 0 <= q < order@.len() implies crate::search::spec_increasing(#[trigger] lists@[order@[q] as int]@) by {
                assert(order@[q] == q);
                crate::search::lemma_delta_decode_increasing(spec_posting_bytes(f, self.section_base, self.manifest, ts[sorted@[q].2 as int]), u64::MAX);
                assert(spec_fetched_list(f, self.section_base, self.manifest, self.granule_count, ts[sorted@[q].2 as int]) == Some(lists@[q]@));
            }
        }
        planner.selected_keys = selected;
        planner.high_df_keys = high_df;
        let candidates = crate::search::intersect_postings(&lists, &order);
        let ghost cv = candidates@;
        proof {
            let base = self.section_base;
            let man = self.manifest;
            let cnt = self.granule_count;
            assert forall|t: int| 0 <= t < ts.len() && kv.contains(#[trigger] ts[t].key@) implies spec_fetched_list(f, base, man, cnt, ts[t]) is Some by {
                let m = choose|m: int| 0 <= m < sorted@.len() && (#[trigger] sorted@[m]).2 == t;
                assert(spec_fetched_list(f, base, man, cnt, ts[sorted@[m].2 as int]) == Some(lists@[m]@));
            }
            assert forall|x: u64| cv.contains(x) <==> (forall|t: int| 0 <= t < ts.len() && kv.contains(#[trigger] ts[t].key@)
                ==> spec_fetched_list(f, base, man, cnt, ts[t])->Some_0.contains(x)) by {
                if cv.contains(x) {
                    assert forall|t: int| 0 <= t < ts.len() && kv.contains(#[trigger] ts[t].key@)
                        implies spec_fetched_list(f, base, man, cnt, ts[t])->Some_0.contains(x) by {
                        let m = choose|m: int| 0 <= m < sorted@.len() && (#[trigger] sorted@[m]).2 == t;
                        assert(order@[m] == m);
                        assert(lists@[order@[m] as int]@.contains(x));
                        assert(spec_fetched_list(f, base, man, cnt, ts[sorted@[m].2 as int]) == Some(lists@[m]@));
                    }
                }
                if forall|t: int| 0 <= t < ts.len() && kv.contains(#[trigger] ts[t].key@)
                    ==> spec_fetched_list(f, base, man, cnt, ts[t])->Some_0.contains(x) {
                    assert forall|q: int| 0 <= q < order@.len() implies (#[trigger] lists@[order@[q] as int])@.contains(x) by {
                        assert(order@[q] == q);
                        let t = sorted@[q].2 as int;
                        assert(kv.contains(ts[t].key@));
                        assert(spec_fetched_list(f, base, man, cnt, ts[sorted@[q].2 as int]) == Some(lists@[q]@));
                    }
                }
            }
            assert(spec_file_candidates(f, base, man, cnt, ts, kv, cv));
        }
        metrics.candidate_granules = candidates.len() as u64;
        if metrics.candidate_granules > options.max_candidate_granules || options.max_search_results == 0 {
            return Ok(crate::search::early_exit_report(metrics, planner, true, None));
        }
        proof {
            if spec_file_search_capped(f, self.section_base, self.manifest, self.granule_count, ts, qk, options) {
                let c = choose|c: Seq<u64>|
                    #[trigger] spec_file_candidates(f, self.section_base, self.manifest, self.granule_count, ts, qk, c)
                        && c.len() > options.max_candidate_granules;
                assert forall|x: u64| cv.contains(x) <==> c.contains(x) by {
                    assert(forall|t: int| 0 <= t < ts.len() ==> (kv.contains(#[trigger] ts[t].key@) <==> qk.contains(ts[t].key@)));
                }
                crate::search::lemma_increasing_unique(cv, c);
            }
        }
        let mut granules: Vec<SearchGranule> = Vec::new();
        let mut i: usize = 0;
        while i < candidates.len()
            invariant
                i <= candidates@.len(),
                f == self.spec_bytes(),
                qk == spec_file_query_keys(self.manifest, query.spec_bytes()),
                ts == self.terms@,
                qk.contains(kv[0]),
                forall|q: Seq<u8>| qk.contains(q) ==> crate::search::term_keys(ts).contains(q),
                !spec_file_search_capped(f, self.section_base, self.manifest, self.granule_count, ts, qk, options),
                granules@.len() == i,
                forall|m: int| 0 <= m < i ==> spec_fetched_granule(f, self.section_base, self.manifest, self.granule_count, candidates@[m])
                    == Some(#[trigger] granules@[m]),
            decreases candidates@.len() - i,
        {
            let g = self.fetch_granule(candidates[i])?;
            granules.push(g);
            i = i + 1;
        }
        proof {
            assert(granules@ =~= spec_file_granules(f, self.section_base, self.manifest, self.granule_count, cv));
            assert(spec_file_granules_ok(f, self.section_base, self.manifest, self.granule_count, cv)) by {
                assert forall|m: int| 0 <= m < cv.len() implies spec_fetched_granule(f, self.section_base, self.manifest, self.granule_count, #[trigger] cv[m]) is Some by {
                    assert(spec_fetched_granule(f, self.section_base, self.manifest, self.granule_count, candidates@[m]) == Some(granules@[m]));
                }
            }
        }
        metrics.candidate_chunks = crate::search::count_chunks(&granules)?;
        let empty: [u8; 0] = [];
        assert(empty@ =~= Seq::<u8>::empty());
        let q = if is_ngram { query.as_bytes() } else { empty.as_slice() };
        let verification = crate::search::verify_candidates(reader, &granules, is_ngram, q, &keys, options)?;
        metrics.decoded_bytes = verification.decoded_bytes;
        metrics.physical_decoded_bytes = verification.physical_decoded_bytes;
        metrics.verified_matches = verification.hits.len() as u64;
        Ok(SearchReport { hits: verification.hits, metrics, capped: verification.capped, planner, incomplete_reason: None })
    }
}

// ---------------------------------------------------------------------------
// Granule section round trip
// ---------------------------------------------------------------------------

/// Granules a layout can write and read back unchanged: identifiers are
/// positions; line granules for the compact layout, with fields that fit it;
/// no line field equal to the legacy layout's "none" marker.
pub open spec fn spec_granules_round_trip(gs: Seq<SearchGranule>, e: GranuleEncoding) -> bool {
    forall|i: int| 0 <= i < gs.len() ==> {
        let g = #[trigger] gs[i];
        &&& g.granule_id == i
        &&& match e {
            GranuleEncoding::LegacyV1 => g.first_line != Some(u64::MAX) && g.line_count != Some(u64::MAX),
            GranuleEncoding::LineImpliedV2 => g.first_line == Some(i as u64) && g.line_count == Some(1u64)
                && spec_granule_record_error(g, e) is None,
        }
    }
}

proof fn lemma_record_parses(g: SearchGranule, i: int, e: GranuleEncoding)
    requires
        g.granule_id == i,
        0 <= i <= u64::MAX,
        match e {
            GranuleEncoding::LegacyV1 => g.first_line != Some(u64::MAX) && g.line_count != Some(u64::MAX),
            GranuleEncoding::LineImpliedV2 => g.first_line == Some(i as u64) && g.line_count == Some(1u64)
                && spec_granule_record_error(g, e) is None,
        },
    ensures
        spec_granule_record(g, e).len() == spec_record_len(e),
        spec_parse_granule_record(spec_granule_record(g, e), i as u64, e) == g,
{
    vstd::bytes::lemma_auto_spec_u64_to_from_le_bytes();
    vstd::bytes::lemma_auto_spec_u32_to_from_le_bytes();
    let r = spec_granule_record(g, e);
    match e {
        GranuleEncoding::LegacyV1 => {
            assert(r.subrange(0, 8) =~= spec_u64_to_le_bytes(g.granule_id));
            assert(r.subrange(8, 16) =~= spec_u64_to_le_bytes(g.logical_offset));
            assert(r.subrange(16, 24) =~= spec_u64_to_le_bytes(g.byte_length));
            assert(r.subrange(24, 32) =~= spec_u64_to_le_bytes(g.chunk_start));
            assert(r.subrange(32, 40) =~= spec_u64_to_le_bytes(g.chunk_end));
            assert(r.subrange(40, 48) =~= spec_u64_to_le_bytes(spec_or_max(g.first_line)));
            assert(r.subrange(48, 56) =~= spec_u64_to_le_bytes(spec_or_max(g.line_count)));
        },
        GranuleEncoding::LineImpliedV2 => {
            assert(r.subrange(0, 8) =~= spec_u64_to_le_bytes(g.logical_offset));
            assert(r.subrange(8, 12) =~= spec_u32_to_le_bytes(g.byte_length as u32));
            assert(r.subrange(12, 16) =~= spec_u32_to_le_bytes(g.chunk_start as u32));
            assert(r.subrange(16, 20) =~= spec_u32_to_le_bytes((g.chunk_end - g.chunk_start) as u32));
        },
    }
}

proof fn lemma_records_layout(gs: Seq<SearchGranule>, e: GranuleEncoding, n: int)
    requires
        0 <= n <= gs.len(),
        gs.len() <= u64::MAX,
        spec_granules_round_trip(gs, e),
    ensures
        spec_granule_records(gs, e, n) is Ok,
        spec_granule_records(gs, e, n)->Ok_0.len() == n * spec_record_len(e),
        forall|i: int| 0 <= i < n ==> #[trigger] spec_granule_records(gs, e, n)->Ok_0.subrange(i * spec_record_len(e), (i + 1) * spec_record_len(e))
            == spec_granule_record(gs[i], e),
    decreases n,
{
    let rl = spec_record_len(e) as int;
    if n > 0 {
        lemma_records_layout(gs, e, n - 1);
        lemma_record_parses(gs[n - 1], n - 1, e);
        let b = spec_granule_records(gs, e, n - 1)->Ok_0;
        let nb = spec_granule_records(gs, e, n)->Ok_0;
        assert(nb == b + spec_granule_record(gs[n - 1], e));
        assert((n - 1) * rl + rl == n * rl) by (nonlinear_arith);
        assert forall|i: int| 0 <= i < n implies #[trigger] nb.subrange(i * rl, (i + 1) * rl) == spec_granule_record(gs[i], e) by {
            assert(i * rl + rl == (i + 1) * rl) by (nonlinear_arith);
            if i < n - 1 {
                assert((i + 1) * rl <= (n - 1) * rl) by (nonlinear_arith) requires i + 1 <= n - 1, rl > 0;
                assert(0 <= i * rl) by (nonlinear_arith) requires 0 <= i, rl > 0;
                assert(nb.subrange(i * rl, (i + 1) * rl) =~= b.subrange(i * rl, (i + 1) * rl));
            } else {
                assert(nb.subrange(i * rl, (i + 1) * rl) =~= spec_granule_record(gs[i], e));
            }
        }
    }
}

proof fn lemma_decode_records(bytes: Seq<u8>, gs: Seq<SearchGranule>, e: GranuleEncoding, i: int)
    requires
        0 <= i <= gs.len(),
        gs.len() <= u64::MAX,
        spec_granules_round_trip(gs, e),
        bytes.len() == 8 + gs.len() * spec_record_len(e),
        forall|k: int| 0 <= k < gs.len() ==> #[trigger] bytes.subrange(8 + k * spec_record_len(e), 8 + (k + 1) * spec_record_len(e))
            == spec_granule_record(gs[k], e),
    ensures
        spec_decode_granule_records(bytes, e, i, gs.len() as int) == Ok::<Seq<SearchGranule>, QztError>(gs.subrange(i, gs.len() as int)),
    decreases gs.len() - i,
{
    let rl = spec_record_len(e) as int;
    if i < gs.len() {
        lemma_decode_records(bytes, gs, e, i + 1);
        lemma_record_parses(gs[i], i, e);
        assert(8 + i * rl + rl == 8 + (i + 1) * rl) by (nonlinear_arith);
        assert((i + 1) * rl <= gs.len() * rl) by (nonlinear_arith) requires i + 1 <= gs.len(), rl > 0;
        assert(bytes.subrange(8 + i * rl, 8 + (i + 1) * rl) == spec_granule_record(gs[i], e));
        assert(seq![gs[i]] + gs.subrange(i + 1, gs.len() as int) =~= gs.subrange(i, gs.len() as int));
    } else {
        assert(gs.subrange(i, gs.len() as int) =~= Seq::<SearchGranule>::empty());
    }
}

/// Granules a layout can hold decode back to themselves from the section
/// they encode to.
pub proof fn lemma_granule_section_round_trip(gs: Seq<SearchGranule>, e: GranuleEncoding)
    requires
        gs.len() <= usize::MAX,
        spec_granules_round_trip(gs, e),
    ensures
        spec_encode_granules(gs, e) matches Ok(b) && spec_decode_granules(b, e) == Ok::<Seq<SearchGranule>, QztError>(gs),
{
    vstd::bytes::lemma_auto_spec_u64_to_from_le_bytes();
    let rl = spec_record_len(e) as int;
    let n = gs.len() as int;
    lemma_records_layout(gs, e, n);
    let recs = spec_granule_records(gs, e, n)->Ok_0;
    let b = spec_u64_to_le_bytes(gs.len() as u64) + recs;
    assert(b.subrange(0, 8) =~= spec_u64_to_le_bytes(gs.len() as u64));
    assert forall|k: int| 0 <= k < n implies #[trigger] b.subrange(8 + k * rl, 8 + (k + 1) * rl) == spec_granule_record(gs[k], e) by {
        assert(k * rl + rl == (k + 1) * rl) by (nonlinear_arith);
        assert((k + 1) * rl <= n * rl) by (nonlinear_arith) requires k + 1 <= n, rl > 0;
        assert(0 <= k * rl) by (nonlinear_arith) requires 0 <= k, rl > 0;
        assert(b.subrange(8 + k * rl, 8 + (k + 1) * rl) =~= recs.subrange(k * rl, (k + 1) * rl));
    }
    lemma_decode_records(b, gs, e, 0);
    assert(gs.subrange(0, n) =~= gs);
}

} // verus!
