//! The CBOR schemas of the footer payload, metadata, index root, dictionary
//! block and document index, with closed-schema accessors.

use vstd::prelude::*;
use vstd::utf8::*;
use vstd::string::*;
use crate::bytes_util::{array_from_slice, bytes_equal, slice_to_vec};
use crate::cbor::{
    cbor_entries, cbor_item, cbor_items, encode_deterministic, spec_default_limits,
    spec_encode_det, spec_validate, validate_deterministic, CborItem, CborValue,
};
use crate::error::{QztError, Result};
use crate::hashing::{blake3_digest, blake3_hash};

verus! {

pub const SCHEMA_FOOTER: &'static str = "qzt.footer.v1";

pub const SCHEMA_METADATA: &'static str = "qzt.metadata.v1";

pub const SCHEMA_INDEX_ROOT: &'static str = "qzt.index-root.v1";

pub const SCHEMA_DICTIONARY: &'static str = "qzt.dictionary.v1";

pub const SCHEMA_DOCUMENT_INDEX: &'static str = "qzt.document-index.v1";

/// BLAKE3 algorithm identifier used in all QZT checksum fields.
pub const CHECKSUM_ALGORITHM_BLAKE3: &'static str = "blake3";

pub const CHUNK_TABLE_TYPE: &'static str = "chunk_table";

pub const CHUNK_TABLE_CODEC: &'static str = "qzt-ctbl-fixed-v1";

pub const DICTIONARY_TYPE: &'static str = "dictionary";

pub const DICTIONARY_CODEC: &'static str = "qzt-dict-cbor-v1";

pub const DENSE_LINE_INDEX_TYPE: &'static str = "dense_line_index";

pub const DENSE_LINE_INDEX_CODEC: &'static str = "qzt-line-delta-varint-v1";

pub const DOCUMENT_INDEX_TYPE: &'static str = "document_index";

pub const DOCUMENT_INDEX_CODEC: &'static str = "qzt-doc-index-cbor-v1";

// ---------------------------------------------------------------------------
// Reading fields of a decoded map
// ---------------------------------------------------------------------------

/// The value of the first entry whose key is the text `name`.
pub open spec fn spec_field(m: Seq<(CborItem, CborItem)>, name: Seq<char>) -> Option<CborItem>
    decreases m.len(),
{
    if m.len() == 0 {
        None
    } else if m[0].0 == CborItem::Text(name) {
        Some(m[0].1)
    } else {
        spec_field(m.drop_first(), name)
    }
}

/// Some key of the map is the text `name`.
pub open spec fn spec_has_key(m: Seq<(CborItem, CborItem)>, name: Seq<char>) -> bool {
    exists|i: int| 0 <= i < m.len() && #[trigger] m[i].0 == CborItem::Text(name)
}

/// Every key is text and one of `allowed`.
pub open spec fn spec_keys_allowed(m: Seq<(CborItem, CborItem)>, allowed: Seq<Seq<char>>) -> bool {
    forall|i: int|
        0 <= i < m.len() ==> (#[trigger] m[i].0 matches CborItem::Text(t) && allowed.contains(t))
}

pub open spec fn spec_map_of(v: Option<CborItem>) -> Option<Seq<(CborItem, CborItem)>> {
    match v {
        Some(CborItem::Mapping(es)) => Some(es),
        _ => None,
    }
}

pub open spec fn spec_array_of(v: Option<CborItem>) -> Option<Seq<CborItem>> {
    match v {
        Some(CborItem::Array(vs)) => Some(vs),
        _ => None,
    }
}

pub open spec fn spec_text_of(v: Option<CborItem>) -> Option<Seq<char>> {
    match v {
        Some(CborItem::Text(t)) => Some(t),
        _ => None,
    }
}

pub open spec fn spec_bool_of(v: Option<CborItem>) -> Option<bool> {
    match v {
        Some(CborItem::Bool(b)) => Some(b),
        _ => None,
    }
}

pub open spec fn spec_bytes_of(v: Option<CborItem>) -> Option<Seq<u8>> {
    match v {
        Some(CborItem::Bytes(b)) => Some(b),
        _ => None,
    }
}

pub open spec fn spec_u64_of(v: Option<CborItem>) -> Option<u64> {
    match v {
        Some(CborItem::Int(i)) => if 0 <= i <= u64::MAX {
            Some(i as u64)
        } else {
            None
        },
        _ => None,
    }
}

pub open spec fn spec_i32_of(v: Option<CborItem>) -> Option<i32> {
    match v {
        Some(CborItem::Int(i)) => if i32::MIN <= i <= i32::MAX {
            Some(i as i32)
        } else {
            None
        },
        _ => None,
    }
}

/// A fixed-length byte string field.
pub open spec fn spec_bstr_of(v: Option<CborItem>, n: nat) -> Option<Seq<u8>> {
    match spec_bytes_of(v) {
        Some(b) => if b.len() == n {
            Some(b)
        } else {
            None
        },
        None => None,
    }
}

/// The digest of a checksum map: exactly `algorithm` = "blake3" and a 32-byte `value`.
pub open spec fn spec_checksum_of(v: Option<CborItem>) -> Option<Seq<u8>> {
    match spec_map_of(v) {
        Some(m) => if spec_keys_allowed(m, seq!["algorithm"@, "value"@]) && spec_text_of(
            spec_field(m, "algorithm"@),
        ) == Some("blake3"@) {
            spec_bstr_of(spec_field(m, "value"@), 32)
        } else {
            None
        },
        None => None,
    }
}

/// The map value as a slice of entries, if it is a map.
pub fn as_map(value: &CborValue, error: QztError) -> (r: Result<&[(CborValue, CborValue)]>)
    ensures
        match r {
            Ok(m) => value@ == CborItem::Mapping(cbor_entries(m@)),
            Err(e) => e == error && !(value@ is Mapping),
        },
{
    match value {
        CborValue::Mapping(entries) => Ok(entries.as_slice()),
        _ => Err(error),
    }
}

/// Whether `t` is the text `name`.
pub fn text_is(t: &String, name: &str) -> (r: bool)
    ensures
        r == (t@ == name@),
{
    let r = bytes_equal(t.as_str().as_bytes(), name.as_bytes());
    proof {
        if r {
            encode_utf8_decode_utf8(t@);
            encode_utf8_decode_utf8(name@);
        }
    }
    r
}

proof fn lemma_field_skip(m: Seq<(CborItem, CborItem)>, name: Seq<char>, i: int)
    requires
        0 <= i <= m.len(),
        forall|k: int| 0 <= k < i ==> m[k].0 != CborItem::Text(name),
    ensures
        spec_field(m, name) == spec_field(m.skip(i), name),
    decreases i,
{
    if i > 0 {
        lemma_field_skip(m.drop_first(), name, i - 1);
        assert(m.drop_first().skip(i - 1) =~= m.skip(i));
    } else {
        assert(m.skip(0) =~= m);
    }
}

/// The value stored under text key `key`; `error` when there is none.
pub fn field<'a>(map: &'a [(CborValue, CborValue)], key: &str, error: QztError) -> (r: Result<&'a CborValue>)
    ensures
        match r {
            Ok(v) => spec_field(cbor_entries(map@), key@) == Some(v@),
            Err(e) => e == error && spec_field(cbor_entries(map@), key@) is None,
        },
{
    proof {
        crate::cbor::lemma_cbor_entries_index(map@);
    }
    let ghost m = cbor_entries(map@);
    let mut i: usize = 0;
    while i < map.len()
        invariant
            i <= map@.len(),
            m == cbor_entries(map@),
            m.len() == map@.len(),
            forall|k: int| 0 <= k < map@.len() ==> #[trigger] m[k] == (cbor_item(map@[k].0), cbor_item(map@[k].1)),
            forall|k: int| 0 <= k < i ==> m[k].0 != CborItem::Text(key@),
        decreases map@.len() - i,
    {
        match &map[i].0 {
            CborValue::Text(text) => {
                if text_is(text, key) {
                    proof {
                        lemma_field_skip(m, key@, i as int);
                        assert(m.skip(i as int)[0] == m[i as int]);
                    }
                    return Ok(&map[i].1);
                }
            },
            _ => {},
        }
        i = i + 1;
    }
    proof {
        lemma_field_skip(m, key@, i as int);
        assert(m.skip(i as int).len() == 0);
    }
    Err(error)
}

/// The nested map under `key`.
pub fn required_map<'a>(map: &'a [(CborValue, CborValue)], key: &str, error: QztError) -> (r: Result<&'a [(CborValue, CborValue)]>)
    ensures
        match r {
            Ok(m) => spec_map_of(spec_field(cbor_entries(map@), key@)) == Some(cbor_entries(m@)),
            Err(e) => e == error && spec_map_of(spec_field(cbor_entries(map@), key@)) is None,
        },
{
    as_map(field(map, key, error)?, error)
}

/// The array under `key`.
pub fn required_array<'a>(map: &'a [(CborValue, CborValue)], key: &str, error: QztError) -> (r: Result<&'a [CborValue]>)
    ensures
        match r {
            Ok(vs) => spec_array_of(spec_field(cbor_entries(map@), key@)) == Some(cbor_items(vs@)),
            Err(e) => e == error && spec_array_of(spec_field(cbor_entries(map@), key@)) is None,
        },
{
    match field(map, key, error)? {
        CborValue::Array(values) => Ok(values.as_slice()),
        _ => Err(error),
    }
}

/// A copy of the text under `key`.
pub fn required_text(map: &[(CborValue, CborValue)], key: &str, error: QztError) -> (r: Result<String>)
    ensures
        match r {
            Ok(t) => spec_text_of(spec_field(cbor_entries(map@), key@)) == Some(t@),
            Err(e) => e == error && spec_text_of(spec_field(cbor_entries(map@), key@)) is None,
        },
{
    match field(map, key, error)? {
        CborValue::Text(value) => Ok(value.clone()),
        _ => Err(error),
    }
}

/// The boolean under `key`.
pub fn required_bool(map: &[(CborValue, CborValue)], key: &str, error: QztError) -> (r: Result<bool>)
    ensures
        match r {
            Ok(b) => spec_bool_of(spec_field(cbor_entries(map@), key@)) == Some(b),
            Err(e) => e == error && spec_bool_of(spec_field(cbor_entries(map@), key@)) is None,
        },
{
    match field(map, key, error)? {
        CborValue::Bool(value) => Ok(*value),
        _ => Err(error),
    }
}

/// The unsigned 64-bit integer under `key`.
pub fn required_u64(map: &[(CborValue, CborValue)], key: &str, error: QztError) -> (r: Result<u64>)
    ensures
        match r {
            Ok(x) => spec_u64_of(spec_field(cbor_entries(map@), key@)) == Some(x),
            Err(e) => e == error && spec_u64_of(spec_field(cbor_entries(map@), key@)) is None,
        },
{
    required_u64_with_overflow(map, key, error, error)
}

/// The unsigned 64-bit integer under `key`: `error` when absent, not an
/// integer or negative, `overflow_error` when above `u64::MAX`.
pub fn required_u64_with_overflow(
    map: &[(CborValue, CborValue)],
    key: &str,
    error: QztError,
    overflow_error: QztError,
) -> (r: Result<u64>)
    ensures
        match r {
            Ok(x) => spec_u64_of(spec_field(cbor_entries(map@), key@)) == Some(x),
            Err(e) => spec_u64_of(spec_field(cbor_entries(map@), key@)) is None && (
                if spec_field(cbor_entries(map@), key@) matches Some(CborItem::Int(i)) && i > u64::MAX {
                    e == overflow_error
                } else {
                    e == error
                }),
        },
{
    match field(map, key, error)? {
        CborValue::Integer(value) => {
            if *value < 0 {
                return Err(error);
            }
            if *value > u64::MAX as i128 {
                return Err(overflow_error);
            }
            Ok(*value as u64)
        },
        _ => Err(error),
    }
}

/// The 32-bit signed integer under `key`.
pub fn required_i32(map: &[(CborValue, CborValue)], key: &str, error: QztError) -> (r: Result<i32>)
    ensures
        match r {
            Ok(x) => spec_i32_of(spec_field(cbor_entries(map@), key@)) == Some(x),
            Err(e) => e == error && spec_i32_of(spec_field(cbor_entries(map@), key@)) is None,
        },
{
    match field(map, key, error)? {
        CborValue::Integer(value) => {
            if *value < i32::MIN as i128 || *value > i32::MAX as i128 {
                return Err(error);
            }
            Ok(*value as i32)
        },
        _ => Err(error),
    }
}

/// The byte string of exactly `N` bytes under `key`.
pub fn required_bstr<const N: usize>(map: &[(CborValue, CborValue)], key: &str, error: QztError) -> (r: Result<[u8; N]>)
    ensures
        match r {
            Ok(a) => spec_bstr_of(spec_field(cbor_entries(map@), key@), N as nat) == Some(a@),
            Err(e) => e == error && spec_bstr_of(spec_field(cbor_entries(map@), key@), N as nat) is None,
        },
{
    match field(map, key, error)? {
        CborValue::Bytes(bytes) => {
            if bytes.len() != N {
                return Err(error);
            }
            Ok(array_from_slice::<N>(bytes.as_slice()))
        },
        _ => Err(error),
    }
}

/// The 16-byte string under `key`.
pub fn required_bstr16(map: &[(CborValue, CborValue)], key: &str, error: QztError) -> (r: Result<[u8; 16]>)
    ensures
        match r {
            Ok(a) => spec_bstr_of(spec_field(cbor_entries(map@), key@), 16) == Some(a@),
            Err(e) => e == error && spec_bstr_of(spec_field(cbor_entries(map@), key@), 16) is None,
        },
{
    required_bstr::<16>(map, key, error)
}

/// The 32-byte string under `key`.
pub fn required_bstr32(map: &[(CborValue, CborValue)], key: &str, error: QztError) -> (r: Result<[u8; 32]>)
    ensures
        match r {
            Ok(a) => spec_bstr_of(spec_field(cbor_entries(map@), key@), 32) == Some(a@),
            Err(e) => e == error && spec_bstr_of(spec_field(cbor_entries(map@), key@), 32) is None,
        },
{
    required_bstr::<32>(map, key, error)
}

/// A copy of the byte string under `key`.
pub fn required_bytes(map: &[(CborValue, CborValue)], key: &str, error: QztError) -> (r: Result<Vec<u8>>)
    ensures
        match r {
            Ok(b) => spec_bytes_of(spec_field(cbor_entries(map@), key@)) == Some(b@),
            Err(e) => e == error && spec_bytes_of(spec_field(cbor_entries(map@), key@)) is None,
        },
{
    match field(map, key, error)? {
        CborValue::Bytes(bytes) => Ok(slice_to_vec(bytes.as_slice(), 0, bytes.len())),
        _ => Err(error),
    }
}

/// Refuses a map with a key that is not text or not one of `allowed`.
pub fn reject_unknown_keys(map: &[(CborValue, CborValue)], allowed: &[&str], error: QztError) -> (r: Result<()>)
    ensures
        r is Ok <==> spec_keys_allowed(cbor_entries(map@), allowed@.map_values(|s: &str| s@)),
        r matches Err(e) ==> e == error,
{
    proof {
        crate::cbor::lemma_cbor_entries_index(map@);
    }
    let ghost names = allowed@.map_values(|s: &str| s@);
    let ghost m = cbor_entries(map@);
    let mut i: usize = 0;
    while i < map.len()
        invariant
            i <= map@.len(),
            m == cbor_entries(map@),
            m.len() == map@.len(),
            names == allowed@.map_values(|s: &str| s@),
            forall|k: int| 0 <= k < map@.len() ==> #[trigger] m[k] == (cbor_item(map@[k].0), cbor_item(map@[k].1)),
            forall|k: int| 0 <= k < i ==> (#[trigger] m[k].0 matches CborItem::Text(t) && names.contains(t)),
        decreases map@.len() - i,
    {
        match &map[i].0 {
            CborValue::Text(key) => {
                let mut j: usize = 0;
                let mut found = false;
                while j < allowed.len()
                    invariant
                        j <= allowed@.len(),
                        names == allowed@.map_values(|s: &str| s@),
                        found ==> names.contains(key@),
                        !found ==> forall|q: int| 0 <= q < j ==> names[q] != key@,
                    decreases allowed@.len() - j,
                {
                    if text_is(key, allowed[j]) {
                        assert(names[j as int] == key@);
                        found = true;
                    }
                    j = j + 1;
                }
                if !found {
                    proof {
                        assert(!names.contains(key@));
                        assert(m[i as int].0 == CborItem::Text(key@));
                        assert(!(m[i as int].0 matches CborItem::Text(t) && names.contains(t)));
                    }
                    return Err(error);
                }
            },
            _ => {
                proof {
                    assert(m[i as int].0 == cbor_item(map@[i as int].0));
                    assert(!(m[i as int].0 is Text));
                }
                return Err(error);
            },
        }
        i = i + 1;
    }
    Ok(())
}

/// Requires the text under `key` to be exactly `expected`.
pub fn expect_text_field(map: &[(CborValue, CborValue)], key: &str, expected: &str, error: QztError) -> (r: Result<()>)
    ensures
        r is Ok <==> spec_text_of(spec_field(cbor_entries(map@), key@)) == Some(expected@),
        r matches Err(e) ==> e == error,
{
    let text = required_text(map, key, error)?;
    if !text_is(&text, expected) {
        return Err(error);
    }
    Ok(())
}

/// Requires the boolean under `key` to be exactly `expected`.
pub fn expect_bool_field(map: &[(CborValue, CborValue)], key: &str, expected: bool, error: QztError) -> (r: Result<()>)
    ensures
        r is Ok <==> spec_bool_of(spec_field(cbor_entries(map@), key@)) == Some(expected),
        r matches Err(e) ==> e == error,
{
    if required_bool(map, key, error)? != expected {
        return Err(error);
    }
    Ok(())
}

/// The format version `[0, 1]`.
pub open spec fn spec_version_item() -> CborItem {
    CborItem::Array(seq![CborItem::Int(0), CborItem::Int(1)])
}

/// Requires `format_version` to be the array `[0, 1]`.
pub fn expect_version_field(map: &[(CborValue, CborValue)], error: QztError) -> (r: Result<()>)
    ensures
        r is Ok <==> spec_field(cbor_entries(map@), "format_version"@) == Some(spec_version_item()),
        r matches Err(e) ==> e == error,
{
    match field(map, "format_version", error)? {
        CborValue::Array(values) => {
            proof {
                crate::cbor::lemma_cbor_items_index(values@);
            }
            if values.len() == 2 {
                match (&values[0], &values[1]) {
                    (CborValue::Integer(a), CborValue::Integer(b)) => {
                        if *a == 0 && *b == 1 {
                            assert(cbor_items(values@) =~= seq![CborItem::Int(0), CborItem::Int(1)]);
                            return Ok(());
                        }
                    },
                    _ => {},
                }
            }
            proof {
                if cbor_items(values@) == seq![CborItem::Int(0), CborItem::Int(1)] {
                    assert(cbor_items(values@)[0] == cbor_item(values@[0]));
                    assert(cbor_items(values@)[1] == cbor_item(values@[1]));
                }
            }
            Err(error)
        },
        _ => Err(error),
    }
}

/// The closed-schema prologue every QZT CBOR block starts with: a map whose
/// keys are all allowed, whose `schema` is the expected name and whose
/// `format_version` is `[0, 1]`.
pub open spec fn spec_prologue_ok(item: CborItem, allowed: Seq<Seq<char>>, schema: Seq<char>) -> bool {
    &&& item is Mapping
    &&& spec_keys_allowed(item->Mapping_0, allowed)
    &&& spec_text_of(spec_field(item->Mapping_0, "schema"@)) == Some(schema)
    &&& spec_field(item->Mapping_0, "format_version"@) == Some(spec_version_item())
}

/// What decoding a block's prologue gives: the decoder's error, or `error`
/// when the prologue does not hold, or the decoded map.
pub open spec fn spec_decode_prologue(bytes: Seq<u8>, allowed: Seq<Seq<char>>, schema: Seq<char>, error: QztError) -> Result<CborItem> {
    match spec_validate(bytes, spec_default_limits()) {
        Err(e) => Err(e),
        Ok(item) => if spec_prologue_ok(item, allowed, schema) {
            Ok(item)
        } else {
            Err(error)
        },
    }
}

/// Decodes a deterministic CBOR block and checks its closed-schema prologue.
pub fn decode_prologue(bytes: &[u8], allowed_keys: &[&str], expected_schema: &str, error: QztError) -> (r: Result<CborValue>)
    ensures
        match (r, spec_decode_prologue(bytes@, allowed_keys@.map_values(|s: &str| s@), expected_schema@, error)) {
            (Ok(v), Ok(i)) => v@ == i,
            (Err(e), Err(se)) => e == se,
            _ => false,
        },
{
    let value = validate_deterministic(bytes)?;
    let map = as_map(&value, error)?;
    reject_unknown_keys(map, allowed_keys, error)?;
    expect_text_field(map, "schema", expected_schema, error)?;
    expect_version_field(map, error)?;
    Ok(value)
}


// ---------------------------------------------------------------------------
// Checksums and block references
// ---------------------------------------------------------------------------

/// BLAKE3 checksum value used by QZT Core structures.
#[derive(Debug, Clone, PartialEq, Eq)]
pub struct Checksum {
    pub algorithm: String,
    pub value: [u8; 32],
}

/// The checksum carries the BLAKE3 algorithm name and `digest`.
pub open spec fn spec_is_blake3_checksum(c: Checksum, digest: Seq<u8>) -> bool {
    c.algorithm@ == "blake3"@ && c.value@ == digest
}

impl Checksum {
    /// Computes a BLAKE3 checksum over the given bytes.
    pub fn blake3(bytes: &[u8]) -> (r: Self)
        ensures
            spec_is_blake3_checksum(r, blake3_digest(bytes@)),
    {
        Checksum { algorithm: CHECKSUM_ALGORITHM_BLAKE3.to_owned(), value: blake3_hash(bytes) }
    }

    /// Constructs a BLAKE3 checksum from digest bytes computed elsewhere.
    pub fn from_raw_bytes(value: [u8; 32]) -> (r: Self)
        ensures
            spec_is_blake3_checksum(r, value@),
    {
        Checksum { algorithm: CHECKSUM_ALGORITHM_BLAKE3.to_owned(), value }
    }

    /// Field-wise equality.
    pub fn same_as(&self, other: &Checksum) -> (r: bool)
        ensures
            r == (self.algorithm@ == other.algorithm@ && self.value@ == other.value@),
    {
        if !text_is(&self.algorithm, other.algorithm.as_str()) {
            return false;
        }
        bytes_equal(&self.value, &other.value)
    }
}

/// A copy of a checksum, field for field.
pub(crate) fn copy_checksum(c: &Checksum) -> (r: Checksum)
    ensures
        r == *c,
{
    Checksum { algorithm: c.algorithm.clone(), value: c.value }
}

/// A copy of a block reference, field for field.
pub(crate) fn copy_block_ref(b: &BlockRef) -> (r: BlockRef)
    ensures
        r == *b,
{
    BlockRef { offset: b.offset, size: b.size, checksum: copy_checksum(&b.checksum) }
}

/// Offset, size, and checksum for a referenced CBOR or binary block.
#[derive(Debug, Clone, PartialEq, Eq)]
pub struct BlockRef {
    pub offset: u64,
    pub size: u64,
    pub checksum: Checksum,
}

/// The checksum map of a digest.
pub open spec fn spec_checksum_item(c: Checksum) -> CborItem {
    CborItem::Mapping(seq![
        (CborItem::Text("algorithm"@), CborItem::Text(c.algorithm@)),
        (CborItem::Text("value"@), CborItem::Bytes(c.value@)),
    ])
}

/// The map of a block reference.
pub open spec fn spec_block_ref_item(b: BlockRef) -> CborItem {
    CborItem::Mapping(seq![
        (CborItem::Text("offset"@), CborItem::Int(b.offset as int)),
        (CborItem::Text("size"@), CborItem::Int(b.size as int)),
        (CborItem::Text("checksum"@), spec_checksum_item(b.checksum)),
    ])
}

/// Builds an entry keyed by text.
pub fn text_pair(key: &str, value: CborValue) -> (r: (CborValue, CborValue))
    ensures
        r.0@ == CborItem::Text(key@),
        r.1@ == value@,
{
    (CborValue::Text(key.to_owned()), value)
}

/// The integer value of a `u64`.
pub fn u64_value(value: u64) -> (r: CborValue)
    ensures
        r@ == CborItem::Int(value as int),
{
    CborValue::Integer(value as i128)
}

/// The format version value `[0, 1]`.
pub fn version_value() -> (r: CborValue)
    ensures
        r@ == spec_version_item(),
{
    let mut vs: Vec<CborValue> = Vec::new();
    vs.push(CborValue::Integer(0));
    vs.push(CborValue::Integer(1));
    proof {
        crate::cbor::lemma_cbor_items_index(vs@);
        assert(cbor_items(vs@) =~= seq![CborItem::Int(0), CborItem::Int(1)]);
    }
    CborValue::Array(vs)
}

/// The map of a checksum.
pub fn checksum_value(checksum: &Checksum) -> (r: CborValue)
    ensures
        r@ == spec_checksum_item(*checksum),
{
    let mut es: Vec<(CborValue, CborValue)> = Vec::new();
    es.push(text_pair("algorithm", CborValue::Text(checksum.algorithm.clone())));
    let value_bytes = slice_to_vec(&checksum.value, 0, 32);
    assert(value_bytes@ =~= checksum.value@);
    es.push(text_pair("value", CborValue::Bytes(value_bytes)));
    proof {
        crate::cbor::lemma_cbor_entries_index(es@);
        assert(cbor_entries(es@) =~= spec_checksum_item(*checksum)->Mapping_0);
    }
    CborValue::Mapping(es)
}

/// The map of a block reference.
pub fn block_ref_value(block: &BlockRef) -> (r: CborValue)
    ensures
        r@ == spec_block_ref_item(*block),
{
    let mut es: Vec<(CborValue, CborValue)> = Vec::new();
    es.push(text_pair("offset", u64_value(block.offset)));
    es.push(text_pair("size", u64_value(block.size)));
    es.push(text_pair("checksum", checksum_value(&block.checksum)));
    proof {
        crate::cbor::lemma_cbor_entries_index(es@);
        assert(cbor_entries(es@) =~= spec_block_ref_item(*block)->Mapping_0);
    }
    CborValue::Mapping(es)
}

/// The checksum under `key`: a map of exactly `algorithm` = "blake3" and a 32-byte `value`.
pub fn required_checksum(map: &[(CborValue, CborValue)], key: &str, error: QztError) -> (r: Result<Checksum>)
    ensures
        match r {
            Ok(c) => spec_checksum_of(spec_field(cbor_entries(map@), key@)) == Some(c.value@)
                && spec_is_blake3_checksum(c, c.value@),
            Err(e) => e == error && spec_checksum_of(spec_field(cbor_entries(map@), key@)) is None,
        },
{
    let checksum = required_map(map, key, error)?;
    let allowed: [&str; 2] = ["algorithm", "value"];
    assert(allowed@.map_values(|s: &str| s@) =~= seq!["algorithm"@, "value"@]);
    reject_unknown_keys(checksum, &allowed, error)?;
    let algorithm = required_text(checksum, "algorithm", error)?;
    if !text_is(&algorithm, CHECKSUM_ALGORITHM_BLAKE3) {
        return Err(error);
    }
    let value = required_bstr32(checksum, "value", error)?;
    Ok(Checksum::from_raw_bytes(value))
}

/// The checksum under `key` when the key is present: `Ok(None)` without it.
pub open spec fn spec_optional_checksum(m: Seq<(CborItem, CborItem)>, name: Seq<char>) -> Option<Option<Seq<u8>>> {
    if !spec_has_key(m, name) {
        Some(None)
    } else {
        match spec_checksum_of(spec_field(m, name)) {
            Some(d) => Some(Some(d)),
            None => None,
        }
    }
}

/// The checksum under `key` if the key is present.
pub fn optional_checksum(map: &[(CborValue, CborValue)], key: &str, error: QztError) -> (r: Result<Option<Checksum>>)
    ensures
        match r {
            Ok(None) => spec_optional_checksum(cbor_entries(map@), key@) == Some(None::<Seq<u8>>),
            Ok(Some(c)) => spec_optional_checksum(cbor_entries(map@), key@) == Some(Some(c.value@))
                && spec_is_blake3_checksum(c, c.value@),
            Err(e) => e == error && spec_optional_checksum(cbor_entries(map@), key@) is None,
        },
{
    proof {
        crate::cbor::lemma_cbor_entries_index(map@);
    }
    let ghost m = cbor_entries(map@);
    let mut i: usize = 0;
    let mut present = false;
    while i < map.len()
        invariant
            i <= map@.len(),
            m == cbor_entries(map@),
            m.len() == map@.len(),
            forall|k: int| 0 <= k < map@.len() ==> #[trigger] m[k] == (cbor_item(map@[k].0), cbor_item(map@[k].1)),
            present ==> spec_has_key(m, key@),
            !present ==> forall|k: int| 0 <= k < i ==> m[k].0 != CborItem::Text(key@),
        decreases map@.len() - i,
    {
        match &map[i].0 {
            CborValue::Text(text) => {
                if text_is(text, key) {
                    assert(m[i as int].0 == CborItem::Text(key@));
                    present = true;
                }
            },
            _ => {},
        }
        i = i + 1;
    }
    if !present {
        return Ok(None);
    }
    let c = required_checksum(map, key, error)?;
    Ok(Some(c))
}

/// A block reference map: exactly `offset`, `size` and `checksum`.
pub open spec fn spec_block_ref_of(v: Option<CborItem>) -> Option<(u64, u64, Seq<u8>)> {
    match spec_map_of(v) {
        Some(m) => if spec_keys_allowed(m, seq!["offset"@, "size"@, "checksum"@]) {
            match (spec_u64_of(spec_field(m, "offset"@)), spec_u64_of(spec_field(m, "size"@)), spec_checksum_of(spec_field(m, "checksum"@))) {
                (Some(o), Some(z), Some(d)) => Some((o, z, d)),
                _ => None,
            }
        } else {
            None
        },
        None => None,
    }
}

/// The block reference under `key`.
pub fn required_block_ref(map: &[(CborValue, CborValue)], key: &str, error: QztError) -> (r: Result<BlockRef>)
    ensures
        match r {
            Ok(b) => spec_block_ref_of(spec_field(cbor_entries(map@), key@)) == Some((b.offset, b.size, b.checksum.value@))
                && spec_is_blake3_checksum(b.checksum, b.checksum.value@),
            Err(e) => e == error && spec_block_ref_of(spec_field(cbor_entries(map@), key@)) is None,
        },
{
    let block = required_map(map, key, error)?;
    let allowed: [&str; 3] = ["offset", "size", "checksum"];
    assert(allowed@.map_values(|s: &str| s@) =~= seq!["offset"@, "size"@, "checksum"@]);
    reject_unknown_keys(block, &allowed, error)?;
    let offset = required_u64(block, "offset", error)?;
    let size = required_u64(block, "size", error)?;
    let checksum = required_checksum(block, "checksum", error)?;
    Ok(BlockRef { offset, size, checksum })
}

// ---------------------------------------------------------------------------
// Footer payload
// ---------------------------------------------------------------------------

/// Footer Payload logical model.
#[derive(Debug, Clone, PartialEq, Eq)]
pub struct FooterPayload {
    pub container_id: [u8; 16],
    pub index_root: BlockRef,
    pub metadata: BlockRef,
    pub final_file_size: u64,
    pub footer_flags: u64,
    pub container_checksum: Option<Checksum>,
}

/// Keys a footer payload may carry.
pub open spec fn spec_footer_keys() -> Seq<Seq<char>> {
    seq![
        "schema"@,
        "format_version"@,
        "container_id"@,
        "index_root"@,
        "metadata"@,
        "final_file_size"@,
        "footer_flags"@,
        "created_at_unix_ms"@,
        "writer"@,
        "container_checksum"@,
    ]
}

/// The map a footer payload encodes.
pub open spec fn spec_footer_item(f: FooterPayload) -> CborItem {
    let base = seq![
        (CborItem::Text("schema"@), CborItem::Text(SCHEMA_FOOTER@)),
        (CborItem::Text("format_version"@), spec_version_item()),
        (CborItem::Text("container_id"@), CborItem::Bytes(f.container_id@)),
        (CborItem::Text("index_root"@), spec_block_ref_item(f.index_root)),
        (CborItem::Text("metadata"@), spec_block_ref_item(f.metadata)),
        (CborItem::Text("final_file_size"@), CborItem::Int(f.final_file_size as int)),
        (CborItem::Text("footer_flags"@), CborItem::Int(f.footer_flags as int)),
    ];
    match f.container_checksum {
        Some(c) => CborItem::Mapping(base.push((CborItem::Text("container_checksum"@), spec_checksum_item(c)))),
        None => CborItem::Mapping(base),
    }
}

/// The footer fields of a decoded footer map, all present and well-formed.
pub open spec fn spec_footer_fields_ok(m: Seq<(CborItem, CborItem)>) -> bool {
    &&& spec_bstr_of(spec_field(m, "container_id"@), 16) is Some
    &&& spec_block_ref_of(spec_field(m, "index_root"@)) is Some
    &&& spec_block_ref_of(spec_field(m, "metadata"@)) is Some
    &&& spec_u64_of(spec_field(m, "final_file_size"@)) is Some
    &&& spec_optional_checksum(m, "container_checksum"@) is Some
}

/// `f` holds the footer fields of map `m`.
pub open spec fn spec_footer_matches(m: Seq<(CborItem, CborItem)>, f: FooterPayload) -> bool {
    &&& spec_bstr_of(spec_field(m, "container_id"@), 16) == Some(f.container_id@)
    &&& spec_block_ref_of(spec_field(m, "index_root"@)) == Some((f.index_root.offset, f.index_root.size, f.index_root.checksum.value@))
    &&& spec_block_ref_of(spec_field(m, "metadata"@)) == Some((f.metadata.offset, f.metadata.size, f.metadata.checksum.value@))
    &&& spec_u64_of(spec_field(m, "final_file_size"@)) == Some(f.final_file_size)
    &&& f.footer_flags == 0
    &&& spec_optional_checksum(m, "container_checksum"@) == Some(match f.container_checksum {
        Some(c) => Some(c.value@),
        None => None::<Seq<u8>>,
    })
}

/// What decoding a footer payload gives.
pub open spec fn spec_footer_decode_error(bytes: Seq<u8>) -> Option<QztError> {
    match spec_decode_prologue(bytes, spec_footer_keys(), SCHEMA_FOOTER@, QztError::InvalidFooterPayload) {
        Err(e) => Some(e),
        Ok(item) => {
            let m = item->Mapping_0;
            match spec_u64_of(spec_field(m, "footer_flags"@)) {
                None => Some(QztError::InvalidFooterPayload),
                Some(flags) => if flags != 0 {
                    Some(QztError::InvalidFlags)
                } else if !spec_footer_fields_ok(m) {
                    Some(QztError::InvalidFooterPayload)
                } else {
                    None
                },
            }
        },
    }
}

fn build_map(es: Vec<(CborValue, CborValue)>, items: Ghost<Seq<(CborItem, CborItem)>>) -> (r: CborValue)
    requires
        es@.len() == items@.len(),
        forall|i: int| 0 <= i < es@.len() ==> es@[i].0@ == items@[i].0 && es@[i].1@ == items@[i].1,
    ensures
        r@ == CborItem::Mapping(items@),
{
    proof {
        crate::cbor::lemma_cbor_entries_index(es@);
        assert(cbor_entries(es@) =~= items@);
    }
    CborValue::Mapping(es)
}

impl FooterPayload {
    /// Encodes the footer payload as deterministic CBOR.
    pub fn encode(&self) -> (r: Result<Vec<u8>>)
        ensures
            match (r, spec_encode_det(spec_footer_item(*self))) {
                (Ok(b), Ok(sb)) => b@ == sb,
                (Err(e), Err(se)) => e == se,
                _ => false,
            },
    {
        let mut es: Vec<(CborValue, CborValue)> = Vec::new();
        es.push(text_pair("schema", CborValue::Text(SCHEMA_FOOTER.to_owned())));
        es.push(text_pair("format_version", version_value()));
        let id_bytes = slice_to_vec(&self.container_id, 0, 16);
        assert(id_bytes@ =~= self.container_id@);
        es.push(text_pair("container_id", CborValue::Bytes(id_bytes)));
        es.push(text_pair("index_root", block_ref_value(&self.index_root)));
        es.push(text_pair("metadata", block_ref_value(&self.metadata)));
        es.push(text_pair("final_file_size", u64_value(self.final_file_size)));
        es.push(text_pair("footer_flags", u64_value(self.footer_flags)));
        match &self.container_checksum {
            Some(checksum) => {
                es.push(text_pair("container_checksum", checksum_value(checksum)));
            },
            None => {},
        }
        let value = build_map(es, Ghost(spec_footer_item(*self)->Mapping_0));
        encode_deterministic(&value)
    }

    /// Decodes and checks a footer payload: closed schema, zero flags, and
    /// well-formed references and checksums.
    pub fn decode(bytes: &[u8]) -> (r: Result<Self>)
        ensures
            match r {
                Ok(f) => spec_footer_decode_error(bytes@) is None && spec_footer_matches(
                    spec_validate(bytes@, spec_default_limits())->Ok_0->Mapping_0,
                    f,
                ),
                Err(e) => spec_footer_decode_error(bytes@) == Some(e),
            },
    {
        let keys: [&str; 10] = [
            "schema",
            "format_version",
            "container_id",
            "index_root",
            "metadata",
            "final_file_size",
            "footer_flags",
            "created_at_unix_ms",
            "writer",
            "container_checksum",
        ];
        assert(keys@.map_values(|s: &str| s@) =~= spec_footer_keys());
        let value = decode_prologue(bytes, &keys, SCHEMA_FOOTER, QztError::InvalidFooterPayload)?;
        let map = as_map(&value, QztError::InvalidFooterPayload)?;
        let footer_flags = required_u64(map, "footer_flags", QztError::InvalidFooterPayload)?;
        if footer_flags != 0 {
            return Err(QztError::InvalidFlags);
        }
        let container_id = required_bstr16(map, "container_id", QztError::InvalidFooterPayload)?;
        let index_root = required_block_ref(map, "index_root", QztError::InvalidFooterPayload)?;
        let metadata = required_block_ref(map, "metadata", QztError::InvalidFooterPayload)?;
        let final_file_size = required_u64(map, "final_file_size", QztError::InvalidFooterPayload)?;
        let container_checksum = optional_checksum(map, "container_checksum", QztError::InvalidFooterPayload)?;
        Ok(FooterPayload { container_id, index_root, metadata, final_file_size, footer_flags, container_checksum })
    }
}


// ---------------------------------------------------------------------------
// Metadata
// ---------------------------------------------------------------------------

/// Metadata fields needed for Core structural verification.
#[derive(Debug, Clone, PartialEq, Eq)]
pub struct Metadata {
    pub container_id: [u8; 16],
    pub original_size: u64,
    pub original_checksum: Checksum,
    pub newline_mode: String,
    pub line_count: u64,
    pub zstd_level: i32,
    pub target_chunk_size: u64,
    pub max_chunk_size: u64,
    pub dictionary_mode: String,
    pub profile: String,
    pub dense_line_index: bool,
    pub document_index: bool,
}

/// Metadata writer options that are not derived from original bytes.
#[derive(Debug, Clone, Copy, PartialEq, Eq)]
pub struct MetadataOptions<'a> {
    pub zstd_level: i32,
    pub target_chunk_size: u64,
    pub max_chunk_size: u64,
    pub dictionary_mode: &'a str,
    pub profile: &'a str,
    pub dense_line_index: bool,
    pub document_index: bool,
}

impl<'a> Default for MetadataOptions<'a> {
    /// Level 0, 4 MiB target and 16 MiB maximum chunks, no dictionary, the
    /// `core` profile, no optional indexes.
    fn default() -> (r: Self)
        ensures
            r.zstd_level == 0,
            r.target_chunk_size == 4194304,
            r.max_chunk_size == 16777216,
            r.dictionary_mode@ == "none"@,
            r.profile@ == "core"@,
            !r.dense_line_index,
            !r.document_index,
    {
        MetadataOptions {
            zstd_level: 0,
            target_chunk_size: 4194304,
            max_chunk_size: 16777216,
            dictionary_mode: "none",
            profile: "core",
            dense_line_index: false,
            document_index: false,
        }
    }
}

/// `m` records the given source facts and options.
pub open spec fn spec_metadata_fields(
    m: Metadata,
    container_id: Seq<u8>,
    original_size: u64,
    original_checksum: Checksum,
    newline_mode: Seq<char>,
    line_count: u64,
    zstd_level: i32,
    target_chunk_size: u64,
    max_chunk_size: u64,
    dictionary_mode: Seq<char>,
    profile: Seq<char>,
    dense_line_index: bool,
    document_index: bool,
) -> bool {
    &&& m.container_id@ == container_id
    &&& m.original_size == original_size
    &&& m.original_checksum.algorithm@ == original_checksum.algorithm@
    &&& m.original_checksum.value@ == original_checksum.value@
    &&& m.newline_mode@ == newline_mode
    &&& m.line_count == line_count
    &&& m.zstd_level == zstd_level
    &&& m.target_chunk_size == target_chunk_size
    &&& m.max_chunk_size == max_chunk_size
    &&& m.dictionary_mode@ == dictionary_mode
    &&& m.profile@ == profile
    &&& m.dense_line_index == dense_line_index
    &&& m.document_index == document_index
}

impl Metadata {
    /// Metadata of an empty source.
    pub fn empty(container_id: [u8; 16]) -> (r: Self)
        ensures
            spec_metadata_fields(r, container_id@, 0, r.original_checksum, "none"@, 0, 0, 4194304, 16777216, "none"@, "core"@, false, false),
            spec_is_blake3_checksum(r.original_checksum, blake3_digest(Seq::<u8>::empty())),
    {
        let empty: [u8; 0] = [];
        assert(empty@ =~= Seq::<u8>::empty());
        let zero_checksum = Checksum::blake3(&empty);
        Self::for_source_with_options(container_id, 0, zero_checksum, "none", 0, MetadataOptions::default())
    }

    /// Metadata of a source under the default options.
    pub fn for_source(
        container_id: [u8; 16],
        original_size: u64,
        original_checksum: Checksum,
        newline_mode: &str,
        line_count: u64,
    ) -> (r: Self)
        ensures
            spec_metadata_fields(r, container_id@, original_size, original_checksum, newline_mode@, line_count, 0, 4194304, 16777216, "none"@, "core"@, false, false),
    {
        Self::for_source_with_options(
            container_id,
            original_size,
            original_checksum,
            newline_mode,
            line_count,
            MetadataOptions::default(),
        )
    }

    /// Metadata of a source under the given options.
    pub fn for_source_with_options(
        container_id: [u8; 16],
        original_size: u64,
        original_checksum: Checksum,
        newline_mode: &str,
        line_count: u64,
        options: MetadataOptions<'_>,
    ) -> (r: Self)
        ensures
            spec_metadata_fields(r, container_id@, original_size, original_checksum, newline_mode@, line_count,
                options.zstd_level, options.target_chunk_size, options.max_chunk_size,
                options.dictionary_mode@, options.profile@, options.dense_line_index, options.document_index),
    {
        Metadata {
            container_id,
            original_size,
            original_checksum,
            newline_mode: newline_mode.to_owned(),
            line_count,
            zstd_level: options.zstd_level,
            target_chunk_size: options.target_chunk_size,
            max_chunk_size: options.max_chunk_size,
            dictionary_mode: options.dictionary_mode.to_owned(),
            profile: options.profile.to_owned(),
            dense_line_index: options.dense_line_index,
            document_index: options.document_index,
        }
    }
}

/// The map a metadata block encodes.
pub open spec fn spec_metadata_item(m: Metadata) -> CborItem {
    CborItem::Mapping(seq![
        (CborItem::Text("schema"@), CborItem::Text(SCHEMA_METADATA@)),
        (CborItem::Text("format"@), CborItem::Text("qzt"@)),
        (CborItem::Text("format_version"@), spec_version_item()),
        (CborItem::Text("container_id"@), CborItem::Bytes(m.container_id@)),
        (CborItem::Text("identity"@), CborItem::Mapping(seq![(CborItem::Text("name"@), CborItem::Null), (CborItem::Text("profile"@), CborItem::Text(m.profile@)), (CborItem::Text("created_by"@), CborItem::Text("qzt"@)), (CborItem::Text("created_at_unix_ms"@), CborItem::Null)])),
        (CborItem::Text("source"@), CborItem::Mapping(seq![(CborItem::Text("media_type"@), CborItem::Text("text"@)), (CborItem::Text("encoding"@), CborItem::Text("utf-8"@)), (CborItem::Text("original_size"@), CborItem::Int(m.original_size as int)), (CborItem::Text("original_checksum"@), spec_checksum_item(m.original_checksum)), (CborItem::Text("newline_mode"@), CborItem::Text(m.newline_mode@)), (CborItem::Text("line_count"@), CborItem::Int(m.line_count as int))])),
        (CborItem::Text("compression"@), CborItem::Mapping(seq![(CborItem::Text("codec"@), CborItem::Text("zstd"@)), (CborItem::Text("zstd_level"@), CborItem::Int(m.zstd_level as int)), (CborItem::Text("independent_frames"@), CborItem::Bool(true)), (CborItem::Text("zstd_frame_checksum"@), CborItem::Bool(false)), (CborItem::Text("dictionary_mode"@), CborItem::Text(m.dictionary_mode@))])),
        (CborItem::Text("chunking"@), CborItem::Mapping(seq![(CborItem::Text("target_chunk_size"@), CborItem::Int(m.target_chunk_size as int)), (CborItem::Text("max_chunk_size"@), CborItem::Int(m.max_chunk_size as int)), (CborItem::Text("boundary"@), CborItem::Text("line-preferred"@)), (CborItem::Text("utf8_boundary_required"@), CborItem::Bool(true))])),
        (CborItem::Text("indexes"@), CborItem::Mapping(seq![(CborItem::Text("chunk_table"@), CborItem::Bool(true)), (CborItem::Text("sparse_line_index"@), CborItem::Bool(true)), (CborItem::Text("dense_line_index"@), CborItem::Bool(m.dense_line_index)), (CborItem::Text("document_index"@), CborItem::Bool(m.document_index)), (CborItem::Text("token_index"@), CborItem::Bool(false)), (CborItem::Text("ngram_index"@), CborItem::Bool(false)), (CborItem::Text("vector_index"@), CborItem::Bool(false))])),
        (CborItem::Text("integrity"@), CborItem::Mapping(seq![(CborItem::Text("compressed_chunk_checksum"@), CborItem::Text("blake3"@)), (CborItem::Text("uncompressed_chunk_checksum"@), CborItem::Text("blake3"@)), (CborItem::Text("index_checksum"@), CborItem::Text("blake3"@))])),
        (CborItem::Text("compatibility"@), CborItem::Mapping(seq![(CborItem::Text("qzt_is_zst_stream"@), CborItem::Bool(false)), (CborItem::Text("chunks_are_independent_zstd_frames"@), CborItem::Bool(true))])),
    ])
}

/// A nested map under `name` whose keys are all among `allowed`.
pub open spec fn spec_sub_map(m: Seq<(CborItem, CborItem)>, name: Seq<char>, allowed: Seq<Seq<char>>) -> bool {
    spec_map_of(spec_field(m, name)) matches Some(sub) && spec_keys_allowed(sub, allowed)
}

/// The nested map under `name` (meaningful when there is one).
pub open spec fn spec_sub(m: Seq<(CborItem, CborItem)>, name: Seq<char>) -> Seq<(CborItem, CborItem)> {
    spec_map_of(spec_field(m, name))->Some_0
}

pub open spec fn spec_text_is(m: Seq<(CborItem, CborItem)>, name: Seq<char>, t: Seq<char>) -> bool {
    spec_text_of(spec_field(m, name)) == Some(t)
}

pub open spec fn spec_bool_is(m: Seq<(CborItem, CborItem)>, name: Seq<char>, b: bool) -> bool {
    spec_bool_of(spec_field(m, name)) == Some(b)
}

/// Everything `Metadata::decode` requires of a decoded metadata map.
pub open spec fn spec_metadata_ok(m: Seq<(CborItem, CborItem)>) -> bool {
    &&& spec_text_is(m, "format"@, "qzt"@)
    &&& spec_sub_map(m, "identity"@, seq!["name"@, "profile"@, "created_by"@, "created_at_unix_ms"@])
    &&& spec_sub_map(m, "source"@, seq!["media_type"@, "encoding"@, "original_size"@, "original_checksum"@, "newline_mode"@, "line_count"@])
    &&& spec_text_is(spec_sub(m, "source"@), "media_type"@, "text"@)
    &&& spec_text_is(spec_sub(m, "source"@), "encoding"@, "utf-8"@)
    &&& spec_sub_map(m, "compression"@, seq!["codec"@, "zstd_level"@, "independent_frames"@, "zstd_frame_checksum"@, "dictionary_mode"@])
    &&& spec_text_is(spec_sub(m, "compression"@), "codec"@, "zstd"@)
    &&& spec_bool_is(spec_sub(m, "compression"@), "independent_frames"@, true)
    &&& spec_bool_is(spec_sub(m, "compression"@), "zstd_frame_checksum"@, false)
    &&& spec_sub_map(m, "chunking"@, seq!["target_chunk_size"@, "max_chunk_size"@, "boundary"@, "utf8_boundary_required"@])
    &&& spec_bool_is(spec_sub(m, "chunking"@), "utf8_boundary_required"@, true)
    &&& spec_text_is(spec_sub(m, "chunking"@), "boundary"@, "line-preferred"@)
    &&& spec_sub_map(m, "indexes"@, seq!["chunk_table"@, "sparse_line_index"@, "dense_line_index"@, "document_index"@, "token_index"@, "ngram_index"@, "vector_index"@])
    &&& spec_bool_is(spec_sub(m, "indexes"@), "chunk_table"@, true)
    &&& spec_bool_is(spec_sub(m, "indexes"@), "sparse_line_index"@, true)
    &&& spec_bool_is(spec_sub(m, "indexes"@), "token_index"@, false)
    &&& spec_bool_is(spec_sub(m, "indexes"@), "ngram_index"@, false)
    &&& spec_bool_is(spec_sub(m, "indexes"@), "vector_index"@, false)
    &&& spec_sub_map(m, "integrity"@, seq!["compressed_chunk_checksum"@, "uncompressed_chunk_checksum"@, "index_checksum"@])
    &&& spec_text_is(spec_sub(m, "integrity"@), "compressed_chunk_checksum"@, "blake3"@)
    &&& spec_text_is(spec_sub(m, "integrity"@), "uncompressed_chunk_checksum"@, "blake3"@)
    &&& spec_text_is(spec_sub(m, "integrity"@), "index_checksum"@, "blake3"@)
    &&& spec_sub_map(m, "compatibility"@, seq!["qzt_is_zst_stream"@, "chunks_are_independent_zstd_frames"@])
    &&& spec_bool_is(spec_sub(m, "compatibility"@), "qzt_is_zst_stream"@, false)
    &&& spec_bool_is(spec_sub(m, "compatibility"@), "chunks_are_independent_zstd_frames"@, true)
    &&& spec_text_of(spec_field(spec_sub(m, "source"@), "newline_mode"@)) matches Some(nl)
        && (nl == "none"@ || nl == "lf"@ || nl == "crlf"@ || nl == "mixed"@)
    &&& spec_text_of(spec_field(spec_sub(m, "compression"@), "dictionary_mode"@)) matches Some(dm)
        && (dm == "none"@ || dm == "embedded"@)
    &&& spec_text_of(spec_field(spec_sub(m, "identity"@), "profile"@)) matches Some(p)
        && (p == "minimal"@ || p == "core"@ || p == "log"@ || p == "archive"@ || p == "memory"@)
    &&& spec_i32_of(spec_field(spec_sub(m, "compression"@), "zstd_level"@)) is Some
    &&& spec_u64_of(spec_field(spec_sub(m, "chunking"@), "target_chunk_size"@)) matches Some(t) && t != 0
    &&& spec_u64_of(spec_field(spec_sub(m, "chunking"@), "max_chunk_size"@)) matches Some(x) && x != 0
    &&& spec_u64_of(spec_field(spec_sub(m, "chunking"@), "target_chunk_size"@))->Some_0
        <= spec_u64_of(spec_field(spec_sub(m, "chunking"@), "max_chunk_size"@))->Some_0
    &&& spec_bstr_of(spec_field(m, "container_id"@), 16) is Some
    &&& spec_u64_of(spec_field(spec_sub(m, "source"@), "original_size"@)) is Some
    &&& spec_checksum_of(spec_field(spec_sub(m, "source"@), "original_checksum"@)) is Some
    &&& spec_u64_of(spec_field(spec_sub(m, "source"@), "line_count"@)) is Some
    &&& spec_bool_of(spec_field(spec_sub(m, "indexes"@), "dense_line_index"@)) is Some
    &&& spec_bool_of(spec_field(spec_sub(m, "indexes"@), "document_index"@)) is Some
}

/// `md` holds the fields of metadata map `m`.
pub open spec fn spec_metadata_matches(m: Seq<(CborItem, CborItem)>, md: Metadata) -> bool {
    &&& spec_bstr_of(spec_field(m, "container_id"@), 16) == Some(md.container_id@)
    &&& spec_u64_of(spec_field(spec_sub(m, "source"@), "original_size"@)) == Some(md.original_size)
    &&& spec_checksum_of(spec_field(spec_sub(m, "source"@), "original_checksum"@)) == Some(md.original_checksum.value@)
    &&& spec_is_blake3_checksum(md.original_checksum, md.original_checksum.value@)
    &&& spec_text_of(spec_field(spec_sub(m, "source"@), "newline_mode"@)) == Some(md.newline_mode@)
    &&& spec_u64_of(spec_field(spec_sub(m, "source"@), "line_count"@)) == Some(md.line_count)
    &&& spec_i32_of(spec_field(spec_sub(m, "compression"@), "zstd_level"@)) == Some(md.zstd_level)
    &&& spec_u64_of(spec_field(spec_sub(m, "chunking"@), "target_chunk_size"@)) == Some(md.target_chunk_size)
    &&& spec_u64_of(spec_field(spec_sub(m, "chunking"@), "max_chunk_size"@)) == Some(md.max_chunk_size)
    &&& spec_text_of(spec_field(spec_sub(m, "compression"@), "dictionary_mode"@)) == Some(md.dictionary_mode@)
    &&& spec_text_of(spec_field(spec_sub(m, "identity"@), "profile"@)) == Some(md.profile@)
    &&& spec_bool_of(spec_field(spec_sub(m, "indexes"@), "dense_line_index"@)) == Some(md.dense_line_index)
    &&& spec_bool_of(spec_field(spec_sub(m, "indexes"@), "document_index"@)) == Some(md.document_index)
}

/// Keys a metadata block may carry.
pub open spec fn spec_metadata_keys() -> Seq<Seq<char>> {
    seq!["schema"@, "format"@, "format_version"@, "container_id"@, "identity"@, "source"@,
        "compression"@, "chunking"@, "indexes"@, "integrity"@, "compatibility"@]
}

/// What decoding a metadata block gives.
pub open spec fn spec_metadata_decode_error(bytes: Seq<u8>) -> Option<QztError> {
    match spec_decode_prologue(bytes, spec_metadata_keys(), SCHEMA_METADATA@, QztError::MetadataInvalid) {
        Err(e) => Some(e),
        Ok(item) => if spec_metadata_ok(item->Mapping_0) {
            None
        } else {
            Some(QztError::MetadataInvalid)
        },
    }
}

fn text_in(t: &String, a: &str, b: &str, c: &str, d: &str, e: &str, n: usize) -> (r: bool)
    requires
        1 <= n <= 5,
    ensures
        r == (t@ == a@ || (n >= 2 && t@ == b@) || (n >= 3 && t@ == c@) || (n >= 4 && t@ == d@) || (n >= 5 && t@ == e@)),
{
    text_is(t, a) || (n >= 2 && text_is(t, b)) || (n >= 3 && text_is(t, c)) || (n >= 4 && text_is(t, d))
        || (n >= 5 && text_is(t, e))
}

impl Metadata {
    /// Encodes the metadata block as deterministic CBOR.
    pub fn encode(&self) -> (r: Result<Vec<u8>>)
        ensures
            match (r, spec_encode_det(spec_metadata_item(*self))) {
                (Ok(b), Ok(sb)) => b@ == sb,
                (Err(e), Err(se)) => e == se,
                _ => false,
            },
    {
        let mut identity: Vec<(CborValue, CborValue)> = Vec::new();
        identity.push(text_pair("name", CborValue::Null));
        identity.push(text_pair("profile", CborValue::Text(self.profile.clone())));
        identity.push(text_pair("created_by", CborValue::Text("qzt".to_owned())));
        identity.push(text_pair("created_at_unix_ms", CborValue::Null));
        let identity = build_map(identity, Ghost(spec_metadata_item(*self)->Mapping_0[4].1->Mapping_0));
        let mut source: Vec<(CborValue, CborValue)> = Vec::new();
        source.push(text_pair("media_type", CborValue::Text("text".to_owned())));
        source.push(text_pair("encoding", CborValue::Text("utf-8".to_owned())));
        source.push(text_pair("original_size", u64_value(self.original_size)));
        source.push(text_pair("original_checksum", checksum_value(&self.original_checksum)));
        source.push(text_pair("newline_mode", CborValue::Text(self.newline_mode.clone())));
        source.push(text_pair("line_count", u64_value(self.line_count)));
        let source = build_map(source, Ghost(spec_metadata_item(*self)->Mapping_0[5].1->Mapping_0));
        let mut compression: Vec<(CborValue, CborValue)> = Vec::new();
        compression.push(text_pair("codec", CborValue::Text("zstd".to_owned())));
        compression.push(text_pair("zstd_level", CborValue::Integer(self.zstd_level as i128)));
        compression.push(text_pair("independent_frames", CborValue::Bool(true)));
        compression.push(text_pair("zstd_frame_checksum", CborValue::Bool(false)));
        compression.push(text_pair("dictionary_mode", CborValue::Text(self.dictionary_mode.clone())));
        let compression = build_map(compression, Ghost(spec_metadata_item(*self)->Mapping_0[6].1->Mapping_0));
        let mut chunking: Vec<(CborValue, CborValue)> = Vec::new();
        chunking.push(text_pair("target_chunk_size", u64_value(self.target_chunk_size)));
        chunking.push(text_pair("max_chunk_size", u64_value(self.max_chunk_size)));
        chunking.push(text_pair("boundary", CborValue::Text("line-preferred".to_owned())));
        chunking.push(text_pair("utf8_boundary_required", CborValue::Bool(true)));
        let chunking = build_map(chunking, Ghost(spec_metadata_item(*self)->Mapping_0[7].1->Mapping_0));
        let mut indexes: Vec<(CborValue, CborValue)> = Vec::new();
        indexes.push(text_pair("chunk_table", CborValue::Bool(true)));
        indexes.push(text_pair("sparse_line_index", CborValue::Bool(true)));
        indexes.push(text_pair("dense_line_index", CborValue::Bool(self.dense_line_index)));
        indexes.push(text_pair("document_index", CborValue::Bool(self.document_index)));
        indexes.push(text_pair("token_index", CborValue::Bool(false)));
        indexes.push(text_pair("ngram_index", CborValue::Bool(false)));
        indexes.push(text_pair("vector_index", CborValue::Bool(false)));
        let indexes = build_map(indexes, Ghost(spec_metadata_item(*self)->Mapping_0[8].1->Mapping_0));
        let mut integrity: Vec<(CborValue, CborValue)> = Vec::new();
        integrity.push(text_pair("compressed_chunk_checksum", CborValue::Text(CHECKSUM_ALGORITHM_BLAKE3.to_owned())));
        integrity.push(text_pair("uncompressed_chunk_checksum", CborValue::Text(CHECKSUM_ALGORITHM_BLAKE3.to_owned())));
        integrity.push(text_pair("index_checksum", CborValue::Text(CHECKSUM_ALGORITHM_BLAKE3.to_owned())));
        let integrity = build_map(integrity, Ghost(spec_metadata_item(*self)->Mapping_0[9].1->Mapping_0));
        let mut compatibility: Vec<(CborValue, CborValue)> = Vec::new();
        compatibility.push(text_pair("qzt_is_zst_stream", CborValue::Bool(false)));
        compatibility.push(text_pair("chunks_are_independent_zstd_frames", CborValue::Bool(true)));
        let compatibility = build_map(compatibility, Ghost(spec_metadata_item(*self)->Mapping_0[10].1->Mapping_0));
        let mut es: Vec<(CborValue, CborValue)> = Vec::new();
        es.push(text_pair("schema", CborValue::Text(SCHEMA_METADATA.to_owned())));
        es.push(text_pair("format", CborValue::Text("qzt".to_owned())));
        es.push(text_pair("format_version", version_value()));
        let id_bytes = slice_to_vec(&self.container_id, 0, 16);
        assert(id_bytes@ =~= self.container_id@);
        es.push(text_pair("container_id", CborValue::Bytes(id_bytes)));
        es.push(text_pair("identity", identity));
        es.push(text_pair("source", source));
        es.push(text_pair("compression", compression));
        es.push(text_pair("chunking", chunking));
        es.push(text_pair("indexes", indexes));
        es.push(text_pair("integrity", integrity));
        es.push(text_pair("compatibility", compatibility));
        let value = build_map(es, Ghost(spec_metadata_item(*self)->Mapping_0));
        encode_deterministic(&value)
    }

    /// Decodes and checks a metadata block against the closed v0.1 schema.
    pub fn decode(bytes: &[u8]) -> (r: Result<Self>)
        ensures
            match r {
                Ok(md) => spec_metadata_decode_error(bytes@) is None && spec_metadata_matches(
                    spec_validate(bytes@, spec_default_limits())->Ok_0->Mapping_0,
                    md,
                ),
                Err(e) => spec_metadata_decode_error(bytes@) == Some(e),
            },
    {
        let err = QztError::MetadataInvalid;
        let keys: [&str; 11] = ["schema", "format", "format_version", "container_id", "identity", "source",
            "compression", "chunking", "indexes", "integrity", "compatibility"];
        assert(keys@.map_values(|s: &str| s@) =~= spec_metadata_keys());
        let value = decode_prologue(bytes, &keys, SCHEMA_METADATA, err)?;
        let map = as_map(&value, err)?;
        expect_text_field(map, "format", "qzt", err)?;

        let identity = required_map(map, "identity", err)?;
        let k: [&str; 4] = ["name", "profile", "created_by", "created_at_unix_ms"];
        assert(k@.map_values(|s: &str| s@) =~= seq!["name"@, "profile"@, "created_by"@, "created_at_unix_ms"@]);
        reject_unknown_keys(identity, &k, err)?;

        let source = required_map(map, "source", err)?;
        let k: [&str; 6] = ["media_type", "encoding", "original_size", "original_checksum", "newline_mode", "line_count"];
        assert(k@.map_values(|s: &str| s@) =~= seq!["media_type"@, "encoding"@, "original_size"@, "original_checksum"@, "newline_mode"@, "line_count"@]);
        reject_unknown_keys(source, &k, err)?;
        expect_text_field(source, "media_type", "text", err)?;
        expect_text_field(source, "encoding", "utf-8", err)?;

        let compression = required_map(map, "compression", err)?;
        let k: [&str; 5] = ["codec", "zstd_level", "independent_frames", "zstd_frame_checksum", "dictionary_mode"];
        assert(k@.map_values(|s: &str| s@) =~= seq!["codec"@, "zstd_level"@, "independent_frames"@, "zstd_frame_checksum"@, "dictionary_mode"@]);
        reject_unknown_keys(compression, &k, err)?;
        expect_text_field(compression, "codec", "zstd", err)?;
        expect_bool_field(compression, "independent_frames", true, err)?;
        expect_bool_field(compression, "zstd_frame_checksum", false, err)?;

        let chunking = required_map(map, "chunking", err)?;
        let k: [&str; 4] = ["target_chunk_size", "max_chunk_size", "boundary", "utf8_boundary_required"];
        assert(k@.map_values(|s: &str| s@) =~= seq!["target_chunk_size"@, "max_chunk_size"@, "boundary"@, "utf8_boundary_required"@]);
        reject_unknown_keys(chunking, &k, err)?;
        expect_bool_field(chunking, "utf8_boundary_required", true, err)?;
        expect_text_field(chunking, "boundary", "line-preferred", err)?;

        let indexes = required_map(map, "indexes", err)?;
        let k: [&str; 7] = ["chunk_table", "sparse_line_index", "dense_line_index", "document_index", "token_index", "ngram_index", "vector_index"];
        assert(k@.map_values(|s: &str| s@) =~= seq!["chunk_table"@, "sparse_line_index"@, "dense_line_index"@, "document_index"@, "token_index"@, "ngram_index"@, "vector_index"@]);
        reject_unknown_keys(indexes, &k, err)?;
        expect_bool_field(indexes, "chunk_table", true, err)?;
        expect_bool_field(indexes, "sparse_line_index", true, err)?;
        expect_bool_field(indexes, "token_index", false, err)?;
        expect_bool_field(indexes, "ngram_index", false, err)?;
        expect_bool_field(indexes, "vector_index", false, err)?;

        let integrity = required_map(map, "integrity", err)?;
        let k: [&str; 3] = ["compressed_chunk_checksum", "uncompressed_chunk_checksum", "index_checksum"];
        assert(k@.map_values(|s: &str| s@) =~= seq!["compressed_chunk_checksum"@, "uncompressed_chunk_checksum"@, "index_checksum"@]);
        reject_unknown_keys(integrity, &k, err)?;
        expect_text_field(integrity, "compressed_chunk_checksum", CHECKSUM_ALGORITHM_BLAKE3, err)?;
        expect_text_field(integrity, "uncompressed_chunk_checksum", CHECKSUM_ALGORITHM_BLAKE3, err)?;
        expect_text_field(integrity, "index_checksum", CHECKSUM_ALGORITHM_BLAKE3, err)?;

        let compatibility = required_map(map, "compatibility", err)?;
        let k: [&str; 2] = ["qzt_is_zst_stream", "chunks_are_independent_zstd_frames"];
        assert(k@.map_values(|s: &str| s@) =~= seq!["qzt_is_zst_stream"@, "chunks_are_independent_zstd_frames"@]);
        reject_unknown_keys(compatibility, &k, err)?;
        expect_bool_field(compatibility, "qzt_is_zst_stream", false, err)?;
        expect_bool_field(compatibility, "chunks_are_independent_zstd_frames", true, err)?;

        let newline_mode = required_text(source, "newline_mode", err)?;
        if !text_in(&newline_mode, "none", "lf", "crlf", "mixed", "", 4) {
            return Err(err);
        }
        let dictionary_mode = required_text(compression, "dictionary_mode", err)?;
        if !text_in(&dictionary_mode, "none", "embedded", "", "", "", 2) {
            return Err(err);
        }
        let profile = required_text(identity, "profile", err)?;
        if !text_in(&profile, "minimal", "core", "log", "archive", "memory", 5) {
            return Err(err);
        }
        let zstd_level = required_i32(compression, "zstd_level", err)?;
        let target_chunk_size = required_u64(chunking, "target_chunk_size", err)?;
        let max_chunk_size = required_u64(chunking, "max_chunk_size", err)?;
        if target_chunk_size == 0 || max_chunk_size == 0 || target_chunk_size > max_chunk_size {
            return Err(err);
        }
        let container_id = required_bstr16(map, "container_id", err)?;
        let original_size = required_u64(source, "original_size", err)?;
        let original_checksum = required_checksum(source, "original_checksum", err)?;
        let line_count = required_u64(source, "line_count", err)?;
        let dense_line_index = required_bool(indexes, "dense_line_index", err)?;
        let document_index = required_bool(indexes, "document_index", err)?;
        Ok(Metadata {
            container_id,
            original_size,
            original_checksum,
            newline_mode,
            line_count,
            zstd_level,
            target_chunk_size,
            max_chunk_size,
            dictionary_mode,
            profile,
            dense_line_index,
            document_index,
        })
    }
}


// ---------------------------------------------------------------------------
// Block descriptors and the index root
// ---------------------------------------------------------------------------

/// Index Root block descriptor.
#[derive(Debug, Clone, PartialEq, Eq)]
pub struct BlockDescriptor {
    pub block_type: String,
    pub required: bool,
    pub offset: u64,
    pub size: u64,
    pub codec: String,
    pub checksum: Checksum,
    pub flags: u64,
}

/// `d` describes a block of the given type, codec, place and checksum, with no flags.
pub open spec fn spec_descriptor_is(d: BlockDescriptor, block_type: Seq<char>, required: bool, codec: Seq<char>, offset: u64, size: u64, checksum: Checksum) -> bool {
    &&& d.block_type@ == block_type
    &&& d.required == required
    &&& d.codec@ == codec
    &&& d.offset == offset
    &&& d.size == size
    &&& d.checksum == checksum
    &&& d.flags == 0
}

impl BlockDescriptor {
    fn new(block_type: &str, required: bool, codec: &str, offset: u64, size: u64, checksum: Checksum) -> (r: Self)
        ensures
            spec_descriptor_is(r, block_type@, required, codec@, offset, size, checksum),
    {
        BlockDescriptor {
            block_type: block_type.to_owned(),
            required,
            offset,
            size,
            codec: codec.to_owned(),
            checksum,
            flags: 0,
        }
    }

    /// The required chunk table block.
    pub fn chunk_table(offset: u64, size: u64, checksum: Checksum) -> (r: Self)
        ensures
            spec_descriptor_is(r, "chunk_table"@, true, "qzt-ctbl-fixed-v1"@, offset, size, checksum),
    {
        Self::new(CHUNK_TABLE_TYPE, true, CHUNK_TABLE_CODEC, offset, size, checksum)
    }

    /// An optional embedded dictionary block.
    pub fn dictionary(offset: u64, size: u64, checksum: Checksum) -> (r: Self)
        ensures
            spec_descriptor_is(r, "dictionary"@, false, "qzt-dict-cbor-v1"@, offset, size, checksum),
    {
        Self::new(DICTIONARY_TYPE, false, DICTIONARY_CODEC, offset, size, checksum)
    }

    /// An optional dense line index block.
    pub fn dense_line_index(offset: u64, size: u64, checksum: Checksum) -> (r: Self)
        ensures
            spec_descriptor_is(r, "dense_line_index"@, false, "qzt-line-delta-varint-v1"@, offset, size, checksum),
    {
        Self::new(DENSE_LINE_INDEX_TYPE, false, DENSE_LINE_INDEX_CODEC, offset, size, checksum)
    }

    /// An optional document index block.
    pub fn document_index(offset: u64, size: u64, checksum: Checksum) -> (r: Self)
        ensures
            spec_descriptor_is(r, "document_index"@, false, "qzt-doc-index-cbor-v1"@, offset, size, checksum),
    {
        Self::new(DOCUMENT_INDEX_TYPE, false, DOCUMENT_INDEX_CODEC, offset, size, checksum)
    }
}

/// The map a block descriptor encodes.
pub open spec fn spec_descriptor_item(d: BlockDescriptor) -> CborItem {
    CborItem::Mapping(seq![
        (CborItem::Text("type"@), CborItem::Text(d.block_type@)),
        (CborItem::Text("required"@), CborItem::Bool(d.required)),
        (CborItem::Text("offset"@), CborItem::Int(d.offset as int)),
        (CborItem::Text("size"@), CborItem::Int(d.size as int)),
        (CborItem::Text("codec"@), CborItem::Text(d.codec@)),
        (CborItem::Text("checksum"@), spec_checksum_item(d.checksum)),
        (CborItem::Text("flags"@), CborItem::Int(d.flags as int)),
    ])
}

/// Why a descriptor item is refused, if it is: `InvalidFlags` for non-zero
/// flags, `UnknownRequiredBlock` for a required block other than the chunk
/// table, `ContainerCorrupt` for anything malformed.
pub open spec fn spec_descriptor_error(v: CborItem) -> Option<QztError> {
    match v {
        CborItem::Mapping(m) => {
            if !spec_keys_allowed(m, seq!["type"@, "required"@, "offset"@, "size"@, "codec"@, "checksum"@, "flags"@])
                || spec_text_of(spec_field(m, "type"@)) is None
                || spec_bool_of(spec_field(m, "required"@)) is None
                || spec_u64_of(spec_field(m, "flags"@)) is None {
                Some(QztError::ContainerCorrupt)
            } else if spec_u64_of(spec_field(m, "flags"@))->Some_0 != 0 {
                Some(QztError::InvalidFlags)
            } else if spec_bool_of(spec_field(m, "required"@))->Some_0
                && spec_text_of(spec_field(m, "type"@))->Some_0 != "chunk_table"@ {
                Some(QztError::UnknownRequiredBlock)
            } else if spec_u64_of(spec_field(m, "offset"@)) is None
                || spec_u64_of(spec_field(m, "size"@)) is None
                || spec_text_of(spec_field(m, "codec"@)) is None
                || spec_checksum_of(spec_field(m, "checksum"@)) is None {
                Some(QztError::ContainerCorrupt)
            } else {
                None
            }
        },
        _ => Some(QztError::ContainerCorrupt),
    }
}

/// `d` holds the fields of descriptor item `v`.
pub open spec fn spec_descriptor_matches(v: CborItem, d: BlockDescriptor) -> bool {
    let m = v->Mapping_0;
    &&& spec_text_of(spec_field(m, "type"@)) == Some(d.block_type@)
    &&& spec_bool_of(spec_field(m, "required"@)) == Some(d.required)
    &&& spec_u64_of(spec_field(m, "offset"@)) == Some(d.offset)
    &&& spec_u64_of(spec_field(m, "size"@)) == Some(d.size)
    &&& spec_text_of(spec_field(m, "codec"@)) == Some(d.codec@)
    &&& spec_checksum_of(spec_field(m, "checksum"@)) == Some(d.checksum.value@)
    &&& spec_is_blake3_checksum(d.checksum, d.checksum.value@)
    &&& d.flags == 0
}

fn decode_block_descriptor(value: &CborValue) -> (r: Result<BlockDescriptor>)
    ensures
        match r {
            Ok(d) => spec_descriptor_error(value@) is None && spec_descriptor_matches(value@, d),
            Err(e) => spec_descriptor_error(value@) == Some(e),
        },
{
    let err = QztError::ContainerCorrupt;
    let map = as_map(value, err)?;
    let k: [&str; 7] = ["type", "required", "offset", "size", "codec", "checksum", "flags"];
    assert(k@.map_values(|s: &str| s@) =~= seq!["type"@, "required"@, "offset"@, "size"@, "codec"@, "checksum"@, "flags"@]);
    reject_unknown_keys(map, &k, err)?;
    let block_type = required_text(map, "type", err)?;
    let required = required_bool(map, "required", err)?;
    let flags = required_u64(map, "flags", err)?;
    if flags != 0 {
        return Err(QztError::InvalidFlags);
    }
    if required && !text_is(&block_type, CHUNK_TABLE_TYPE) {
        return Err(QztError::UnknownRequiredBlock);
    }
    let offset = required_u64(map, "offset", err)?;
    let size = required_u64(map, "size", err)?;
    let codec = required_text(map, "codec", err)?;
    let checksum = required_checksum(map, "checksum", err)?;
    Ok(BlockDescriptor { block_type, required, offset, size, codec, checksum, flags })
}

fn block_descriptor_value(block: &BlockDescriptor) -> (r: CborValue)
    ensures
        r@ == spec_descriptor_item(*block),
{
    let mut es: Vec<(CborValue, CborValue)> = Vec::new();
    es.push(text_pair("type", CborValue::Text(block.block_type.clone())));
    es.push(text_pair("required", CborValue::Bool(block.required)));
    es.push(text_pair("offset", u64_value(block.offset)));
    es.push(text_pair("size", u64_value(block.size)));
    es.push(text_pair("codec", CborValue::Text(block.codec.clone())));
    es.push(text_pair("checksum", checksum_value(&block.checksum)));
    es.push(text_pair("flags", u64_value(block.flags)));
    build_map(es, Ghost(spec_descriptor_item(*block)->Mapping_0))
}

/// The first error among the first `n` descriptor items, if any.
pub open spec fn spec_descriptors_error(vs: Seq<CborItem>, n: int) -> Option<QztError>
    decreases n,
{
    if n <= 0 {
        None
    } else {
        match spec_descriptors_error(vs, n - 1) {
            Some(e) => Some(e),
            None => spec_descriptor_error(vs[n - 1]),
        }
    }
}

/// The item describes a required chunk table.
pub open spec fn spec_is_required_chunk_table(v: CborItem) -> bool {
    spec_bool_of(spec_field(v->Mapping_0, "required"@)) == Some(true)
        && spec_text_of(spec_field(v->Mapping_0, "type"@)) == Some("chunk_table"@)
}

/// How many of the first `n` descriptor items describe a required chunk table.
pub open spec fn spec_required_chunk_tables(vs: Seq<CborItem>, n: int) -> int
    decreases n,
{
    if n <= 0 {
        0
    } else {
        spec_required_chunk_tables(vs, n - 1) + if spec_is_required_chunk_table(vs[n - 1]) {
            1int
        } else {
            0int
        }
    }
}

/// Index Root logical model.
#[derive(Debug, Clone, PartialEq, Eq)]
pub struct IndexRoot {
    pub container_id: [u8; 16],
    pub blocks: Vec<BlockDescriptor>,
    pub original_size: u64,
    pub original_checksum: Checksum,
    pub chunk_count: u64,
    pub line_count: u64,
}

/// Descriptor items of the `blocks` array of an index root map.
pub open spec fn spec_blocks_of(m: Seq<(CborItem, CborItem)>) -> Seq<CborItem> {
    spec_array_of(spec_field(m, "blocks"@))->Some_0
}

/// The `content` map of an index root map.
pub open spec fn spec_content_of(m: Seq<(CborItem, CborItem)>) -> Seq<(CborItem, CborItem)> {
    spec_map_of(spec_field(m, "content"@))->Some_0
}

/// Keys an index root may carry.
pub open spec fn spec_index_root_keys() -> Seq<Seq<char>> {
    seq!["schema"@, "format_version"@, "container_id"@, "blocks"@, "content"@]
}

/// What decoding an index root gives: the decoder's error, a refused
/// descriptor, a missing or repeated required chunk table, or a malformed
/// content map.
pub open spec fn spec_index_root_decode_error(bytes: Seq<u8>) -> Option<QztError> {
    match spec_decode_prologue(bytes, spec_index_root_keys(), SCHEMA_INDEX_ROOT@, QztError::ContainerCorrupt) {
        Err(e) => Some(e),
        Ok(item) => {
            let m = item->Mapping_0;
            match spec_array_of(spec_field(m, "blocks"@)) {
                None => Some(QztError::ContainerCorrupt),
                Some(vs) => match spec_descriptors_error(vs, vs.len() as int) {
                    Some(e) => Some(e),
                    None => if spec_required_chunk_tables(vs, vs.len() as int) == 0 {
                        Some(QztError::MissingRequiredBlock)
                    } else if spec_required_chunk_tables(vs, vs.len() as int) > 1 {
                        Some(QztError::ContainerCorrupt)
                    } else if !(spec_map_of(spec_field(m, "content"@)) matches Some(c)
                        && spec_keys_allowed(c, seq!["original_size"@, "original_checksum"@, "chunk_count"@, "line_count"@])
                        && spec_u64_of(spec_field(c, "original_size"@)) is Some
                        && spec_checksum_of(spec_field(c, "original_checksum"@)) is Some
                        && spec_u64_of(spec_field(c, "chunk_count"@)) is Some
                        && spec_u64_of(spec_field(c, "line_count"@)) is Some)
                        || spec_bstr_of(spec_field(m, "container_id"@), 16) is None {
                        Some(QztError::ContainerCorrupt)
                    } else {
                        None
                    },
                },
            }
        },
    }
}

/// `root` holds the fields of index root map `m`.
pub open spec fn spec_index_root_matches(m: Seq<(CborItem, CborItem)>, root: IndexRoot) -> bool {
    let c = spec_content_of(m);
    &&& spec_bstr_of(spec_field(m, "container_id"@), 16) == Some(root.container_id@)
    &&& root.blocks@.len() == spec_blocks_of(m).len()
    &&& forall|k: int| 0 <= k < root.blocks@.len() ==> spec_descriptor_matches(spec_blocks_of(m)[k], #[trigger] root.blocks@[k])
    &&& spec_u64_of(spec_field(c, "original_size"@)) == Some(root.original_size)
    &&& spec_checksum_of(spec_field(c, "original_checksum"@)) == Some(root.original_checksum.value@)
    &&& spec_is_blake3_checksum(root.original_checksum, root.original_checksum.value@)
    &&& spec_u64_of(spec_field(c, "chunk_count"@)) == Some(root.chunk_count)
    &&& spec_u64_of(spec_field(c, "line_count"@)) == Some(root.line_count)
}

/// The map an index root encodes.
pub open spec fn spec_index_root_item(root: IndexRoot) -> CborItem {
    CborItem::Mapping(seq![
        (CborItem::Text("schema"@), CborItem::Text(SCHEMA_INDEX_ROOT@)),
        (CborItem::Text("format_version"@), spec_version_item()),
        (CborItem::Text("container_id"@), CborItem::Bytes(root.container_id@)),
        (CborItem::Text("blocks"@), CborItem::Array(Seq::new(root.blocks@.len(), |i: int| spec_descriptor_item(root.blocks@[i])))),
        (CborItem::Text("content"@), CborItem::Mapping(seq![
            (CborItem::Text("original_size"@), CborItem::Int(root.original_size as int)),
            (CborItem::Text("original_checksum"@), spec_checksum_item(root.original_checksum)),
            (CborItem::Text("chunk_count"@), CborItem::Int(root.chunk_count as int)),
            (CborItem::Text("line_count"@), CborItem::Int(root.line_count as int)),
        ])),
    ])
}

proof fn lemma_descriptors_error_sticks(vs: Seq<CborItem>, m: int, n: int)
    requires
        0 <= m <= n,
        spec_descriptors_error(vs, m) is Some,
    ensures
        spec_descriptors_error(vs, n) == spec_descriptors_error(vs, m),
    decreases n - m,
{
    if m < n {
        lemma_descriptors_error_sticks(vs, m, n - 1);
    }
}

impl IndexRoot {
    /// Encodes the index root as deterministic CBOR.
    pub fn encode(&self) -> (r: Result<Vec<u8>>)
        ensures
            match (r, spec_encode_det(spec_index_root_item(*self))) {
                (Ok(b), Ok(sb)) => b@ == sb,
                (Err(e), Err(se)) => e == se,
                _ => false,
            },
    {
        let mut blocks: Vec<CborValue> = Vec::new();
        let mut i: usize = 0;
        while i < self.blocks.len()
            invariant
                i <= self.blocks@.len(),
                blocks@.len() == i,
                forall|k: int| 0 <= k < i ==> (#[trigger] blocks@[k])@ == spec_descriptor_item(self.blocks@[k]),
            decreases self.blocks@.len() - i,
        {
            blocks.push(block_descriptor_value(&self.blocks[i]));
            i = i + 1;
        }
        proof {
            crate::cbor::lemma_cbor_items_index(blocks@);
            assert(cbor_items(blocks@) =~= Seq::new(self.blocks@.len(), |i: int| spec_descriptor_item(self.blocks@[i])));
        }
        let mut content: Vec<(CborValue, CborValue)> = Vec::new();
        content.push(text_pair("original_size", u64_value(self.original_size)));
        content.push(text_pair("original_checksum", checksum_value(&self.original_checksum)));
        content.push(text_pair("chunk_count", u64_value(self.chunk_count)));
        content.push(text_pair("line_count", u64_value(self.line_count)));
        let content = build_map(content, Ghost(spec_index_root_item(*self)->Mapping_0[4].1->Mapping_0));
        let mut es: Vec<(CborValue, CborValue)> = Vec::new();
        es.push(text_pair("schema", CborValue::Text(SCHEMA_INDEX_ROOT.to_owned())));
        es.push(text_pair("format_version", version_value()));
        let id_bytes = slice_to_vec(&self.container_id, 0, 16);
        assert(id_bytes@ =~= self.container_id@);
        es.push(text_pair("container_id", CborValue::Bytes(id_bytes)));
        es.push(text_pair("blocks", CborValue::Array(blocks)));
        es.push(text_pair("content", content));
        let value = build_map(es, Ghost(spec_index_root_item(*self)->Mapping_0));
        encode_deterministic(&value)
    }

    /// Decodes and checks an index root: closed schema, valid descriptors,
    /// exactly one required chunk table, well-formed content.
    pub fn decode(bytes: &[u8]) -> (r: Result<Self>)
        ensures
            match r {
                Ok(root) => spec_index_root_decode_error(bytes@) is None && spec_index_root_matches(
                    spec_validate(bytes@, spec_default_limits())->Ok_0->Mapping_0,
                    root,
                ),
                Err(e) => spec_index_root_decode_error(bytes@) == Some(e),
            },
    {
        let err = QztError::ContainerCorrupt;
        let keys: [&str; 5] = ["schema", "format_version", "container_id", "blocks", "content"];
        assert(keys@.map_values(|s: &str| s@) =~= spec_index_root_keys());
        let value = decode_prologue(bytes, &keys, SCHEMA_INDEX_ROOT, err)?;
        let map = as_map(&value, err)?;
        let items = required_array(map, "blocks", err)?;
        proof {
            crate::cbor::lemma_cbor_items_index(items@);
        }
        let ghost vs = cbor_items(items@);
        let mut blocks: Vec<BlockDescriptor> = Vec::new();
        let mut required_tables: usize = 0;
        let mut i: usize = 0;
        while i < items.len()
            invariant
                i <= items@.len(),
                vs == cbor_items(items@),
                vs.len() == items@.len(),
                forall|k: int| 0 <= k < items@.len() ==> #[trigger] vs[k] == cbor_item(items@[k]),
                spec_decode_prologue(bytes@, spec_index_root_keys(), SCHEMA_INDEX_ROOT@, QztError::ContainerCorrupt)
                    == Ok::<CborItem, QztError>(value@),
                value@ == CborItem::Mapping(cbor_entries(map@)),
                spec_array_of(spec_field(cbor_entries(map@), "blocks"@)) == Some(vs),
                blocks@.len() == i,
                spec_descriptors_error(vs, i as int) is None,
                forall|k: int| 0 <= k < i ==> spec_descriptor_matches(vs[k], #[trigger] blocks@[k]),
                required_tables == spec_required_chunk_tables(vs, i as int),
                required_tables <= i,
            decreases items@.len() - i,
        {
            let d = match decode_block_descriptor(&items[i]) {
                Ok(d) => d,
                Err(e) => {
                    proof {
                        lemma_descriptors_error_sticks(vs, i + 1, vs.len() as int);
                    }
                    return Err(e);
                },
            };
            if d.required && text_is(&d.block_type, CHUNK_TABLE_TYPE) {
                required_tables = required_tables + 1;
            }
            blocks.push(d);
            i = i + 1;
        }
        if required_tables == 0 {
            return Err(QztError::MissingRequiredBlock);
        }
        if required_tables > 1 {
            return Err(err);
        }
        let content = required_map(map, "content", err)?;
        let k: [&str; 4] = ["original_size", "original_checksum", "chunk_count", "line_count"];
        assert(k@.map_values(|s: &str| s@) =~= seq!["original_size"@, "original_checksum"@, "chunk_count"@, "line_count"@]);
        reject_unknown_keys(content, &k, err)?;
        let container_id = required_bstr16(map, "container_id", err)?;
        let original_size = required_u64(content, "original_size", err)?;
        let original_checksum = required_checksum(content, "original_checksum", err)?;
        let chunk_count = required_u64(content, "chunk_count", err)?;
        let line_count = required_u64(content, "line_count", err)?;
        Ok(IndexRoot { container_id, blocks, original_size, original_checksum, chunk_count, line_count })
    }

    /// The required chunk table's descriptor.
    pub fn chunk_table_block(&self) -> (r: Result<&BlockDescriptor>)
        ensures
            match r {
                Ok(d) => exists|k: int| 0 <= k < self.blocks@.len() && self.blocks@[k] == *d
                    && d.required && d.block_type@ == "chunk_table"@
                    && forall|j: int| 0 <= j < k ==> !(#[trigger] self.blocks@[j].required && self.blocks@[j].block_type@ == "chunk_table"@),
                Err(e) => e == QztError::MissingRequiredBlock && forall|j: int| 0 <= j < self.blocks@.len()
                    ==> !(#[trigger] self.blocks@[j].required && self.blocks@[j].block_type@ == "chunk_table"@),
            },
    {
        let mut i: usize = 0;
        while i < self.blocks.len()
            invariant
                i <= self.blocks@.len(),
                forall|j: int| 0 <= j < i ==> !(#[trigger] self.blocks@[j].required && self.blocks@[j].block_type@ == "chunk_table"@),
            decreases self.blocks@.len() - i,
        {
            if self.blocks[i].required && text_is(&self.blocks[i].block_type, CHUNK_TABLE_TYPE) {
                return Ok(&self.blocks[i]);
            }
            i = i + 1;
        }
        Err(QztError::MissingRequiredBlock)
    }
}

/// Ensures Metadata and Index Root describe the same source.
pub fn validate_source_consistency(metadata: &Metadata, index_root: &IndexRoot) -> (r: Result<()>)
    ensures
        metadata.container_id@ != index_root.container_id@ ==> r == Err::<(), QztError>(QztError::ContainerIdMismatch),
        metadata.container_id@ == index_root.container_id@ ==> (r is Ok <==> (
            metadata.original_size == index_root.original_size
            && metadata.original_checksum.algorithm@ == index_root.original_checksum.algorithm@
            && metadata.original_checksum.value@ == index_root.original_checksum.value@
            && metadata.line_count == index_root.line_count)),
        metadata.container_id@ == index_root.container_id@ && r is Err ==> r == Err::<(), QztError>(QztError::MetadataInvalid),
{
    if !bytes_equal(&metadata.container_id, &index_root.container_id) {
        return Err(QztError::ContainerIdMismatch);
    }
    if metadata.original_size != index_root.original_size
        || !metadata.original_checksum.same_as(&index_root.original_checksum)
        || metadata.line_count != index_root.line_count {
        return Err(QztError::MetadataInvalid);
    }
    Ok(())
}


// ---------------------------------------------------------------------------
// Dictionary block
// ---------------------------------------------------------------------------

/// Embedded dictionary block.
#[derive(Debug, Clone, PartialEq, Eq)]
pub struct DictionaryBlock {
    pub container_id: [u8; 16],
    pub dictionaries: Vec<DictionaryEntry>,
}

/// One embedded zstd dictionary.
#[derive(Debug, Clone, PartialEq, Eq)]
pub struct DictionaryEntry {
    pub dictionary_id: u32,
    pub codec: String,
    pub bytes: Vec<u8>,
    pub checksum: Checksum,
}

/// The map a dictionary entry encodes.
pub open spec fn spec_dictionary_entry_item(e: DictionaryEntry) -> CborItem {
    CborItem::Mapping(seq![
        (CborItem::Text("dictionary_id"@), CborItem::Int(e.dictionary_id as int)),
        (CborItem::Text("codec"@), CborItem::Text(e.codec@)),
        (CborItem::Text("bytes"@), CborItem::Bytes(e.bytes@)),
        (CborItem::Text("checksum"@), spec_checksum_item(e.checksum)),
    ])
}

/// The map a dictionary block encodes.
pub open spec fn spec_dictionary_block_item(b: DictionaryBlock) -> CborItem {
    CborItem::Mapping(seq![
        (CborItem::Text("schema"@), CborItem::Text(SCHEMA_DICTIONARY@)),
        (CborItem::Text("format_version"@), spec_version_item()),
        (CborItem::Text("container_id"@), CborItem::Bytes(b.container_id@)),
        (CborItem::Text("dictionaries"@), CborItem::Array(Seq::new(b.dictionaries@.len(), |i: int| spec_dictionary_entry_item(b.dictionaries@[i])))),
    ])
}

/// Why a dictionary entry item is refused, if it is: `ResourceLimitExceeded`
/// for a dictionary above `max` bytes, `DictionaryChecksumMismatch` when the
/// bytes do not hash to the recorded digest, `ContainerCorrupt` otherwise.
pub open spec fn spec_dictionary_entry_error(v: CborItem, max: u64) -> Option<QztError> {
    match v {
        CborItem::Mapping(m) => {
            if !spec_keys_allowed(m, seq!["dictionary_id"@, "codec"@, "bytes"@, "checksum"@])
                || !(spec_u64_of(spec_field(m, "dictionary_id"@)) matches Some(id) && 0 < id <= u32::MAX)
                || spec_text_of(spec_field(m, "codec"@)) != Some("zstd"@)
                || spec_bytes_of(spec_field(m, "bytes"@)) is None {
                Some(QztError::ContainerCorrupt)
            } else if spec_bytes_of(spec_field(m, "bytes"@))->Some_0.len() > max {
                Some(QztError::ResourceLimitExceeded)
            } else if spec_checksum_of(spec_field(m, "checksum"@)) is None {
                Some(QztError::ContainerCorrupt)
            } else if spec_checksum_of(spec_field(m, "checksum"@))->Some_0 != blake3_digest(
                spec_bytes_of(spec_field(m, "bytes"@))->Some_0,
            ) {
                Some(QztError::DictionaryChecksumMismatch)
            } else {
                None
            }
        },
        _ => Some(QztError::ContainerCorrupt),
    }
}

/// `e` holds the fields of dictionary entry item `v`.
pub open spec fn spec_dictionary_entry_matches(v: CborItem, e: DictionaryEntry) -> bool {
    let m = v->Mapping_0;
    &&& spec_u64_of(spec_field(m, "dictionary_id"@)) == Some(e.dictionary_id as u64)
    &&& e.codec@ == "zstd"@
    &&& spec_bytes_of(spec_field(m, "bytes"@)) == Some(e.bytes@)
    &&& spec_checksum_of(spec_field(m, "checksum"@)) == Some(e.checksum.value@)
    &&& spec_is_blake3_checksum(e.checksum, blake3_digest(e.bytes@))
}

fn decode_dictionary_entry(value: &CborValue, max_dictionary_size: u64) -> (r: Result<DictionaryEntry>)
    ensures
        match r {
            Ok(e) => spec_dictionary_entry_error(value@, max_dictionary_size) is None
                && spec_dictionary_entry_matches(value@, e),
            Err(e) => spec_dictionary_entry_error(value@, max_dictionary_size) == Some(e),
        },
{
    let err = QztError::ContainerCorrupt;
    let map = as_map(value, err)?;
    let k: [&str; 4] = ["dictionary_id", "codec", "bytes", "checksum"];
    assert(k@.map_values(|s: &str| s@) =~= seq!["dictionary_id"@, "codec"@, "bytes"@, "checksum"@]);
    reject_unknown_keys(map, &k, err)?;
    let id = required_u64(map, "dictionary_id", err)?;
    if id > u32::MAX as u64 {
        return Err(err);
    }
    let dictionary_id = id as u32;
    if dictionary_id == 0 {
        return Err(err);
    }
    let codec = required_text(map, "codec", err)?;
    if !text_is(&codec, "zstd") {
        return Err(err);
    }
    let bytes = required_bytes(map, "bytes", err)?;
    if bytes.len() as u128 > max_dictionary_size as u128 {
        return Err(QztError::ResourceLimitExceeded);
    }
    let checksum = required_checksum(map, "checksum", err)?;
    let actual = Checksum::blake3(bytes.as_slice());
    if !actual.same_as(&checksum) {
        return Err(QztError::DictionaryChecksumMismatch);
    }
    Ok(DictionaryEntry { dictionary_id, codec, bytes, checksum })
}

fn dictionary_entry_value(entry: &DictionaryEntry) -> (r: CborValue)
    ensures
        r@ == spec_dictionary_entry_item(*entry),
{
    let mut es: Vec<(CborValue, CborValue)> = Vec::new();
    es.push(text_pair("dictionary_id", CborValue::Integer(entry.dictionary_id as i128)));
    es.push(text_pair("codec", CborValue::Text(entry.codec.clone())));
    es.push(text_pair("bytes", CborValue::Bytes(slice_to_vec(entry.bytes.as_slice(), 0, entry.bytes.len()))));
    assert(entry.bytes@.subrange(0, entry.bytes@.len() as int) =~= entry.bytes@);
    es.push(text_pair("checksum", checksum_value(&entry.checksum)));
    build_map(es, Ghost(spec_dictionary_entry_item(*entry)->Mapping_0))
}

/// The dictionary id of item `n` is the id of an earlier item.
pub open spec fn spec_dictionary_id_repeats(vs: Seq<CborItem>, n: int) -> bool {
    exists|k: int| 0 <= k < n && #[trigger] spec_u64_of(spec_field(vs[k]->Mapping_0, "dictionary_id"@))
        == spec_u64_of(spec_field(vs[n]->Mapping_0, "dictionary_id"@))
}

/// The first error among the first `n` dictionary entry items, counting a
/// repeated dictionary id as `ContainerCorrupt`.
pub open spec fn spec_dictionaries_error(vs: Seq<CborItem>, n: int, max: u64) -> Option<QztError>
    decreases n,
{
    if n <= 0 {
        None
    } else {
        match spec_dictionaries_error(vs, n - 1, max) {
            Some(e) => Some(e),
            None => match spec_dictionary_entry_error(vs[n - 1], max) {
                Some(e) => Some(e),
                None => if spec_dictionary_id_repeats(vs, n - 1) {
                    Some(QztError::ContainerCorrupt)
                } else {
                    None
                },
            },
        }
    }
}

/// Keys a dictionary block may carry.
pub open spec fn spec_dictionary_keys() -> Seq<Seq<char>> {
    seq!["schema"@, "format_version"@, "container_id"@, "dictionaries"@]
}

/// What decoding a dictionary block under a per-dictionary limit gives.
pub open spec fn spec_dictionary_block_error(bytes: Seq<u8>, max: u64) -> Option<QztError> {
    match spec_decode_prologue(bytes, spec_dictionary_keys(), SCHEMA_DICTIONARY@, QztError::ContainerCorrupt) {
        Err(e) => Some(e),
        Ok(item) => {
            let m = item->Mapping_0;
            match spec_array_of(spec_field(m, "dictionaries"@)) {
                None => Some(QztError::ContainerCorrupt),
                Some(vs) => match spec_dictionaries_error(vs, vs.len() as int, max) {
                    Some(e) => Some(e),
                    None => if spec_bstr_of(spec_field(m, "container_id"@), 16) is None {
                        Some(QztError::ContainerCorrupt)
                    } else {
                        None
                    },
                },
            }
        },
    }
}

proof fn lemma_dictionary_block_error(bytes: Seq<u8>, item: CborItem, vs: Seq<CborItem>, max: u64)
    requires
        spec_decode_prologue(bytes, spec_dictionary_keys(), SCHEMA_DICTIONARY@, QztError::ContainerCorrupt)
            == Ok::<CborItem, QztError>(item),
        item is Mapping,
        spec_array_of(spec_field(item->Mapping_0, "dictionaries"@)) == Some(vs),
        spec_dictionaries_error(vs, vs.len() as int, max) is Some,
    ensures
        spec_dictionary_block_error(bytes, max) == spec_dictionaries_error(vs, vs.len() as int, max),
{
}

proof fn lemma_dictionaries_error_sticks(vs: Seq<CborItem>, m: int, n: int, max: u64)
    requires
        0 <= m <= n,
        spec_dictionaries_error(vs, m, max) is Some,
    ensures
        spec_dictionaries_error(vs, n, max) == spec_dictionaries_error(vs, m, max),
    decreases n - m,
{
    if m < n {
        lemma_dictionaries_error_sticks(vs, m, n - 1, max);
    }
}

fn has_dictionary_id(decoded: &Vec<DictionaryEntry>, id: u32) -> (r: bool)
    ensures
        r == exists|k: int| 0 <= k < decoded@.len() && #[trigger] decoded@[k].dictionary_id == id,
{
    let mut j: usize = 0;
    while j < decoded.len()
        invariant
            j <= decoded@.len(),
            forall|k: int| 0 <= k < j ==> #[trigger] decoded@[k].dictionary_id != id,
        decreases decoded@.len() - j,
    {
        if decoded[j].dictionary_id == id {
            return true;
        }
        j = j + 1;
    }
    false
}

impl DictionaryBlock {
    /// Encodes the dictionary block as deterministic CBOR.
    pub fn encode(&self) -> (r: Result<Vec<u8>>)
        ensures
            match (r, spec_encode_det(spec_dictionary_block_item(*self))) {
                (Ok(b), Ok(sb)) => b@ == sb,
                (Err(e), Err(se)) => e == se,
                _ => false,
            },
    {
        let mut dicts: Vec<CborValue> = Vec::new();
        let mut i: usize = 0;
        while i < self.dictionaries.len()
            invariant
                i <= self.dictionaries@.len(),
                dicts@.len() == i,
                forall|k: int| 0 <= k < i ==> (#[trigger] dicts@[k])@ == spec_dictionary_entry_item(self.dictionaries@[k]),
            decreases self.dictionaries@.len() - i,
        {
            dicts.push(dictionary_entry_value(&self.dictionaries[i]));
            i = i + 1;
        }
        proof {
            crate::cbor::lemma_cbor_items_index(dicts@);
            assert(cbor_items(dicts@) =~= Seq::new(self.dictionaries@.len(), |i: int| spec_dictionary_entry_item(self.dictionaries@[i])));
        }
        let mut es: Vec<(CborValue, CborValue)> = Vec::new();
        es.push(text_pair("schema", CborValue::Text(SCHEMA_DICTIONARY.to_owned())));
        es.push(text_pair("format_version", version_value()));
        let id_bytes = slice_to_vec(&self.container_id, 0, 16);
        assert(id_bytes@ =~= self.container_id@);
        es.push(text_pair("container_id", CborValue::Bytes(id_bytes)));
        es.push(text_pair("dictionaries", CborValue::Array(dicts)));
        let value = build_map(es, Ghost(spec_dictionary_block_item(*self)->Mapping_0));
        encode_deterministic(&value)
    }

    /// Decodes a dictionary block, checking every dictionary's size against
    /// `max_dictionary_size`, its digest, and that no id repeats.
    pub fn decode_with_limits(bytes: &[u8], max_dictionary_size: u64) -> (r: Result<Self>)
        ensures
            match r {
                Ok(b) => spec_dictionary_block_error(bytes@, max_dictionary_size) is None && ({
                    let m = spec_validate(bytes@, spec_default_limits())->Ok_0->Mapping_0;
                    let vs = spec_array_of(spec_field(m, "dictionaries"@))->Some_0;
                    &&& spec_bstr_of(spec_field(m, "container_id"@), 16) == Some(b.container_id@)
                    &&& b.dictionaries@.len() == vs.len()
                    &&& forall|k: int| 0 <= k < vs.len() ==> spec_dictionary_entry_matches(vs[k], #[trigger] b.dictionaries@[k])
                }),
                Err(e) => spec_dictionary_block_error(bytes@, max_dictionary_size) == Some(e),
            },
    {
        let err = QztError::ContainerCorrupt;
        let keys: [&str; 4] = ["schema", "format_version", "container_id", "dictionaries"];
        assert(keys@.map_values(|s: &str| s@) =~= spec_dictionary_keys());
        let value = decode_prologue(bytes, &keys, SCHEMA_DICTIONARY, err)?;
        let map = as_map(&value, err)?;
        let items = required_array(map, "dictionaries", err)?;
        proof {
            crate::cbor::lemma_cbor_items_index(items@);
        }
        let ghost vs = cbor_items(items@);
        let mut decoded: Vec<DictionaryEntry> = Vec::new();
        let mut i: usize = 0;
        while i < items.len()
            invariant
                i <= items@.len(),
                vs == cbor_items(items@),
                vs.len() == items@.len(),
                forall|k: int| 0 <= k < items@.len() ==> #[trigger] vs[k] == cbor_item(items@[k]),
                spec_decode_prologue(bytes@, spec_dictionary_keys(), SCHEMA_DICTIONARY@, QztError::ContainerCorrupt)
                    == Ok::<CborItem, QztError>(value@),
                value@ == CborItem::Mapping(cbor_entries(map@)),
                spec_array_of(spec_field(cbor_entries(map@), "dictionaries"@)) == Some(vs),
                decoded@.len() == i,
                err == QztError::ContainerCorrupt,
                spec_dictionaries_error(vs, i as int, max_dictionary_size) is None,
                forall|k: int| 0 <= k < i ==> spec_dictionary_entry_matches(vs[k], #[trigger] decoded@[k]),
            decreases items@.len() - i,
        {
            let entry = match decode_dictionary_entry(&items[i], max_dictionary_size) {
                Ok(e) => e,
                Err(e) => {
                    proof {
                        lemma_dictionaries_error_sticks(vs, i + 1, vs.len() as int, max_dictionary_size);
                    }
                    return Err(e);
                },
            };
            if has_dictionary_id(&decoded, entry.dictionary_id) {
                proof {
                    let j = choose|j: int| 0 <= j < decoded@.len() && decoded@[j].dictionary_id == entry.dictionary_id;
                    assert(spec_dictionary_entry_matches(vs[j], decoded@[j]));
                    assert(spec_u64_of(spec_field(vs[j]->Mapping_0, "dictionary_id"@))
                        == spec_u64_of(spec_field(vs[i as int]->Mapping_0, "dictionary_id"@)));
                    assert(spec_dictionary_id_repeats(vs, i as int));
                    assert(spec_dictionaries_error(vs, i as int, max_dictionary_size) is None);
                    assert(spec_dictionary_entry_error(vs[i as int], max_dictionary_size) is None);
                    assert(spec_dictionaries_error(vs, i + 1, max_dictionary_size) == Some(QztError::ContainerCorrupt));
                    lemma_dictionaries_error_sticks(vs, i + 1, vs.len() as int, max_dictionary_size);
                    lemma_dictionary_block_error(bytes@, value@, vs, max_dictionary_size);
                }
                return Err(err);
            }
            proof {
                assert forall|k: int| 0 <= k < i implies #[trigger] spec_u64_of(spec_field(vs[k]->Mapping_0, "dictionary_id"@))
                    != spec_u64_of(spec_field(vs[i as int]->Mapping_0, "dictionary_id"@)) by {
                    assert(spec_dictionary_entry_matches(vs[k], decoded@[k]));
                }
                assert(!spec_dictionary_id_repeats(vs, i as int));
            }
            decoded.push(entry);
            i = i + 1;
        }
        let container_id = required_bstr16(map, "container_id", err)?;
        Ok(DictionaryBlock { container_id, dictionaries: decoded })
    }
}

// ---------------------------------------------------------------------------
// Document index
// ---------------------------------------------------------------------------

/// Optional Document Index block.
#[derive(Debug, Clone, PartialEq, Eq)]
pub struct DocumentIndex {
    pub container_id: [u8; 16],
    pub documents: Vec<DocumentEntry>,
}

/// One document range over original bytes.
#[derive(Debug, Clone, PartialEq, Eq)]
pub struct DocumentEntry {
    pub doc_id: String,
    pub doc_id_hash: [u8; 16],
    pub logical_offset: u64,
    pub byte_length: u64,
    pub first_line: u64,
    pub line_count: u64,
    pub chunk_start: u64,
    pub chunk_end: u64,
    pub checksum: Checksum,
}

impl DocumentEntry {
    /// Constructs an entry whose `doc_id_hash` is the first 16 bytes of the
    /// BLAKE3 digest of the id's UTF-8 bytes.
    pub fn new(
        doc_id: &str,
        logical_offset: u64,
        byte_length: u64,
        first_line: u64,
        line_count: u64,
        chunk_start: u64,
        chunk_end: u64,
        checksum: Checksum,
    ) -> (r: Self)
        ensures
            r.doc_id@ == doc_id@,
            r.doc_id_hash@ == blake3_digest(encode_utf8(doc_id@)).subrange(0, 16),
            r.logical_offset == logical_offset,
            r.byte_length == byte_length,
            r.first_line == first_line,
            r.line_count == line_count,
            r.chunk_start == chunk_start,
            r.chunk_end == chunk_end,
            r.checksum == checksum,
    {
        let digest = blake3_hash(doc_id.as_bytes());
        let mut doc_id_hash = [0u8; 16];
        let mut i: usize = 0;
        while i < 16
            invariant
                i <= 16,
                digest@ == blake3_digest(encode_utf8(doc_id@)),
                forall|k: int| 0 <= k < i ==> doc_id_hash@[k] == digest@[k],
            decreases 16 - i,
        {
            doc_id_hash[i] = digest[i];
            i = i + 1;
        }
        assert(doc_id_hash@ =~= digest@.subrange(0, 16));
        DocumentEntry {
            doc_id: doc_id.to_owned(),
            doc_id_hash,
            logical_offset,
            byte_length,
            first_line,
            line_count,
            chunk_start,
            chunk_end,
            checksum,
        }
    }
}

/// The map a document entry encodes.
pub open spec fn spec_document_entry_item(e: DocumentEntry) -> CborItem {
    CborItem::Mapping(seq![
        (CborItem::Text("doc_id"@), CborItem::Text(e.doc_id@)),
        (CborItem::Text("doc_id_hash"@), CborItem::Bytes(e.doc_id_hash@)),
        (CborItem::Text("logical_offset"@), CborItem::Int(e.logical_offset as int)),
        (CborItem::Text("byte_length"@), CborItem::Int(e.byte_length as int)),
        (CborItem::Text("first_line"@), CborItem::Int(e.first_line as int)),
        (CborItem::Text("line_count"@), CborItem::Int(e.line_count as int)),
        (CborItem::Text("chunk_start"@), CborItem::Int(e.chunk_start as int)),
        (CborItem::Text("chunk_end"@), CborItem::Int(e.chunk_end as int)),
        (CborItem::Text("checksum"@), spec_checksum_item(e.checksum)),
        (CborItem::Text("metadata"@), CborItem::Mapping(Seq::empty())),
    ])
}

/// The map a document index encodes.
pub open spec fn spec_document_index_item(d: DocumentIndex) -> CborItem {
    CborItem::Mapping(seq![
        (CborItem::Text("schema"@), CborItem::Text(SCHEMA_DOCUMENT_INDEX@)),
        (CborItem::Text("format_version"@), spec_version_item()),
        (CborItem::Text("container_id"@), CborItem::Bytes(d.container_id@)),
        (CborItem::Text("documents"@), CborItem::Array(Seq::new(d.documents@.len(), |i: int| spec_document_entry_item(d.documents@[i])))),
    ])
}

/// A document entry map: exactly the ten entry keys, all well-formed.
pub open spec fn spec_document_entry_ok(v: CborItem) -> bool {
    v matches CborItem::Mapping(m) && {
        &&& spec_keys_allowed(m, seq!["doc_id"@, "doc_id_hash"@, "logical_offset"@, "byte_length"@, "first_line"@,
            "line_count"@, "chunk_start"@, "chunk_end"@, "checksum"@, "metadata"@])
        &&& spec_map_of(spec_field(m, "metadata"@)) is Some
        &&& spec_text_of(spec_field(m, "doc_id"@)) is Some
        &&& spec_bstr_of(spec_field(m, "doc_id_hash"@), 16) is Some
        &&& spec_u64_of(spec_field(m, "logical_offset"@)) is Some
        &&& spec_u64_of(spec_field(m, "byte_length"@)) is Some
        &&& spec_u64_of(spec_field(m, "first_line"@)) is Some
        &&& spec_u64_of(spec_field(m, "line_count"@)) is Some
        &&& spec_u64_of(spec_field(m, "chunk_start"@)) is Some
        &&& spec_u64_of(spec_field(m, "chunk_end"@)) is Some
        &&& spec_checksum_of(spec_field(m, "checksum"@)) is Some
    }
}

/// `e` holds the fields of document entry item `v`.
pub open spec fn spec_document_entry_matches(v: CborItem, e: DocumentEntry) -> bool {
    let m = v->Mapping_0;
    &&& spec_text_of(spec_field(m, "doc_id"@)) == Some(e.doc_id@)
    &&& spec_bstr_of(spec_field(m, "doc_id_hash"@), 16) == Some(e.doc_id_hash@)
    &&& spec_u64_of(spec_field(m, "logical_offset"@)) == Some(e.logical_offset)
    &&& spec_u64_of(spec_field(m, "byte_length"@)) == Some(e.byte_length)
    &&& spec_u64_of(spec_field(m, "first_line"@)) == Some(e.first_line)
    &&& spec_u64_of(spec_field(m, "line_count"@)) == Some(e.line_count)
    &&& spec_u64_of(spec_field(m, "chunk_start"@)) == Some(e.chunk_start)
    &&& spec_u64_of(spec_field(m, "chunk_end"@)) == Some(e.chunk_end)
    &&& spec_checksum_of(spec_field(m, "checksum"@)) == Some(e.checksum.value@)
    &&& spec_is_blake3_checksum(e.checksum, e.checksum.value@)
}

fn decode_document_entry(value: &CborValue) -> (r: Result<DocumentEntry>)
    ensures
        match r {
            Ok(e) => spec_document_entry_ok(value@) && spec_document_entry_matches(value@, e),
            Err(e) => e == QztError::ContainerCorrupt && !spec_document_entry_ok(value@),
        },
{
    let err = QztError::ContainerCorrupt;
    let map = as_map(value, err)?;
    let k: [&str; 10] = ["doc_id", "doc_id_hash", "logical_offset", "byte_length", "first_line", "line_count",
        "chunk_start", "chunk_end", "checksum", "metadata"];
    assert(k@.map_values(|s: &str| s@) =~= seq!["doc_id"@, "doc_id_hash"@, "logical_offset"@, "byte_length"@, "first_line"@,
        "line_count"@, "chunk_start"@, "chunk_end"@, "checksum"@, "metadata"@]);
    reject_unknown_keys(map, &k, err)?;
    let _metadata = required_map(map, "metadata", err)?;
    let doc_id = required_text(map, "doc_id", err)?;
    let doc_id_hash = required_bstr16(map, "doc_id_hash", err)?;
    let logical_offset = required_u64(map, "logical_offset", err)?;
    let byte_length = required_u64(map, "byte_length", err)?;
    let first_line = required_u64(map, "first_line", err)?;
    let line_count = required_u64(map, "line_count", err)?;
    let chunk_start = required_u64(map, "chunk_start", err)?;
    let chunk_end = required_u64(map, "chunk_end", err)?;
    let checksum = required_checksum(map, "checksum", err)?;
    Ok(DocumentEntry { doc_id, doc_id_hash, logical_offset, byte_length, first_line, line_count, chunk_start, chunk_end, checksum })
}

fn document_entry_value(entry: &DocumentEntry) -> (r: CborValue)
    ensures
        r@ == spec_document_entry_item(*entry),
{
    let mut es: Vec<(CborValue, CborValue)> = Vec::new();
    es.push(text_pair("doc_id", CborValue::Text(entry.doc_id.clone())));
    let hash_bytes = slice_to_vec(&entry.doc_id_hash, 0, 16);
    assert(hash_bytes@ =~= entry.doc_id_hash@);
    es.push(text_pair("doc_id_hash", CborValue::Bytes(hash_bytes)));
    es.push(text_pair("logical_offset", u64_value(entry.logical_offset)));
    es.push(text_pair("byte_length", u64_value(entry.byte_length)));
    es.push(text_pair("first_line", u64_value(entry.first_line)));
    es.push(text_pair("line_count", u64_value(entry.line_count)));
    es.push(text_pair("chunk_start", u64_value(entry.chunk_start)));
    es.push(text_pair("chunk_end", u64_value(entry.chunk_end)));
    es.push(text_pair("checksum", checksum_value(&entry.checksum)));
    let empty: Vec<(CborValue, CborValue)> = Vec::new();
    let metadata = build_map(empty, Ghost(Seq::empty()));
    es.push(text_pair("metadata", metadata));
    build_map(es, Ghost(spec_document_entry_item(*entry)->Mapping_0))
}

/// No two documents share an id.
pub open spec fn spec_unique_doc_ids(docs: Seq<DocumentEntry>) -> bool {
    forall|i: int, j: int| 0 <= i < j < docs.len() ==> #[trigger] docs[i].doc_id@ != #[trigger] docs[j].doc_id@
}

/// Every document entry item is well-formed.
pub open spec fn spec_document_entries_ok(vs: Seq<CborItem>) -> bool {
    forall|k: int| 0 <= k < vs.len() ==> spec_document_entry_ok(#[trigger] vs[k])
}

/// Two document entry items carry the same id.
pub open spec fn spec_doc_ids_repeat(vs: Seq<CborItem>) -> bool {
    exists|i: int, j: int| 0 <= i < j < vs.len()
        && #[trigger] spec_text_of(spec_field(vs[i]->Mapping_0, "doc_id"@))
        == #[trigger] spec_text_of(spec_field(vs[j]->Mapping_0, "doc_id"@))
}

/// Keys a document index may carry.
pub open spec fn spec_document_index_keys() -> Seq<Seq<char>> {
    seq!["schema"@, "format_version"@, "container_id"@, "documents"@]
}

/// What decoding a document index gives: the decoder's error, or
/// `ContainerCorrupt` for a malformed entry, a bad container id or a repeated
/// document id.
pub open spec fn spec_document_index_decode_error(bytes: Seq<u8>) -> Option<QztError> {
    match spec_decode_prologue(bytes, spec_document_index_keys(), SCHEMA_DOCUMENT_INDEX@, QztError::ContainerCorrupt) {
        Err(e) => Some(e),
        Ok(item) => {
            let m = item->Mapping_0;
            match spec_array_of(spec_field(m, "documents"@)) {
                None => Some(QztError::ContainerCorrupt),
                Some(vs) => if !spec_document_entries_ok(vs)
                    || spec_bstr_of(spec_field(m, "container_id"@), 16) is None
                    || spec_doc_ids_repeat(vs) {
                    Some(QztError::ContainerCorrupt)
                } else {
                    None
                },
            }
        },
    }
}

proof fn lemma_document_index_error(bytes: Seq<u8>, item: CborItem, vs: Seq<CborItem>)
    requires
        spec_decode_prologue(bytes, spec_document_index_keys(), SCHEMA_DOCUMENT_INDEX@, QztError::ContainerCorrupt)
            == Ok::<CborItem, QztError>(item),
        item is Mapping,
        spec_array_of(spec_field(item->Mapping_0, "documents"@)) == Some(vs),
        !spec_document_entries_ok(vs) || spec_bstr_of(spec_field(item->Mapping_0, "container_id"@), 16) is None
            || spec_doc_ids_repeat(vs),
    ensures
        spec_document_index_decode_error(bytes) == Some(QztError::ContainerCorrupt),
{
}

impl DocumentIndex {
    /// Refuses a document index in which two documents share an id.
    pub fn validate_unique_doc_ids(&self) -> (r: Result<()>)
        ensures
            r is Ok <==> spec_unique_doc_ids(self.documents@),
            r matches Err(e) ==> e == QztError::DuplicateDocumentId,
    {
        let mut j: usize = 0;
        while j < self.documents.len()
            invariant
                j <= self.documents@.len(),
                forall|a: int, b: int| 0 <= a < b < j ==> #[trigger] self.documents@[a].doc_id@ != #[trigger] self.documents@[b].doc_id@,
            decreases self.documents@.len() - j,
        {
            let mut i: usize = 0;
            while i < j
                invariant
                    i <= j < self.documents@.len(),
                    forall|a: int| 0 <= a < i ==> #[trigger] self.documents@[a].doc_id@ != self.documents@[j as int].doc_id@,
                decreases j - i,
            {
                if text_is(&self.documents[i].doc_id, self.documents[j].doc_id.as_str()) {
                    return Err(QztError::DuplicateDocumentId);
                }
                i = i + 1;
            }
            j = j + 1;
        }
        Ok(())
    }

    /// Encodes the document index; refuses a repeated document id.
    pub fn encode(&self) -> (r: Result<Vec<u8>>)
        ensures
            !spec_unique_doc_ids(self.documents@) ==> r == Err::<Vec<u8>, QztError>(QztError::DuplicateDocumentId),
            spec_unique_doc_ids(self.documents@) ==> match (r, spec_encode_det(spec_document_index_item(*self))) {
                (Ok(b), Ok(sb)) => b@ == sb,
                (Err(e), Err(se)) => e == se,
                _ => false,
            },
    {
        self.validate_unique_doc_ids()?;
        let mut docs: Vec<CborValue> = Vec::new();
        let mut i: usize = 0;
        while i < self.documents.len()
            invariant
                i <= self.documents@.len(),
                docs@.len() == i,
                forall|k: int| 0 <= k < i ==> (#[trigger] docs@[k])@ == spec_document_entry_item(self.documents@[k]),
            decreases self.documents@.len() - i,
        {
            docs.push(document_entry_value(&self.documents[i]));
            i = i + 1;
        }
        proof {
            crate::cbor::lemma_cbor_items_index(docs@);
            assert(cbor_items(docs@) =~= Seq::new(self.documents@.len(), |i: int| spec_document_entry_item(self.documents@[i])));
        }
        let mut es: Vec<(CborValue, CborValue)> = Vec::new();
        es.push(text_pair("schema", CborValue::Text(SCHEMA_DOCUMENT_INDEX.to_owned())));
        es.push(text_pair("format_version", version_value()));
        let id_bytes = slice_to_vec(&self.container_id, 0, 16);
        assert(id_bytes@ =~= self.container_id@);
        es.push(text_pair("container_id", CborValue::Bytes(id_bytes)));
        es.push(text_pair("documents", CborValue::Array(docs)));
        let value = build_map(es, Ghost(spec_document_index_item(*self)->Mapping_0));
        encode_deterministic(&value)
    }

    /// Decodes a document index; every failure after CBOR decoding is `ContainerCorrupt`.
    pub fn decode(bytes: &[u8]) -> (r: Result<Self>)
        ensures
            match r {
                Ok(d) => spec_document_index_decode_error(bytes@) is None && ({
                    let m = spec_validate(bytes@, spec_default_limits())->Ok_0->Mapping_0;
                    let vs = spec_array_of(spec_field(m, "documents"@))->Some_0;
                    &&& spec_bstr_of(spec_field(m, "container_id"@), 16) == Some(d.container_id@)
                    &&& d.documents@.len() == vs.len()
                    &&& forall|k: int| 0 <= k < vs.len() ==> spec_document_entry_matches(vs[k], #[trigger] d.documents@[k])
                }),
                Err(e) => spec_document_index_decode_error(bytes@) == Some(e),
            },
    {
        let err = QztError::ContainerCorrupt;
        let keys: [&str; 4] = ["schema", "format_version", "container_id", "documents"];
        assert(keys@.map_values(|s: &str| s@) =~= spec_document_index_keys());
        let value = decode_prologue(bytes, &keys, SCHEMA_DOCUMENT_INDEX, err)?;
        let map = as_map(&value, err)?;
        let items = required_array(map, "documents", err)?;
        proof {
            crate::cbor::lemma_cbor_items_index(items@);
        }
        let ghost vs = cbor_items(items@);
        let mut documents: Vec<DocumentEntry> = Vec::new();
        let mut i: usize = 0;
        while i < items.len()
            invariant
                i <= items@.len(),
                vs == cbor_items(items@),
                vs.len() == items@.len(),
                forall|k: int| 0 <= k < items@.len() ==> #[trigger] vs[k] == cbor_item(items@[k]),
                spec_decode_prologue(bytes@, spec_document_index_keys(), SCHEMA_DOCUMENT_INDEX@, QztError::ContainerCorrupt)
                    == Ok::<CborItem, QztError>(value@),
                value@ == CborItem::Mapping(cbor_entries(map@)),
                spec_array_of(spec_field(cbor_entries(map@), "documents"@)) == Some(vs),
                documents@.len() == i,
                forall|k: int| 0 <= k < i ==> spec_document_entry_ok(#[trigger] vs[k]),
                forall|k: int| 0 <= k < i ==> spec_document_entry_matches(vs[k], #[trigger] documents@[k]),
            decreases items@.len() - i,
        {
            let d = match decode_document_entry(&items[i]) {
                Ok(d) => d,
                Err(e) => {
                    proof {
                        assert(!spec_document_entry_ok(vs[i as int]));
                        assert(!(forall|k: int| 0 <= k < vs.len() ==> spec_document_entry_ok(#[trigger] vs[k])));
                        lemma_document_index_error(bytes@, value@, vs);
                    }
                    return Err(e);
                },
            };
            documents.push(d);
            i = i + 1;
        }
        let container_id = required_bstr16(map, "container_id", err)?;
        let index = DocumentIndex { container_id, documents };
        if index.validate_unique_doc_ids().is_err() {
            proof {
                let (a, b) = choose|a: int, b: int| 0 <= a < b < index.documents@.len()
                    && index.documents@[a].doc_id@ == index.documents@[b].doc_id@;
                assert(spec_document_entry_matches(vs[a], index.documents@[a]));
                assert(spec_document_entry_matches(vs[b], index.documents@[b]));
                assert(spec_text_of(spec_field(vs[a]->Mapping_0, "doc_id"@)) == spec_text_of(spec_field(vs[b]->Mapping_0, "doc_id"@)));
                lemma_document_index_error(bytes@, value@, vs);
            }
            return Err(err);
        }
        proof {
            assert forall|a: int, b: int| 0 <= a < b < vs.len() implies #[trigger] spec_text_of(spec_field(vs[a]->Mapping_0, "doc_id"@))
                != #[trigger] spec_text_of(spec_field(vs[b]->Mapping_0, "doc_id"@)) by {
                assert(spec_document_entry_matches(vs[a], index.documents@[a]));
                assert(spec_document_entry_matches(vs[b], index.documents@[b]));
            }
        }
        Ok(index)
    }
}

} // verus!
