use qzt::cbor::{
    compare_bytes, encode_deterministic, validate_deterministic, validate_deterministic_with_limits,
    CborLimits, CborValue,
};
use qzt::error::QztError;

fn text(s: &str) -> CborValue {
    CborValue::Text(s.to_owned())
}

#[test]
fn encoder_sorts_map_keys_by_encoded_bytes() {
    let value = CborValue::Mapping(vec![
        (text("bb"), CborValue::Integer(1)),
        (text("a"), CborValue::Integer(2)),
    ]);
    let bytes = encode_deterministic(&value).unwrap();
    assert_eq!(bytes, vec![0xa2, 0x61, b'a', 0x02, 0x62, b'b', b'b', 0x01]);
}

#[test]
fn encoder_refuses_repeated_keys() {
    let value = CborValue::Mapping(vec![
        (text("a"), CborValue::Integer(1)),
        (text("a"), CborValue::Integer(2)),
    ]);
    assert_eq!(encode_deterministic(&value), Err(QztError::DuplicateCborKey));
}

#[test]
fn integers_use_the_shortest_head() {
    assert_eq!(encode_deterministic(&CborValue::Integer(23)).unwrap(), vec![0x17]);
    assert_eq!(encode_deterministic(&CborValue::Integer(24)).unwrap(), vec![0x18, 24]);
    assert_eq!(encode_deterministic(&CborValue::Integer(256)).unwrap(), vec![0x19, 1, 0]);
    assert_eq!(encode_deterministic(&CborValue::Integer(-1)).unwrap(), vec![0x20]);
    assert_eq!(
        encode_deterministic(&CborValue::Integer(i128::from(u64::MAX) + 1)),
        Err(QztError::ResourceLimitExceeded)
    );
    assert_eq!(
        encode_deterministic(&CborValue::Integer(-(i128::from(u64::MAX)) - 1)).unwrap(),
        vec![0x3b, 0xff, 0xff, 0xff, 0xff, 0xff, 0xff, 0xff, 0xff]
    );
}

#[test]
fn decoder_accepts_exactly_what_encoder_writes() {
    let value = CborValue::Mapping(vec![
        (text("list"), CborValue::Array(vec![CborValue::Bool(true), CborValue::Null])),
        (text("bytes"), CborValue::Bytes(vec![1, 2, 3])),
        (text("n"), CborValue::Integer(-500)),
    ]);
    let bytes = encode_deterministic(&value).unwrap();
    let decoded = validate_deterministic(&bytes).unwrap();
    assert_eq!(encode_deterministic(&decoded).unwrap(), bytes);
}

#[test]
fn decoder_rejects_non_canonical_forms() {
    assert_eq!(validate_deterministic(&[0x18, 0x05]), Err(QztError::NonCanonicalCbor));
    assert_eq!(validate_deterministic(&[0xa2, 0x61, b'b', 0x01, 0x61, b'a', 0x02]), Err(QztError::NonCanonicalCbor));
    assert_eq!(validate_deterministic(&[0xa2, 0x61, b'a', 0x01, 0x61, b'a', 0x02]), Err(QztError::DuplicateCborKey));
    assert_eq!(validate_deterministic(&[0x01, 0x02]), Err(QztError::NonCanonicalCbor));
    assert_eq!(validate_deterministic(&[0x62, b'a']), Err(QztError::UnexpectedEof));
    assert_eq!(validate_deterministic(&[0x61, 0xff]), Err(QztError::InvalidUtf8));
    assert_eq!(validate_deterministic(&[0xc1, 0x00]), Err(QztError::NonCanonicalCbor));
    assert_eq!(validate_deterministic(&[0xf7]), Err(QztError::NonCanonicalCbor));
}

#[test]
fn decoder_enforces_budgets_and_depth() {
    let limits = CborLimits { max_allocation: 2, max_items: 10 };
    assert_eq!(validate_deterministic_with_limits(&[0x43, 1, 2, 3], limits), Err(QztError::ResourceLimitExceeded));
    let limits = CborLimits { max_allocation: 100, max_items: 2 };
    assert_eq!(validate_deterministic_with_limits(&[0x82, 0x01, 0x02], limits), Err(QztError::ResourceLimitExceeded));
    let mut nested = vec![0x81u8; 65];
    nested.push(0x00);
    assert_eq!(validate_deterministic(&nested), Err(QztError::ResourceLimitExceeded));
    let mut ok = vec![0x81u8; 64];
    ok.push(0x00);
    assert!(validate_deterministic(&ok).is_ok());
}

#[test]
fn byte_comparison_is_lexicographic() {
    assert_eq!(compare_bytes(b"a", b"b"), -1);
    assert_eq!(compare_bytes(b"ab", b"a"), 1);
    assert_eq!(compare_bytes(b"", b""), 0);
}

#[test]
fn encoded_values_validate_back_to_themselves() {
    let array = || CborValue::Array(vec![CborValue::Integer(0), CborValue::Integer(-6), CborValue::Bool(true)]);
    let inner = || CborValue::Mapping(vec![(text("k"), CborValue::Null)]);
    let value = CborValue::Mapping(vec![
        (text("z"), array()),
        (text("a"), CborValue::Bytes(vec![1, 2, 3])),
        (CborValue::Integer(300), inner()),
        (text("long"), text("δ text with unicode")),
    ]);
    let bytes = encode_deterministic(&value).expect("encodes");
    let decoded = validate_deterministic(&bytes).expect("validates");
    let canonical = CborValue::Mapping(vec![
        (CborValue::Integer(300), inner()),
        (text("a"), CborValue::Bytes(vec![1, 2, 3])),
        (text("z"), array()),
        (text("long"), text("δ text with unicode")),
    ]);
    assert_eq!(decoded, canonical);
    assert_eq!(encode_deterministic(&decoded).expect("encodes"), bytes);
}
