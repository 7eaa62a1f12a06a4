use qzt::primitives::{read_u16_le, read_u32_le, read_u64_le, u64_to_usize, usize_to_u64};

#[test]
fn usize_to_u64_zero_roundtrips() {
    assert_eq!(usize_to_u64(0).unwrap(), 0_u64);
}

#[test]
fn u64_to_usize_zero_roundtrips() {
    assert_eq!(u64_to_usize(0).unwrap(), 0_usize);
}

#[test]
fn roundtrip_u32_max_boundary() {
    let value = u64::from(u32::MAX);
    let as_usize = u64_to_usize(value).unwrap();
    assert_eq!(usize_to_u64(as_usize).unwrap(), value);
}

#[test]
fn usize_max_fits_in_u64_on_64_bit() {
    assert!(usize_to_u64(usize::MAX).is_ok());
}

#[test]
fn little_endian_reads_take_exact_widths() {
    assert_eq!(read_u16_le(&[0x34, 0x12]), Ok(0x1234));
    assert_eq!(read_u32_le(&[0x78, 0x56, 0x34, 0x12]), Ok(0x1234_5678));
    assert_eq!(
        read_u64_le(&[1, 0, 0, 0, 0, 0, 0, 0x80]),
        Ok(0x8000_0000_0000_0001)
    );
    assert_eq!(read_u32_le(&[1, 2, 3]), Err(qzt::error::QztError::UnexpectedEof));
}
