//! Checked integer conversions and fixed-width little-endian fields.

use vstd::prelude::*;
use vstd::bytes::*;
use crate::error::{QztError, Result};

verus! {

/// Converts a `usize` to `u64`; fails with `ResourceLimitExceeded` when it does not fit.
pub fn usize_to_u64(value: usize) -> (r: Result<u64>)
    ensures
        value <= u64::MAX ==> r == Ok::<u64, QztError>(value as u64),
        value > u64::MAX ==> r == Err::<u64, QztError>(QztError::ResourceLimitExceeded),
{
    if value as u128 <= u64::MAX as u128 {
        Ok(value as u64)
    } else {
        Err(QztError::ResourceLimitExceeded)
    }
}

/// Converts a `u64` offset or length to `usize`; fails with `ResourceLimitExceeded` on overflow.
pub fn u64_to_usize(value: u64) -> (r: Result<usize>)
    ensures
        value <= usize::MAX ==> r == Ok::<usize, QztError>(value as usize),
        value > usize::MAX ==> r == Err::<usize, QztError>(QztError::ResourceLimitExceeded),
{
    if value as u128 <= usize::MAX as u128 {
        Ok(value as usize)
    } else {
        Err(QztError::ResourceLimitExceeded)
    }
}

/// Reads a little-endian u16 from an exact two-byte slice.
pub fn read_u16_le(bytes: &[u8]) -> (r: Result<u16>)
    ensures
        bytes@.len() == 2 ==> r == Ok::<u16, QztError>(spec_u16_from_le_bytes(bytes@)),
        bytes@.len() != 2 ==> r == Err::<u16, QztError>(QztError::UnexpectedEof),
{
    if bytes.len() != 2 {
        return Err(QztError::UnexpectedEof);
    }
    Ok(u16_from_le_bytes(bytes))
}

/// Reads a little-endian u32 from an exact four-byte slice.
pub fn read_u32_le(bytes: &[u8]) -> (r: Result<u32>)
    ensures
        bytes@.len() == 4 ==> r == Ok::<u32, QztError>(spec_u32_from_le_bytes(bytes@)),
        bytes@.len() != 4 ==> r == Err::<u32, QztError>(QztError::UnexpectedEof),
{
    if bytes.len() != 4 {
        return Err(QztError::UnexpectedEof);
    }
    Ok(u32_from_le_bytes(bytes))
}

/// Reads a little-endian u64 from an exact eight-byte slice.
pub fn read_u64_le(bytes: &[u8]) -> (r: Result<u64>)
    ensures
        bytes@.len() == 8 ==> r == Ok::<u64, QztError>(spec_u64_from_le_bytes(bytes@)),
        bytes@.len() != 8 ==> r == Err::<u64, QztError>(QztError::UnexpectedEof),
{
    if bytes.len() != 8 {
        return Err(QztError::UnexpectedEof);
    }
    Ok(u64_from_le_bytes(bytes))
}

/// Returns the exclusive end offset for a logical half-open range.
pub fn checked_logical_end(offset: u64, size: u64) -> (r: Result<u64>)
    ensures
        offset + size <= u64::MAX ==> r == Ok::<u64, QztError>((offset + size) as u64),
        offset + size > u64::MAX ==> r == Err::<u64, QztError>(QztError::LogicalRangeOutOfBounds),
{
    offset.checked_add(size).ok_or(QztError::LogicalRangeOutOfBounds)
}

/// Returns the exclusive end offset for a physical half-open range.
pub fn checked_physical_end(offset: u64, size: u64) -> (r: Result<u64>)
    ensures
        offset + size <= u64::MAX ==> r == Ok::<u64, QztError>((offset + size) as u64),
        offset + size > u64::MAX ==> r == Err::<u64, QztError>(QztError::PhysicalRangeOutOfBounds),
{
    offset.checked_add(size).ok_or(QztError::PhysicalRangeOutOfBounds)
}

/// Appends the eight little-endian bytes of `value`.
pub fn push_u64_le(out: &mut Vec<u8>, value: u64)
    ensures
        final(out)@ == old(out)@ + spec_u64_to_le_bytes(value),
{
    let mut bytes = u64_to_le_bytes(value);
    proof { lemma_auto_spec_u64_to_from_le_bytes(); }
    out.append(&mut bytes);
}

/// Appends the four little-endian bytes of `value`.
pub fn push_u32_le(out: &mut Vec<u8>, value: u32)
    ensures
        final(out)@ == old(out)@ + spec_u32_to_le_bytes(value),
{
    let mut bytes = u32_to_le_bytes(value);
    proof { lemma_auto_spec_u32_to_from_le_bytes(); }
    out.append(&mut bytes);
}

/// Appends the two little-endian bytes of `value`.
pub fn push_u16_le(out: &mut Vec<u8>, value: u16)
    ensures
        final(out)@ == old(out)@ + spec_u16_to_le_bytes(value),
{
    let mut bytes = u16_to_le_bytes(value);
    proof { lemma_auto_spec_u16_to_from_le_bytes(); }
    out.append(&mut bytes);
}

} // verus!
