//! Positioned reads, and hashing a byte range through them.

use vstd::prelude::*;
use crate::hashing::{hasher_input, hasher_new, hasher_update};

verus! {

/// Declaration of `std::io::Error`, the error of a positioned read.
#[verifier::external_type_specification]
#[verifier::external_body]
pub struct ExIoError(std::io::Error);

/// `std::io::Error::new` with `ErrorKind::UnexpectedEof`: the error of a short read.
#[verifier::external_body]
fn short_read_error() -> (r: std::io::Error) {
    std::io::Error::new(std::io::ErrorKind::UnexpectedEof, "short read")
}

/// `std::io::Error::new` with `ErrorKind::InvalidInput`: the error of a range
/// that cannot be addressed.
#[verifier::external_body]
fn invalid_range_error() -> (r: std::io::Error) {
    std::io::Error::new(std::io::ErrorKind::InvalidInput, "range overflow")
}

/// `std::io::Error::kind`, compared with `ErrorKind::UnexpectedEof`.
#[verifier::external_body]
pub(crate) fn is_unexpected_eof(e: &std::io::Error) -> (r: bool) {
    e.kind() == std::io::ErrorKind::UnexpectedEof
}

/// Positioned read abstraction used by file-backed QZT readers.
pub trait ReadAt {
    /// The bytes the source holds.
    spec fn spec_content(&self) -> Seq<u8>;

    /// Whether every read inside the content succeeds (memory, not a device).
    spec fn spec_reliable(&self) -> bool;

    /// Reads exactly `buf.len()` bytes starting at `offset`. On success the
    /// buffer holds the source's bytes at `offset..offset + buf.len()`.
    fn read_exact_at(&self, offset: u64, buf: &mut [u8]) -> (r: std::io::Result<()>)
        ensures
            final(buf)@.len() == old(buf)@.len(),
            r is Ok ==> offset + old(buf)@.len() <= self.spec_content().len() && final(buf)@
                == self.spec_content().subrange(offset as int, offset + old(buf)@.len()),
            self.spec_reliable() && offset + old(buf)@.len() <= self.spec_content().len() ==> r is Ok,
    ;
}

/// Copies `src[start..start + dst.len()]` over `dst`.
fn copy_from(dst: &mut [u8], src: &[u8], start: usize)
    requires
        start + old(dst)@.len() <= src@.len(),
    ensures
        final(dst)@ == src@.subrange(start as int, start + old(dst)@.len()),
{
    let n = dst.len();
    let total = src.len();
    let mut i: usize = 0;
    while i < n
        invariant
            n == dst@.len(),
            total == src@.len(),
            start + n <= src@.len(),
            i <= n,
            forall|k: int| 0 <= k < i ==> dst@[k] == src@[start + k],
        decreases n - i,
    {
        dst[i] = src[start + i];
        i = i + 1;
    }
    assert(dst@ =~= src@.subrange(start as int, start + n));
}

fn slice_read_exact_at(source: &[u8], offset: u64, buf: &mut [u8]) -> (r: std::io::Result<()>)
    ensures
        final(buf)@.len() == old(buf)@.len(),
        r is Ok <==> offset + old(buf)@.len() <= source@.len(),
        r is Ok ==> final(buf)@ == source@.subrange(offset as int, offset + old(buf)@.len()),
{
    let total = source.len();
    if offset as u128 > usize::MAX as u128 {
        return Err(invalid_range_error());
    }
    let start = offset as usize;
    if start as u128 + buf.len() as u128 > usize::MAX as u128 {
        return Err(invalid_range_error());
    }
    if start + buf.len() > total {
        return Err(short_read_error());
    }
    copy_from(buf, source, start);
    Ok(())
}

impl<'a> ReadAt for &'a [u8] {
    open spec fn spec_content(&self) -> Seq<u8> {
        (*self)@
    }

    open spec fn spec_reliable(&self) -> bool {
        true
    }

    fn read_exact_at(&self, offset: u64, buf: &mut [u8]) -> (r: std::io::Result<()>)
        ensures
            r is Ok <==> offset + old(buf)@.len() <= self.spec_content().len(),
    {
        slice_read_exact_at(*self, offset, buf)
    }
}

impl ReadAt for Vec<u8> {
    open spec fn spec_content(&self) -> Seq<u8> {
        self@
    }

    open spec fn spec_reliable(&self) -> bool {
        true
    }

    fn read_exact_at(&self, offset: u64, buf: &mut [u8]) -> (r: std::io::Result<()>)
        ensures
            r is Ok <==> offset + old(buf)@.len() <= self.spec_content().len(),
    {
        slice_read_exact_at(self.as_slice(), offset, buf)
    }
}

/// Feeds the bytes `offset..offset + size` of `source` into a fresh BLAKE3
/// hasher, reading at most 64 KiB at a time.
pub fn hash_read_at_range<R: ReadAt + ?Sized>(
    source: &R,
    offset: u64,
    size: u64,
) -> (r: std::io::Result<blake3::Hasher>)
    ensures
        r matches Ok(h) ==> if size == 0 {
            hasher_input(h) == Seq::<u8>::empty()
        } else {
            offset + size <= source.spec_content().len() && hasher_input(h)
                == source.spec_content().subrange(offset as int, offset + size)
        },
        size == 0 ==> r is Ok,
        source.spec_reliable() && offset + size <= source.spec_content().len() && offset + size <= u64::MAX ==> r is Ok,
{
    let buffer_size: usize = 65536;
    let mut hasher = hasher_new();
    let mut buffer: Vec<u8> = vec![0u8; buffer_size];
    let mut remaining = size;
    let mut position = offset;
    while remaining > 0
        invariant
            buffer@.len() == buffer_size,
            buffer_size == 65536,
            position + remaining == offset + size,
            position >= offset,
            position > offset ==> position <= source.spec_content().len(),
            position == offset ==> hasher_input(hasher) == Seq::<u8>::empty(),
            position > offset ==> hasher_input(hasher) == source.spec_content().subrange(offset as int, position as int),
            offset + size <= u64::MAX ==> position + remaining <= u64::MAX,
        decreases remaining,
    {
        let read_len: usize = if remaining < buffer_size as u64 {
            remaining as usize
        } else {
            buffer_size
        };
        let (piece, _) = buffer.as_mut_slice().split_at_mut(read_len);
        let res = source.read_exact_at(position, piece);
        match res {
            Ok(()) => {},
            Err(e) => {
                return Err(e);
            },
        }
        hasher_update(&mut hasher, piece);
        let ghost before = position;
        if position as u128 + read_len as u128 > u64::MAX as u128 {
            return Err(invalid_range_error());
        }
        position = position + read_len as u64;
        remaining = remaining - read_len as u64;
        proof {
        if before > offset {
            assert(source.spec_content().subrange(offset as int, before as int) + source.spec_content().subrange(
                before as int,
                position as int,
            ) =~= source.spec_content().subrange(offset as int, position as int));
        } else {
            assert(Seq::<u8>::empty() + source.spec_content().subrange(before as int, position as int)
                =~= source.spec_content().subrange(offset as int, position as int));
        }
        }
    }
    Ok(hasher)
}

} // verus!
