//! Dense Line Index: every line start inside every chunk, delta-varint coded.

use vstd::prelude::*;
use crate::chunk_table::{ChunkEntry, STARTS_WITH_LINE_CONTINUATION};
use crate::error::{QztError, Result};
use crate::varint::{read_varuint, spec_read_varuint, spec_varuint, write_varuint};

verus! {

/// Bytes one decoded line offset occupies in memory.
pub const DENSE_OFFSET_ALLOCATION: u64 = 8;

/// Dense Line Index for fast in-chunk line start lookup.
#[derive(Debug, Clone, PartialEq, Eq)]
pub struct DenseLineIndex {
    pub entries: Vec<DenseLineEntry>,
}

/// Dense offsets for one chunk.
#[derive(Debug, Clone, PartialEq, Eq)]
pub struct DenseLineEntry {
    pub chunk_id: u64,
    pub line_start_offsets: Vec<u64>,
}

impl View for DenseLineEntry {
    type V = (u64, Seq<u64>);

    open spec fn view(&self) -> (u64, Seq<u64>) {
        (self.chunk_id, self.line_start_offsets@)
    }
}

/// Chunk ids and offsets of a list of entries.
pub open spec fn dense_entries_view(es: Seq<DenseLineEntry>) -> Seq<(u64, Seq<u64>)> {
    Seq::new(es.len(), |i: int| es[i]@)
}

impl View for DenseLineIndex {
    type V = Seq<(u64, Seq<u64>)>;

    open spec fn view(&self) -> Seq<(u64, Seq<u64>)> {
        dense_entries_view(self.entries@)
    }
}

// ---------------------------------------------------------------------------
// Line starts inside one chunk
// ---------------------------------------------------------------------------

/// Offsets `i + 1` for every LF at `i < n` that is not the last byte of `d`.
pub open spec fn spec_lf_starts(d: Seq<u8>, n: int) -> Seq<u64>
    decreases n,
{
    if n <= 0 {
        Seq::empty()
    } else if d[n - 1] == 10 && n < d.len() {
        spec_lf_starts(d, n - 1).push(n as u64)
    } else {
        spec_lf_starts(d, n - 1)
    }
}

/// Offsets inside a decoded chunk at which lines start: zero unless the chunk
/// continues the previous chunk's line, then right after every LF that is not
/// the chunk's last byte.
pub open spec fn spec_local_line_starts(d: Seq<u8>, flags: u32) -> Seq<u64> {
    if flags & STARTS_WITH_LINE_CONTINUATION == 0 && d.len() > 0 {
        seq![0u64] + spec_lf_starts(d, d.len() as int)
    } else {
        spec_lf_starts(d, d.len() as int)
    }
}

/// Offsets inside `decoded` at which lines start.
pub fn line_start_offsets(decoded: &[u8], flags: u32) -> (r: Result<Vec<u64>>)
    ensures
        r matches Ok(v) && v@ == spec_local_line_starts(decoded@, flags),
{
    let mut starts: Vec<u64> = Vec::new();
    let lead = flags & STARTS_WITH_LINE_CONTINUATION == 0 && decoded.len() > 0;
    if lead {
        starts.push(0);
    }
    let ghost head: Seq<u64> = starts@;
    let mut index: usize = 0;
    while index < decoded.len()
        invariant
            index <= decoded@.len(),
            starts@ == head + spec_lf_starts(decoded@, index as int),
        decreases decoded@.len() - index,
    {
        if decoded[index] == 10 && index + 1 < decoded.len() {
            starts.push((index + 1) as u64);
        }
        index = index + 1;
        assert(starts@ =~= head + spec_lf_starts(decoded@, index as int));
    }
    proof {
        if lead {
            assert(starts@ =~= spec_local_line_starts(decoded@, flags));
        } else {
            assert(starts@ =~= spec_local_line_starts(decoded@, flags));
        }
    }
    Ok(starts)
}

// ---------------------------------------------------------------------------
// Building from original bytes
// ---------------------------------------------------------------------------

/// Why a chunk entry's range cannot be taken from `input`, if it cannot.
pub open spec fn spec_dense_range_error(input: Seq<u8>, e: ChunkEntry) -> Option<QztError> {
    if e.logical_offset > usize::MAX || e.uncompressed_size > usize::MAX || e.logical_offset
        + e.uncompressed_size > usize::MAX || e.logical_offset + e.uncompressed_size > input.len() {
        Some(QztError::ContainerCorrupt)
    } else {
        None
    }
}

/// The decoded bytes of a chunk entry inside `input`.
pub open spec fn spec_chunk_slice(input: Seq<u8>, e: ChunkEntry) -> Seq<u8> {
    input.subrange(e.logical_offset as int, e.logical_offset + e.uncompressed_size)
}

/// The first error building a dense index from the first `n` entries, if any.
pub open spec fn spec_dense_build_error(input: Seq<u8>, es: Seq<ChunkEntry>, n: int) -> Option<QztError>
    decreases n,
{
    if n <= 0 {
        None
    } else {
        match spec_dense_build_error(input, es, n - 1) {
            Some(e) => Some(e),
            None => match spec_dense_range_error(input, es[n - 1]) {
                Some(e) => Some(e),
                None => if spec_local_line_starts(spec_chunk_slice(input, es[n - 1]), es[n - 1].flags).len()
                    != es[n - 1].line_count {
                    Some(QztError::ChunkTableInvalid)
                } else {
                    None
                },
            },
        }
    }
}

proof fn lemma_build_error_sticks(input: Seq<u8>, es: Seq<ChunkEntry>, m: int, n: int)
    requires
        0 <= m <= n,
        spec_dense_build_error(input, es, m) is Some,
    ensures
        spec_dense_build_error(input, es, n) == spec_dense_build_error(input, es, m),
    decreases n - m,
{
    if m < n {
        lemma_build_error_sticks(input, es, m, n - 1);
    }
}

impl DenseLineIndex {
    /// Builds the index for the chunks of `input` that `chunk_entries` describe.
    pub fn from_original_bytes(input: &[u8], chunk_entries: &[ChunkEntry]) -> (r: Result<Self>)
        ensures
            match r {
                Ok(index) => spec_dense_build_error(input@, chunk_entries@, chunk_entries@.len() as int) is None
                    && index@.len() == chunk_entries@.len()
                    && forall|k: int| 0 <= k < chunk_entries@.len() ==> #[trigger] index@[k] == (
                        chunk_entries@[k].chunk_id,
                        spec_local_line_starts(spec_chunk_slice(input@, chunk_entries@[k]), chunk_entries@[k].flags),
                    ),
                Err(e) => spec_dense_build_error(input@, chunk_entries@, chunk_entries@.len() as int) == Some(e),
            },
    {
        let mut entries: Vec<DenseLineEntry> = Vec::new();
        let mut k: usize = 0;
        while k < chunk_entries.len()
            invariant
                k <= chunk_entries@.len(),
                entries@.len() == k,
                spec_dense_build_error(input@, chunk_entries@, k as int) is None,
                forall|j: int| 0 <= j < k ==> (#[trigger] entries@[j])@ == (
                    chunk_entries@[j].chunk_id,
                    spec_local_line_starts(spec_chunk_slice(input@, chunk_entries@[j]), chunk_entries@[j].flags),
                ),
            decreases chunk_entries@.len() - k,
        {
            let entry = &chunk_entries[k];
            if entry.logical_offset as u128 > usize::MAX as u128 || entry.uncompressed_size as u128
                > usize::MAX as u128 || entry.logical_offset as u128 + entry.uncompressed_size as u128
                > usize::MAX as u128 {
                proof {
                    lemma_build_error_sticks(input@, chunk_entries@, k + 1, chunk_entries@.len() as int);
                }
                return Err(QztError::ContainerCorrupt);
            }
            let start = entry.logical_offset as usize;
            let end = start + entry.uncompressed_size as usize;
            if end > input.len() {
                proof {
                    lemma_build_error_sticks(input@, chunk_entries@, k + 1, chunk_entries@.len() as int);
                }
                return Err(QztError::ContainerCorrupt);
            }
            let offsets = line_start_offsets(&input[start..end], entry.flags)?;
            if offsets.len() as u128 != entry.line_count as u128 {
                proof {
                    lemma_build_error_sticks(input@, chunk_entries@, k + 1, chunk_entries@.len() as int);
                }
                return Err(QztError::ChunkTableInvalid);
            }
            entries.push(DenseLineEntry { chunk_id: entry.chunk_id, line_start_offsets: offsets });
            k = k + 1;
        }
        Ok(DenseLineIndex { entries })
    }
}

// ---------------------------------------------------------------------------
// Encoding
// ---------------------------------------------------------------------------

/// Delta varints of an offset list: the first offset itself, then each
/// difference from the previous offset.
pub open spec fn spec_offsets_encoding(offs: Seq<u64>) -> Seq<u8>
    decreases offs.len(),
{
    if offs.len() == 0 {
        Seq::empty()
    } else if offs.len() == 1 {
        spec_varuint(offs[0] as nat)
    } else {
        spec_offsets_encoding(offs.drop_last()) + spec_varuint(
            (offs.last() - offs[offs.len() - 2]) as nat,
        )
    }
}

/// Some offset is smaller than the one before it.
pub open spec fn spec_offsets_decrease(offs: Seq<u64>) -> bool {
    exists|k: int| 1 <= k < offs.len() && #[trigger] offs[k] < offs[k - 1]
}

/// Encoding of the entries of an index, each as chunk id, offset count and offsets.
pub open spec fn spec_dense_entries_encoding(es: Seq<(u64, Seq<u64>)>) -> Seq<u8>
    decreases es.len(),
{
    if es.len() == 0 {
        Seq::empty()
    } else {
        spec_dense_entries_encoding(es.drop_last()) + spec_varuint(es.last().0 as nat)
            + spec_varuint(es.last().1.len()) + spec_offsets_encoding(es.last().1)
    }
}

/// The encoding of an index: entry count, then its entries.
pub open spec fn spec_dense_encoding(es: Seq<(u64, Seq<u64>)>) -> Seq<u8> {
    spec_varuint(es.len()) + spec_dense_entries_encoding(es)
}

fn encode_offsets(offs: &Vec<u64>, out: &mut Vec<u8>) -> (r: Result<()>)
    ensures
        r is Ok <==> !spec_offsets_decrease(offs@),
        r is Err ==> r == Err::<(), QztError>(QztError::ChunkTableInvalid),
        r is Ok ==> final(out)@ == old(out)@ + spec_offsets_encoding(offs@),
{
    let mut previous: u64 = 0;
    let mut index: usize = 0;
    assert(offs@.subrange(0, 0) =~= Seq::<u64>::empty());
    while index < offs.len()
        invariant
            index <= offs@.len(),
            index > 0 ==> previous == offs@[index - 1],
            out@ == old(out)@ + spec_offsets_encoding(offs@.subrange(0, index as int)),
            !spec_offsets_decrease(offs@.subrange(0, index as int)),
        decreases offs@.len() - index,
    {
        let offset = offs[index];
        let delta = if index == 0 {
            offset
        } else {
            if offset < previous {
                assert(spec_offsets_decrease(offs@));
                return Err(QztError::ChunkTableInvalid);
            }
            offset - previous
        };
        write_varuint(delta, out);
        let ghost pre = offs@.subrange(0, index as int);
        previous = offset;
        index = index + 1;
        proof {
            let cur = offs@.subrange(0, index as int);
            assert(cur.drop_last() =~= pre);
            if index >= 2 {
                assert(cur[cur.len() - 2] == offs@[index - 2]);
            }
            assert(out@ =~= old(out)@ + spec_offsets_encoding(cur));
            assert forall|k: int| 1 <= k < cur.len() implies !(#[trigger] cur[k] < cur[k - 1]) by {
                if k < cur.len() - 1 {
                    assert(pre[k] == cur[k] && pre[k - 1] == cur[k - 1]);
                }
            }
        }
    }
    assert(offs@.subrange(0, index as int) =~= offs@);
    Ok(())
}

impl DenseLineIndex {
    /// Encodes the index; fails with `ChunkTableInvalid` when an offset list decreases.
    #[verifier::rlimit(60)]
    #[verifier::spinoff_prover]
    pub fn encode(&self) -> (r: Result<Vec<u8>>)
        ensures
            match r {
                Ok(bytes) => bytes@ == spec_dense_encoding(self@) && forall|k: int|
                    0 <= k < self@.len() ==> !spec_offsets_decrease(#[trigger] self@[k].1),
                Err(e) => e == QztError::ChunkTableInvalid && exists|k: int|
                    0 <= k < self@.len() && spec_offsets_decrease(#[trigger] self@[k].1),
            },
    {
        let mut bytes: Vec<u8> = Vec::new();
        write_varuint(self.entries.len() as u64, &mut bytes);
        let ghost head = bytes@;
        let mut k: usize = 0;
        assert(self@.subrange(0, 0) =~= Seq::empty());
        while k < self.entries.len()
            invariant
                k <= self@.len(),
                self@.len() == self.entries@.len(),
                head == spec_varuint(self@.len()),
                bytes@ == head + spec_dense_entries_encoding(self@.subrange(0, k as int)),
                forall|j: int| 0 <= j < k ==> !spec_offsets_decrease(#[trigger] self@[j].1),
            decreases self@.len() - k,
        {
            let entry = &self.entries[k];
            assert(self@[k as int] == entry@);
            write_varuint(entry.chunk_id, &mut bytes);
            write_varuint(entry.line_start_offsets.len() as u64, &mut bytes);
            match encode_offsets(&entry.line_start_offsets, &mut bytes) {
                Ok(()) => {},
                Err(e) => {
                    assert(spec_offsets_decrease(self@[k as int].1));
                    return Err(e);
                },
            }
            proof {
                let cur = self@.subrange(0, k + 1);
                assert(cur.drop_last() =~= self@.subrange(0, k as int));
                assert(bytes@ =~= head + spec_dense_entries_encoding(cur));
            }
            k = k + 1;
        }
        assert(self@.subrange(0, k as int) =~= self@);
        Ok(bytes)
    }
}

// ---------------------------------------------------------------------------
// Decoding
// ---------------------------------------------------------------------------

/// `Vec::try_reserve_exact`: leaves the contents unchanged; fails, with
/// `ResourceLimitExceeded`, when the capacity overflows or the allocator refuses.
#[verifier::external_body]
pub fn reserve_exact<T>(values: &mut Vec<T>, count: usize) -> (r: Result<()>)
    ensures
        final(values)@ == old(values)@,
        r matches Err(e) ==> e == QztError::ResourceLimitExceeded,
{
    values.try_reserve_exact(count).map_err(|_| QztError::ResourceLimitExceeded)
}

/// Decodes `count - k` further offsets of a chunk of `size` bytes at `pos`.
pub open spec fn spec_decode_offsets(
    s: Seq<u8>,
    pos: int,
    k: nat,
    count: nat,
    prev: u64,
    size: u64,
    acc: Seq<u64>,
) -> Result<(Seq<u64>, int)>
    decreases count - k,
{
    if k >= count {
        Ok((acc, pos))
    } else {
        match spec_read_varuint(s, pos, QztError::ChunkTableInvalid) {
            Err(e) => Err(e),
            Ok((delta, p)) => {
                if k > 0 && prev + delta > u64::MAX {
                    Err(QztError::ChunkTableInvalid)
                } else {
                    let offset: u64 = if k == 0 {
                        delta
                    } else {
                        (prev + delta) as u64
                    };
                    if k > 0 && offset <= prev {
                        Err(QztError::ChunkTableInvalid)
                    } else if offset >= size {
                        Err(QztError::ChunkTableInvalid)
                    } else {
                        spec_decode_offsets(s, p, k + 1, count, offset, size, acc.push(offset))
                    }
                }
            },
        }
    }
}

/// Decodes the entries for `es[j..]` at `pos`; `requested` counts decoded
/// storage so far against `max`. `Err(None)` stands for a refused reservation.
pub open spec fn spec_decode_dense_entries(
    s: Seq<u8>,
    pos: int,
    es: Seq<ChunkEntry>,
    j: nat,
    requested: nat,
    max: u64,
    acc: Seq<(u64, Seq<u64>)>,
) -> Result<(Seq<(u64, Seq<u64>)>, int)>
    decreases es.len() - j,
{
    if j >= es.len() {
        Ok((acc, pos))
    } else {
        let expected = es[j as int];
        match spec_read_varuint(s, pos, QztError::ChunkTableInvalid) {
            Err(e) => Err(e),
            Ok((chunk_id, p1)) => if chunk_id != expected.chunk_id {
                Err(QztError::ChunkTableInvalid)
            } else {
                match spec_read_varuint(s, p1, QztError::ChunkTableInvalid) {
                    Err(e) => Err(e),
                    Ok((count, p2)) => if count != expected.line_count || count
                        > expected.uncompressed_size {
                        Err(QztError::ChunkTableInvalid)
                    } else if count > s.len() - p2 {
                        Err(QztError::UnexpectedEof)
                    } else if requested + count * 8 > max {
                        Err(QztError::ResourceLimitExceeded)
                    } else {
                        match spec_decode_offsets(s, p2, 0, count as nat, 0, expected.uncompressed_size, Seq::empty()) {
                            Err(e) => Err(e),
                            Ok((offs, p3)) => spec_decode_dense_entries(
                                s,
                                p3,
                                es,
                                j + 1,
                                (requested + count * 8) as nat,
                                max,
                                acc.push((chunk_id, offs)),
                            ),
                        }
                    }
                }
            },
        }
    }
}

/// What decoding a Dense Line Index for `es` under allocation limit `max` gives.
pub open spec fn spec_decode_dense(s: Seq<u8>, es: Seq<ChunkEntry>, max: u64) -> Result<Seq<(u64, Seq<u64>)>> {
    match spec_read_varuint(s, 0, QztError::ChunkTableInvalid) {
        Err(e) => Err(e),
        Ok((n, p)) => if n != es.len() {
            Err(QztError::ChunkTableInvalid)
        } else if n > (s.len() - p) / 2 {
            Err(QztError::UnexpectedEof)
        } else if es.len() * vstd::layout::size_of::<DenseLineEntry>() > usize::MAX
            || es.len() * vstd::layout::size_of::<DenseLineEntry>() > max {
            Err(QztError::ResourceLimitExceeded)
        } else {
            match spec_decode_dense_entries(s, p, es, 0, (es.len() * vstd::layout::size_of::<DenseLineEntry>()) as nat, max, Seq::empty()) {
                Err(e) => Err(e),
                Ok((entries, q)) => if q != s.len() {
                    Err(QztError::ChunkTableInvalid)
                } else {
                    Ok(entries)
                },
            }
        }
    }
}

fn decode_offsets(bytes: &[u8], pos: usize, count: usize, size: u64) -> (r: Result<(Vec<u64>, usize)>)
    requires
        pos <= bytes@.len(),
    ensures
        match r {
            Ok((offs, p)) => spec_decode_offsets(bytes@, pos as int, 0, count as nat, 0, size, Seq::empty())
                == Ok::<(Seq<u64>, int), QztError>((offs@, p as int)) && pos <= p <= bytes@.len(),
            Err(e) => spec_decode_offsets(bytes@, pos as int, 0, count as nat, 0, size, Seq::empty())
                == Err::<(Seq<u64>, int), QztError>(e) || e == QztError::ResourceLimitExceeded,
        },
{
    let mut offsets: Vec<u64> = Vec::new();
    reserve_exact(&mut offsets, count)?;
    let mut previous: u64 = 0;
    let mut cursor = pos;
    let mut index: usize = 0;
    while index < count
        invariant
            pos <= cursor <= bytes@.len(),
            index <= count,
            offsets@.len() == index,
            index > 0 ==> previous == offsets@[index - 1],
            spec_decode_offsets(bytes@, pos as int, 0, count as nat, 0, size, Seq::empty())
                == spec_decode_offsets(bytes@, cursor as int, index as nat, count as nat, previous, size, offsets@),
        decreases count - index,
    {
        let (delta, p) = read_varuint(bytes, cursor, QztError::ChunkTableInvalid)?;
        let offset = if index == 0 {
            delta
        } else {
            match previous.checked_add(delta) {
                Some(v) => v,
                None => {
                    return Err(QztError::ChunkTableInvalid);
                },
            }
        };
        if index > 0 && offset <= previous {
            return Err(QztError::ChunkTableInvalid);
        }
        if offset >= size {
            return Err(QztError::ChunkTableInvalid);
        }
        offsets.push(offset);
        previous = offset;
        cursor = p;
        index = index + 1;
    }
    Ok((offsets, cursor))
}

impl DenseLineIndex {
    /// Decodes an index for `chunk_entries` under the default allocation limit.
    pub fn decode_for_chunks(bytes: &[u8], chunk_entries: &[ChunkEntry]) -> (r: Result<Self>)
        ensures
            match r {
                Ok(index) => spec_decode_dense(bytes@, chunk_entries@, 268435456) == Ok::<Seq<(u64, Seq<u64>)>, QztError>(index@),
                Err(e) => spec_decode_dense(bytes@, chunk_entries@, 268435456) == Err::<Seq<(u64, Seq<u64>)>, QztError>(e)
                    || e == QztError::ResourceLimitExceeded,
            },
    {
        Self::decode_for_chunks_with_limit(bytes, chunk_entries, 268435456)
    }

    /// Decodes an index for `chunk_entries`, checking every entry against its
    /// chunk and capping decoded storage at `max_allocation` bytes. A refused
    /// reservation also fails with `ResourceLimitExceeded`.
    pub fn decode_for_chunks_with_limit(bytes: &[u8], chunk_entries: &[ChunkEntry], max_allocation: u64) -> (r: Result<Self>)
        ensures
            match r {
                Ok(index) => spec_decode_dense(bytes@, chunk_entries@, max_allocation) == Ok::<Seq<(u64, Seq<u64>)>, QztError>(index@),
                Err(e) => spec_decode_dense(bytes@, chunk_entries@, max_allocation) == Err::<Seq<(u64, Seq<u64>)>, QztError>(e)
                    || e == QztError::ResourceLimitExceeded,
            },
    {
        let (entry_count, mut cursor) = read_varuint(bytes, 0, QztError::ChunkTableInvalid)?;
        if entry_count as u128 != chunk_entries.len() as u128 {
            return Err(QztError::ChunkTableInvalid);
        }
        if entry_count as u128 > ((bytes.len() - cursor) / 2) as u128 {
            return Err(QztError::UnexpectedEof);
        }
        let entry_size = core::mem::size_of::<DenseLineEntry>();
        let requested_start = match chunk_entries.len().checked_mul(entry_size) {
            Some(bytes) => bytes,
            None => {
                return Err(QztError::ResourceLimitExceeded);
            },
        };
        if requested_start as u64 > max_allocation {
            return Err(QztError::ResourceLimitExceeded);
        }
        let mut requested: u64 = requested_start as u64;
        let mut entries: Vec<DenseLineEntry> = Vec::new();
        reserve_exact(&mut entries, chunk_entries.len())?;
        let mut j: usize = 0;
        let ghost es = chunk_entries@;
        assert(dense_entries_view(entries@) =~= Seq::empty());
        while j < chunk_entries.len()
            invariant
                j <= es.len(),
                es == chunk_entries@,
                cursor <= bytes@.len(),
                requested <= max_allocation,
                entry_count == es.len(),
                spec_decode_dense(bytes@, es, max_allocation) == match spec_decode_dense_entries(
                    bytes@,
                    cursor as int,
                    es,
                    j as nat,
                    requested as nat,
                    max_allocation,
                    dense_entries_view(entries@),
                ) {
                    Err(e) => Err(e),
                    Ok((entries, q)) => if q != bytes@.len() {
                        Err(QztError::ChunkTableInvalid)
                    } else {
                        Ok(entries)
                    },
                },
            decreases es.len() - j,
        {
            let expected = &chunk_entries[j];
            let (chunk_id, p1) = read_varuint(bytes, cursor, QztError::ChunkTableInvalid)?;
            if chunk_id != expected.chunk_id {
                return Err(QztError::ChunkTableInvalid);
            }
            let (count, p2) = read_varuint(bytes, p1, QztError::ChunkTableInvalid)?;
            if count != expected.line_count || count > expected.uncompressed_size {
                return Err(QztError::ChunkTableInvalid);
            }
            if count as u128 > (bytes.len() - p2) as u128 {
                return Err(QztError::UnexpectedEof);
            }
            let more: u128 = count as u128 * 8;
            if requested as u128 + more > max_allocation as u128 {
                return Err(QztError::ResourceLimitExceeded);
            }
            let (offsets, p3) = decode_offsets(bytes, p2, count as usize, expected.uncompressed_size)?;
            let ghost before = dense_entries_view(entries@);
            entries.push(DenseLineEntry { chunk_id, line_start_offsets: offsets });
            assert(dense_entries_view(entries@) =~= before.push((chunk_id, offsets@)));
            requested = (requested as u128 + more) as u64;
            cursor = p3;
            j = j + 1;
        }
        if cursor != bytes.len() {
            return Err(QztError::ChunkTableInvalid);
        }
        Ok(DenseLineIndex { entries })
    }

    /// The start offset of local line `local_line_index` of chunk `chunk_index`.
    pub fn line_start_offset(&self, chunk_index: usize, local_line_index: usize) -> (r: Result<u64>)
        ensures
            chunk_index < self@.len() && local_line_index < self@[chunk_index as int].1.len()
                ==> r == Ok::<u64, QztError>(self@[chunk_index as int].1[local_line_index as int]),
            !(chunk_index < self@.len() && local_line_index < self@[chunk_index as int].1.len())
                ==> r == Err::<u64, QztError>(QztError::LineOutOfRange),
    {
        if chunk_index >= self.entries.len() {
            return Err(QztError::LineOutOfRange);
        }
        let entry = &self.entries[chunk_index];
        assert(self@[chunk_index as int] == entry@);
        if local_line_index >= entry.line_start_offsets.len() {
            return Err(QztError::LineOutOfRange);
        }
        Ok(entry.line_start_offsets[local_line_index])
    }

    /// Checks that the stored offsets of chunk `chunk_index` are those of `decoded`.
    pub fn verify_chunk(&self, chunk_index: usize, decoded: &[u8], flags: u32) -> (r: Result<()>)
        ensures
            r is Ok <==> chunk_index < self@.len() && self@[chunk_index as int].1 == spec_local_line_starts(decoded@, flags),
            r is Err ==> r == Err::<(), QztError>(QztError::ChunkTableInvalid),
    {
        let expected = line_start_offsets(decoded, flags)?;
        if chunk_index >= self.entries.len() {
            return Err(QztError::ChunkTableInvalid);
        }
        let actual = &self.entries[chunk_index];
        assert(self@[chunk_index as int] == actual@);
        if !offsets_equal(&actual.line_start_offsets, &expected) {
            return Err(QztError::ChunkTableInvalid);
        }
        Ok(())
    }
}

fn offsets_equal(a: &Vec<u64>, b: &Vec<u64>) -> (r: bool)
    ensures
        r == (a@ == b@),
{
    if a.len() != b.len() {
        return false;
    }
    let mut i: usize = 0;
    while i < a.len()
        invariant
            a@.len() == b@.len(),
            i <= a@.len(),
            forall|k: int| 0 <= k < i ==> a@[k] == b@[k],
        decreases a@.len() - i,
    {
        if a[i] != b[i] {
            return false;
        }
        i = i + 1;
    }
    assert(a@ =~= b@);
    true
}

// ---------------------------------------------------------------------------
// Decoding what the encoder wrote
// ---------------------------------------------------------------------------

/// Varint deltas of offsets `k..`: the first offset itself, then each
/// offset's distance from the one before.
pub open spec fn spec_offsets_tail(offs: Seq<u64>, k: int) -> Seq<u8>
    decreases offs.len() - k,
{
    if k < 0 || k >= offs.len() {
        Seq::empty()
    } else {
        spec_varuint(if k == 0 { offs[0] as nat } else { (offs[k] - offs[k - 1]) as nat }) + spec_offsets_tail(offs, k + 1)
    }
}

/// Encoded entries `j..` of an index: chunk id, offset count, offsets.
pub open spec fn spec_dense_entries_tail(x: Seq<(u64, Seq<u64>)>, j: int) -> Seq<u8>
    decreases x.len() - j,
{
    if j < 0 || j >= x.len() {
        Seq::empty()
    } else {
        spec_varuint(x[j].0 as nat) + spec_varuint(x[j].1.len()) + spec_offsets_encoding(x[j].1)
            + spec_dense_entries_tail(x, j + 1)
    }
}

/// Bytes the decoded offsets of entries `j..` occupy in memory.
pub open spec fn spec_dense_offsets_need(x: Seq<(u64, Seq<u64>)>, j: int) -> nat
    decreases x.len() - j,
{
    if j < 0 || j >= x.len() {
        0
    } else {
        8 * x[j].1.len() + spec_dense_offsets_need(x, j + 1)
    }
}

/// Offsets strictly increasing and inside a chunk of `size` bytes.
pub open spec fn spec_offsets_fit(offs: Seq<u64>, size: u64) -> bool {
    &&& forall|i: int| 0 <= i < offs.len() ==> #[trigger] offs[i] < size
    &&& forall|i: int| 1 <= i < offs.len() ==> offs[i - 1] < #[trigger] offs[i]
}

/// An index `x` describes the chunks `es`: one entry per chunk, with the
/// chunk's id and line count, and offsets that fit the chunk.
pub open spec fn spec_dense_describes(x: Seq<(u64, Seq<u64>)>, es: Seq<ChunkEntry>) -> bool {
    &&& x.len() == es.len()
    &&& forall|k: int| 0 <= k < x.len() ==> {
        &&& (#[trigger] x[k]).0 == es[k].chunk_id
        &&& x[k].1.len() == es[k].line_count
        &&& es[k].line_count <= es[k].uncompressed_size
        &&& spec_offsets_fit(x[k].1, es[k].uncompressed_size)
    }
}

proof fn lemma_offsets_tail(offs: Seq<u64>, k: int)
    requires
        0 <= k <= offs.len(),
    ensures
        spec_offsets_encoding(offs.subrange(0, k)) + spec_offsets_tail(offs, k) == spec_offsets_encoding(offs),
        spec_offsets_tail(offs, k).len() >= offs.len() - k,
    decreases offs.len() - k,
{
    if k == offs.len() {
        assert(offs.subrange(0, k) =~= offs);
        assert(spec_offsets_encoding(offs) + Seq::<u8>::empty() =~= spec_offsets_encoding(offs));
    } else {
        lemma_offsets_tail(offs, k + 1);
        crate::varint::lemma_varuint_nonempty(if k == 0 { offs[0] as nat } else { (offs[k] - offs[k - 1]) as nat });
        let p1 = offs.subrange(0, k + 1);
        if k == 0 {
            assert(offs.subrange(0, 0) =~= Seq::<u64>::empty());
            assert(p1.len() == 1 && p1[0] == offs[0]);
        } else {
            assert(p1.drop_last() =~= offs.subrange(0, k));
            assert(p1.last() == offs[k] && p1[p1.len() - 2] == offs[k - 1]);
        }
        assert(spec_offsets_encoding(offs.subrange(0, k)) + spec_offsets_tail(offs, k) =~= spec_offsets_encoding(p1)
            + spec_offsets_tail(offs, k + 1));
    }
}

proof fn lemma_dense_entries_tail(x: Seq<(u64, Seq<u64>)>, j: int)
    requires
        0 <= j <= x.len(),
    ensures
        spec_dense_entries_encoding(x.subrange(0, j)) + spec_dense_entries_tail(x, j) == spec_dense_entries_encoding(x),
        spec_dense_entries_tail(x, j).len() >= 2 * (x.len() - j),
    decreases x.len() - j,
{
    if j == x.len() {
        assert(x.subrange(0, j) =~= x);
        assert(spec_dense_entries_encoding(x) + Seq::<u8>::empty() =~= spec_dense_entries_encoding(x));
    } else {
        lemma_dense_entries_tail(x, j + 1);
        crate::varint::lemma_varuint_nonempty(x[j].0 as nat);
        crate::varint::lemma_varuint_nonempty(x[j].1.len());
        let p1 = x.subrange(0, j + 1);
        assert(p1.drop_last() =~= x.subrange(0, j));
        assert(p1.last() == x[j]);
        assert(spec_dense_entries_encoding(x.subrange(0, j)) + spec_dense_entries_tail(x, j) =~= spec_dense_entries_encoding(p1)
            + spec_dense_entries_tail(x, j + 1));
    }
}

proof fn lemma_decode_offsets_encoded(s: Seq<u8>, pos: int, offs: Seq<u64>, k: int, size: u64)
    requires
        0 <= k <= offs.len(),
        spec_offsets_fit(offs, size),
        0 <= pos,
        pos + spec_offsets_tail(offs, k).len() <= s.len(),
        s.subrange(pos, pos + spec_offsets_tail(offs, k).len()) == spec_offsets_tail(offs, k),
    ensures
        spec_decode_offsets(s, pos, k as nat, offs.len() as nat, if k == 0 { 0u64 } else { offs[k - 1] }, size, offs.subrange(0, k))
            == Ok::<(Seq<u64>, int), QztError>((offs, pos + spec_offsets_tail(offs, k).len())),
    decreases offs.len() - k,
{
    if k < offs.len() {
        let d: u64 = if k == 0 { offs[0] } else { (offs[k] - offs[k - 1]) as u64 };
        let v = spec_varuint(d as nat);
        let rest = spec_offsets_tail(offs, k + 1);
        assert(spec_offsets_tail(offs, k) == v + rest);
        crate::cbor::lemma_split_found(s, pos, v, rest);
        crate::varint::lemma_varuint_at(s, pos, d, QztError::ChunkTableInvalid);
        assert(offs.subrange(0, k).push(offs[k]) =~= offs.subrange(0, k + 1));
        lemma_decode_offsets_encoded(s, pos + v.len(), offs, k + 1, size);
    } else {
        assert(offs.subrange(0, k) =~= offs);
    }
}

/// Where entry `j`'s parts lie when its encoding is found at `pos`: the chunk
/// id and the offset count read back, then the offsets, then the next entries.
proof fn lemma_dense_entry_parts(s: Seq<u8>, pos: int, x: Seq<(u64, Seq<u64>)>, es: Seq<ChunkEntry>, j: int)
    requires
        0 <= j < x.len(),
        spec_dense_describes(x, es),
        0 <= pos,
        pos + spec_dense_entries_tail(x, j).len() <= s.len(),
        s.subrange(pos, pos + spec_dense_entries_tail(x, j).len()) == spec_dense_entries_tail(x, j),
    ensures
        ({
            let p1 = pos + spec_varuint(x[j].0 as nat).len();
            let p2 = p1 + spec_varuint(x[j].1.len()).len();
            let oe = spec_offsets_encoding(x[j].1);
            let rest = spec_dense_entries_tail(x, j + 1);
            &&& spec_read_varuint(s, pos, QztError::ChunkTableInvalid) == Ok::<(u64, int), QztError>((x[j].0, p1))
            &&& spec_read_varuint(s, p1, QztError::ChunkTableInvalid) == Ok::<(u64, int), QztError>((es[j].line_count, p2))
            &&& oe.len() >= x[j].1.len()
            &&& p2 + oe.len() + rest.len() == pos + spec_dense_entries_tail(x, j).len()
            &&& s.subrange(p2, p2 + spec_offsets_tail(x[j].1, 0).len()) == spec_offsets_tail(x[j].1, 0)
            &&& spec_offsets_tail(x[j].1, 0) == oe
            &&& s.subrange(p2 + oe.len(), p2 + oe.len() + rest.len()) == rest
        }),
{
    let e = x[j];
    let offs = e.1;
    let count = offs.len();
    let vid = spec_varuint(e.0 as nat);
    let vcount = spec_varuint(count);
    let oe = spec_offsets_encoding(offs);
    let rest = spec_dense_entries_tail(x, j + 1);
    assert(spec_dense_entries_tail(x, j) =~= vid + (vcount + (oe + rest)));
    crate::cbor::lemma_split_found(s, pos, vid, vcount + (oe + rest));
    crate::varint::lemma_varuint_at(s, pos, e.0, QztError::ChunkTableInvalid);
    let p1 = pos + vid.len();
    crate::cbor::lemma_split_found(s, p1, vcount, oe + rest);
    assert(count == es[j].line_count);
    crate::varint::lemma_varuint_at(s, p1, count as u64, QztError::ChunkTableInvalid);
    let p2 = p1 + vcount.len();
    crate::cbor::lemma_split_found(s, p2, oe, rest);
    lemma_offsets_tail(offs, 0);
    assert(offs.subrange(0, 0) =~= Seq::<u64>::empty());
    assert(spec_offsets_encoding(Seq::<u64>::empty()) =~= Seq::<u8>::empty());
    assert(spec_offsets_tail(offs, 0) =~= oe);
}

#[verifier::rlimit(100)]
#[verifier::spinoff_prover]
proof fn lemma_decode_dense_entries_encoded(
    s: Seq<u8>,
    pos: int,
    x: Seq<(u64, Seq<u64>)>,
    es: Seq<ChunkEntry>,
    j: int,
    requested: nat,
    max: u64,
)
    requires
        0 <= j <= x.len(),
        spec_dense_describes(x, es),
        0 <= pos,
        pos + spec_dense_entries_tail(x, j).len() <= s.len(),
        s.subrange(pos, pos + spec_dense_entries_tail(x, j).len()) == spec_dense_entries_tail(x, j),
        requested <= max,
    ensures
        requested + spec_dense_offsets_need(x, j) <= max ==> spec_decode_dense_entries(s, pos, es, j as nat, requested, max, x.subrange(0, j))
            == Ok::<(Seq<(u64, Seq<u64>)>, int), QztError>((x, pos + spec_dense_entries_tail(x, j).len())),
        requested + spec_dense_offsets_need(x, j) > max ==> spec_decode_dense_entries(s, pos, es, j as nat, requested, max, x.subrange(0, j))
            == Err::<(Seq<(u64, Seq<u64>)>, int), QztError>(QztError::ResourceLimitExceeded),
    decreases x.len() - j,
{
    if j < x.len() {
        let offs = x[j].1;
        let count = offs.len();
        lemma_dense_entry_parts(s, pos, x, es, j);
        let p2 = pos + spec_varuint(x[j].0 as nat).len() + spec_varuint(count).len();
        let oe = spec_offsets_encoding(offs);
        let p1 = pos + spec_varuint(x[j].0 as nat).len();
        assert(spec_dense_offsets_need(x, j) == 8 * count + spec_dense_offsets_need(x, j + 1));
        assert(x[j].0 == es[j].chunk_id && count == es[j].line_count && count <= es[j].uncompressed_size);
        assert(count <= s.len() - p2);
        assert(offs.subrange(0, 0) =~= Seq::<u64>::empty());
        assert(spec_dense_entries_tail(x, j).len() == spec_varuint(x[j].0 as nat).len() + spec_varuint(count).len() + oe.len()
            + spec_dense_entries_tail(x, j + 1).len());
        if requested + count * 8 <= max {
            lemma_decode_offsets_encoded(s, p2, offs, 0, es[j].uncompressed_size);
            assert(x.subrange(0, j).push((x[j].0, offs)) =~= x.subrange(0, j + 1));
            lemma_decode_dense_entries_encoded(s, p2 + oe.len(), x, es, j + 1, (requested + count * 8) as nat, max);
        }
    } else {
        assert(x.subrange(0, j) =~= x);
    }
}

/// Decoding the encoding of an index that describes the chunks gives the
/// index back exactly when the allocation limit covers the decoded entries
/// and offsets, and is refused as over the limit otherwise.
pub proof fn lemma_dense_roundtrip(x: Seq<(u64, Seq<u64>)>, es: Seq<ChunkEntry>, max: u64)
    requires
        spec_dense_describes(x, es),
        es.len() <= u64::MAX,
        es.len() * vstd::layout::size_of::<DenseLineEntry>() <= usize::MAX,
    ensures
        es.len() * vstd::layout::size_of::<DenseLineEntry>() + spec_dense_offsets_need(x, 0) <= max
            ==> spec_decode_dense(spec_dense_encoding(x), es, max) == Ok::<Seq<(u64, Seq<u64>)>, QztError>(x),
        es.len() * vstd::layout::size_of::<DenseLineEntry>() + spec_dense_offsets_need(x, 0) > max
            ==> spec_decode_dense(spec_dense_encoding(x), es, max) == Err::<Seq<(u64, Seq<u64>)>, QztError>(QztError::ResourceLimitExceeded),
{
    let s = spec_dense_encoding(x);
    let vn = spec_varuint(x.len());
    let body = spec_dense_entries_encoding(x);
    lemma_dense_entries_tail(x, 0);
    assert(x.subrange(0, 0) =~= Seq::<(u64, Seq<u64>)>::empty());
    assert(spec_dense_entries_encoding(Seq::<(u64, Seq<u64>)>::empty()) =~= Seq::<u8>::empty());
    assert(spec_dense_entries_tail(x, 0) =~= body);
    assert(s.subrange(0, s.len() as int) =~= s);
    crate::cbor::lemma_split_found(s, 0, vn, body);
    crate::varint::lemma_varuint_at(s, 0, x.len() as u64, QztError::ChunkTableInvalid);
    let requested = (es.len() * vstd::layout::size_of::<DenseLineEntry>()) as nat;
    if requested <= max {
        lemma_decode_dense_entries_encoded(s, vn.len() as int, x, es, 0, requested, max);
    }
}

} // verus!
