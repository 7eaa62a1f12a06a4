//! Deterministic, UTF-8-safe and CRLF-safe chunk planning.

use vstd::prelude::*;
use vstd::utf8::*;
use crate::bytes_util::text_from_utf8;
use crate::chunk_table::STARTS_WITH_LINE_CONTINUATION;
use crate::error::{QztError, Result};

verus! {

/// Writer options required by deterministic chunk planning.
#[derive(Debug, Clone, Copy, PartialEq, Eq)]
pub struct ChunkerOptions {
    /// Preferred uncompressed chunk size in bytes.
    pub target_chunk_size: usize,
    /// Hard maximum uncompressed chunk size in bytes.
    pub max_chunk_size: usize,
}

/// Both sizes are non-zero and the target does not exceed the maximum.
pub open spec fn spec_options_valid(o: ChunkerOptions) -> bool {
    o.target_chunk_size != 0 && o.max_chunk_size != 0 && o.target_chunk_size <= o.max_chunk_size
}

impl ChunkerOptions {
    /// Validates that both sizes are non-zero and the target does not exceed the maximum.
    pub fn validate(self) -> (r: Result<()>)
        ensures
            r is Ok <==> spec_options_valid(self),
            r is Err ==> r == Err::<(), QztError>(QztError::ResourceLimitExceeded),
    {
        if self.target_chunk_size == 0 || self.max_chunk_size == 0 {
            return Err(QztError::ResourceLimitExceeded);
        }
        if self.target_chunk_size > self.max_chunk_size {
            return Err(QztError::ResourceLimitExceeded);
        }
        Ok(())
    }
}

/// Newline mode derived from original bytes.
#[derive(Debug, Clone, Copy, PartialEq, Eq)]
pub enum NewlineMode {
    NoNewline,
    Lf,
    Crlf,
    Mixed,
}

impl NewlineMode {
    /// The mode for the given numbers of bare LF and CRLF terminators.
    pub fn from_counts(lf_count: u64, crlf_count: u64) -> (r: Self)
        ensures
            r == spec_mode_from_counts(lf_count as int, crlf_count as int),
    {
        if lf_count > 0 {
            if crlf_count > 0 {
                NewlineMode::Mixed
            } else {
                NewlineMode::Lf
            }
        } else if crlf_count > 0 {
            NewlineMode::Crlf
        } else {
            NewlineMode::NoNewline
        }
    }

    /// The metadata spelling of the mode.
    pub fn as_str(self) -> (r: &'static str)
        ensures
            r@ == spec_mode_name(self),
    {
        match self {
            NewlineMode::NoNewline => "none",
            NewlineMode::Lf => "lf",
            NewlineMode::Crlf => "crlf",
            NewlineMode::Mixed => "mixed",
        }
    }
}

/// The metadata spelling of a newline mode.
pub open spec fn spec_mode_name(m: NewlineMode) -> Seq<char> {
    match m {
        NewlineMode::NoNewline => "none"@,
        NewlineMode::Lf => "lf"@,
        NewlineMode::Crlf => "crlf"@,
        NewlineMode::Mixed => "mixed"@,
    }
}

/// The mode for the given numbers of bare LF and CRLF terminators.
pub open spec fn spec_mode_from_counts(lf: int, crlf: int) -> NewlineMode {
    if lf > 0 && crlf > 0 {
        NewlineMode::Mixed
    } else if lf > 0 {
        NewlineMode::Lf
    } else if crlf > 0 {
        NewlineMode::Crlf
    } else {
        NewlineMode::NoNewline
    }
}

/// Metadata derived for the whole original byte stream.
#[derive(Debug, Clone, PartialEq, Eq)]
pub struct ChunkPlan {
    pub chunks: Vec<PlannedChunk>,
    pub line_count: u64,
    pub newline_mode: NewlineMode,
}

/// Planned uncompressed chunk metadata before zstd writing.
#[derive(Debug, Clone, Copy, PartialEq, Eq)]
pub struct PlannedChunk {
    pub chunk_id: u64,
    pub logical_offset: u64,
    pub uncompressed_size: u64,
    pub first_line: u64,
    pub line_count: u64,
    pub flags: u32,
}

// ---------------------------------------------------------------------------
// Lines
// ---------------------------------------------------------------------------

/// A line starts at `p`: at offset zero of non-empty input, or right after an LF.
pub open spec fn spec_is_line_start(input: Seq<u8>, p: int) -> bool {
    0 <= p < input.len() && (p == 0 || input[p - 1] == 10)
}

/// Offsets below `n` at which a line starts, in increasing order.
pub open spec fn spec_line_starts(input: Seq<u8>, n: int) -> Seq<int>
    decreases n,
{
    if n <= 0 {
        Seq::empty()
    } else if spec_is_line_start(input, n - 1) {
        spec_line_starts(input, n - 1).push(n - 1)
    } else {
        spec_line_starts(input, n - 1)
    }
}

/// Number of lines that start before offset `n`.
pub open spec fn spec_lines_before(input: Seq<u8>, n: int) -> int {
    spec_line_starts(input, n).len() as int
}

/// Number of LF bytes below `n` that are not preceded by CR.
pub open spec fn spec_lf_count(input: Seq<u8>, n: int) -> int
    decreases n,
{
    if n <= 0 {
        0
    } else {
        spec_lf_count(input, n - 1) + if input[n - 1] == 10 && !(n - 1 > 0 && input[n - 2] == 13) {
            1int
        } else {
            0int
        }
    }
}

/// Number of LF bytes below `n` that are preceded by CR.
pub open spec fn spec_crlf_count(input: Seq<u8>, n: int) -> int
    decreases n,
{
    if n <= 0 {
        0
    } else {
        spec_crlf_count(input, n - 1) + if input[n - 1] == 10 && n - 1 > 0 && input[n - 2] == 13 {
            1int
        } else {
            0int
        }
    }
}

/// The newline mode of a whole input.
pub open spec fn spec_newline_mode(input: Seq<u8>) -> NewlineMode {
    spec_mode_from_counts(spec_lf_count(input, input.len() as int), spec_crlf_count(input, input.len() as int))
}

pub(crate) proof fn lemma_line_starts_facts(input: Seq<u8>, n: int)
    requires
        0 <= n,
    ensures
        forall|k: int| 0 <= k < spec_line_starts(input, n).len() ==> 0 <= #[trigger] spec_line_starts(input, n)[k] < n,
        forall|a: int, b: int| 0 <= a < b < spec_line_starts(input, n).len() ==> #[trigger] spec_line_starts(input, n)[a] < #[trigger] spec_line_starts(input, n)[b],
        spec_line_starts(input, n).len() <= n,
    decreases n,
{
    if n > 0 {
        lemma_line_starts_facts(input, n - 1);
    }
}

/// The line starts below `m` are a prefix of the line starts below `n`, and
/// every later one is at least `m`.
proof fn lemma_line_starts_prefix(input: Seq<u8>, m: int, n: int)
    requires
        0 <= m <= n,
    ensures
        spec_line_starts(input, m) == spec_line_starts(input, n).subrange(0, spec_lines_before(input, m)),
        forall|k: int| spec_lines_before(input, m) <= k < spec_line_starts(input, n).len() ==> #[trigger] spec_line_starts(input, n)[k] >= m,
        spec_lines_before(input, m) <= spec_lines_before(input, n),
    decreases n - m,
{
    lemma_line_starts_facts(input, n);
    if m < n {
        lemma_line_starts_prefix(input, m, n - 1);
        lemma_line_starts_facts(input, n - 1);
        assert(spec_line_starts(input, n - 1) =~= spec_line_starts(input, n).subrange(0, spec_lines_before(input, n - 1)));
        assert(spec_line_starts(input, m) =~= spec_line_starts(input, n).subrange(0, spec_lines_before(input, m)));
    } else {
        assert(spec_line_starts(input, m) =~= spec_line_starts(input, n).subrange(0, spec_lines_before(input, m)));
    }
}

/// Offsets at which lines start, and the newline mode, of one input.
pub(crate) struct LineInfo {
    pub(crate) line_starts: Vec<usize>,
    pub(crate) newline_mode: NewlineMode,
}

impl LineInfo {
    pub(crate) fn from_bytes(input: &[u8]) -> (r: Self)
        ensures
            r.line_starts@.len() == spec_line_starts(input@, input@.len() as int).len(),
            forall|k: int| 0 <= k < r.line_starts@.len() ==> #[trigger] r.line_starts@[k] as int == spec_line_starts(input@, input@.len() as int)[k],
            r.newline_mode == spec_newline_mode(input@),
    {
        if input.len() == 0 {
            return LineInfo { line_starts: Vec::new(), newline_mode: NewlineMode::NoNewline };
        }
        let mut line_starts: Vec<usize> = Vec::new();
        line_starts.push(0);
        let mut lf_count: u64 = 0;
        let mut crlf_count: u64 = 0;
        let mut index: usize = 0;
        assert(spec_line_starts(input@, 1) =~= seq![0int]) by {
            reveal_with_fuel(spec_line_starts, 2);
        }
        while index < input.len()
            invariant
                0 < input@.len(),
                index <= input@.len(),
                line_starts@.len() == spec_line_starts(input@, index + 1).len(),
                forall|k: int| 0 <= k < line_starts@.len() ==> #[trigger] line_starts@[k] as int == spec_line_starts(input@, index + 1)[k],
                lf_count == spec_lf_count(input@, index as int),
                crlf_count == spec_crlf_count(input@, index as int),
                lf_count + crlf_count <= index,
                index < input@.len() ==> true,
            decreases input@.len() - index,
        {
            if input[index] == 10 {
                if index > 0 && input[index - 1] == 13 {
                    crlf_count = crlf_count + 1;
                } else {
                    lf_count = lf_count + 1;
                }
                if index + 1 < input.len() {
                    line_starts.push(index + 1);
                }
            }
            proof {
                lemma_line_starts_facts(input@, index + 1);
            }
            index = index + 1;
        }
        proof {
            if input@.len() > 0 {
                assert(!spec_is_line_start(input@, input@.len() as int));
            }
        }
        LineInfo {
            line_starts,
            newline_mode: NewlineMode::from_counts(lf_count, crlf_count),
        }
    }
}

/// Index of the first value that is at least `target` in a sorted list.
fn lower_bound(values: &Vec<usize>, target: usize) -> (r: usize)
    requires
        forall|a: int, b: int| 0 <= a < b < values@.len() ==> values@[a] < values@[b],
    ensures
        r <= values@.len(),
        forall|k: int| 0 <= k < r ==> #[trigger] values@[k] < target,
        forall|k: int| r <= k < values@.len() ==> #[trigger] values@[k] >= target,
{
    let mut lo: usize = 0;
    let mut hi: usize = values.len();
    while lo < hi
        invariant
            lo <= hi <= values@.len(),
            forall|a: int, b: int| 0 <= a < b < values@.len() ==> values@[a] < values@[b],
            forall|k: int| 0 <= k < lo ==> #[trigger] values@[k] < target,
            forall|k: int| hi <= k < values@.len() ==> #[trigger] values@[k] >= target,
        decreases hi - lo,
    {
        let mid = lo + (hi - lo) / 2;
        if values[mid] < target {
            lo = mid + 1;
        } else {
            hi = mid;
        }
    }
    lo
}

// ---------------------------------------------------------------------------
// Chunk ends
// ---------------------------------------------------------------------------

/// Ending a chunk at `end` would separate a CR from the LF after it.
pub open spec fn spec_splits_crlf(input: Seq<u8>, end: int) -> bool {
    end > 0 && end < input.len() && input[end - 1] == 13 && input[end] == 10
}

/// `index` is an end of input or the start of a UTF-8 sequence.
pub open spec fn spec_is_utf8_boundary(input: Seq<u8>, index: int) -> bool {
    index == 0 || index == input.len() || (0 <= index < input.len() && input[index] & 0xc0 != 0x80)
}

/// The offset right after the last LF in `[start, end)`, if any.
pub open spec fn spec_last_newline(input: Seq<u8>, start: int, end: int) -> Option<int>
    decreases end - start,
{
    if end <= start {
        None
    } else if input[end - 1] == 10 {
        Some(end)
    } else {
        spec_last_newline(input, start, end - 1)
    }
}

/// The largest offset in `(start, end]` at a UTF-8 boundary that keeps CRLF whole.
pub open spec fn spec_prev_split(input: Seq<u8>, start: int, end: int) -> Option<int>
    decreases end - start,
{
    if end <= start {
        None
    } else if spec_is_utf8_boundary(input, end) && !spec_splits_crlf(input, end) {
        Some(end)
    } else {
        spec_prev_split(input, start, end - 1)
    }
}

/// Where the chunk starting at `start` ends: everything left when it fits the
/// target; else after the last LF within the target, else within the maximum;
/// else at the last safe split within the maximum. `None` when there is none.
pub open spec fn spec_chunk_end(input: Seq<u8>, start: int, o: ChunkerOptions) -> Option<int> {
    let remaining = input.len() - start;
    if remaining <= o.target_chunk_size {
        Some(input.len() as int)
    } else {
        let target_end = start + o.target_chunk_size;
        let max_end = if start + o.max_chunk_size < input.len() {
            start + o.max_chunk_size
        } else {
            input.len() as int
        };
        match spec_last_newline(input, start, target_end) {
            Some(e) => Some(e),
            None => match spec_last_newline(input, start, max_end) {
                Some(e) => Some(e),
                None => spec_prev_split(input, start, max_end),
            },
        }
    }
}

/// Chunk ends chosen from `start` on, after the ones in `acc`; `None` when a
/// chunk cannot be ended.
pub open spec fn spec_plan_ends(input: Seq<u8>, start: int, acc: Seq<int>, o: ChunkerOptions) -> Option<Seq<int>>
    decreases input.len() - start,
{
    if start >= input.len() {
        Some(acc)
    } else {
        match spec_chunk_end(input, start, o) {
            None => None,
            Some(e) => if start < e <= input.len() {
                spec_plan_ends(input, e, acc.push(e), o)
            } else {
                None
            },
        }
    }
}

proof fn lemma_last_newline_bounds(input: Seq<u8>, start: int, end: int)
    requires
        0 <= start,
        end <= input.len(),
    ensures
        spec_last_newline(input, start, end) matches Some(e) ==> start < e <= end && input[e - 1] == 10,
    decreases end - start,
{
    if end > start && input[end - 1] != 10 {
        lemma_last_newline_bounds(input, start, end - 1);
    }
}

proof fn lemma_prev_split_bounds(input: Seq<u8>, start: int, end: int)
    requires
        0 <= start,
        end <= input.len(),
    ensures
        spec_prev_split(input, start, end) matches Some(e) ==> start < e <= end
            && spec_is_utf8_boundary(input, e) && !spec_splits_crlf(input, e),
    decreases end - start,
{
    if end > start && !(spec_is_utf8_boundary(input, end) && !spec_splits_crlf(input, end)) {
        lemma_prev_split_bounds(input, start, end - 1);
    }
}

/// Properties of one chosen chunk end.
pub proof fn lemma_chunk_end_props(input: Seq<u8>, start: int, o: ChunkerOptions)
    requires
        0 <= start < input.len(),
        spec_options_valid(o),
        spec_chunk_end(input, start, o) is Some,
    ensures
        start < spec_chunk_end(input, start, o)->Some_0 <= input.len(),
        spec_chunk_end(input, start, o)->Some_0 - start <= o.max_chunk_size,
        !spec_splits_crlf(input, spec_chunk_end(input, start, o)->Some_0),
        ({
            let e = spec_chunk_end(input, start, o)->Some_0;
            e == input.len() || input[e - 1] == 10 || spec_is_utf8_boundary(input, e)
        }),
{
    let remaining = input.len() - start;
    if remaining > o.target_chunk_size {
        let target_end = start + o.target_chunk_size;
        let max_end = if start + o.max_chunk_size < input.len() {
            start + o.max_chunk_size
        } else {
            input.len() as int
        };
        lemma_last_newline_bounds(input, start, target_end);
        lemma_last_newline_bounds(input, start, max_end);
        lemma_prev_split_bounds(input, start, max_end);
    }
}

fn last_line_boundary(input: &[u8], start: usize, end: usize) -> (r: Option<usize>)
    requires
        start <= end <= input@.len(),
    ensures
        match r {
            Some(e) => spec_last_newline(input@, start as int, end as int) == Some(e as int),
            None => spec_last_newline(input@, start as int, end as int) is None,
        },
{
    let mut cursor = start;
    let mut boundary: Option<usize> = None;
    while cursor < end
        invariant
            start <= cursor <= end <= input@.len(),
            match boundary {
                Some(e) => spec_last_newline(input@, start as int, cursor as int) == Some(e as int),
                None => spec_last_newline(input@, start as int, cursor as int) is None,
            },
        decreases end - cursor,
    {
        if input[cursor] == 10 {
            boundary = Some(cursor + 1);
        }
        cursor = cursor + 1;
    }
    proof {
        lemma_last_newline_bounds(input@, start as int, end as int);
    }
    match boundary {
        Some(candidate) => {
            if candidate > start && !splits_crlf(input, candidate) {
                Some(candidate)
            } else {
                None
            }
        },
        None => None,
    }
}

fn previous_valid_split(input: &[u8], start: usize, max_end: usize) -> (r: Option<usize>)
    requires
        start <= max_end <= input@.len(),
    ensures
        match r {
            Some(e) => spec_prev_split(input@, start as int, max_end as int) == Some(e as int),
            None => spec_prev_split(input@, start as int, max_end as int) is None,
        },
{
    let mut candidate = max_end;
    while candidate > start
        invariant
            start <= candidate <= max_end <= input@.len(),
            spec_prev_split(input@, start as int, max_end as int) == spec_prev_split(input@, start as int, candidate as int),
        decreases candidate - start,
    {
        if is_utf8_boundary(input, candidate) && !splits_crlf(input, candidate) {
            return Some(candidate);
        }
        candidate = candidate - 1;
    }
    None
}

fn splits_crlf(input: &[u8], end: usize) -> (r: bool)
    ensures
        r == spec_splits_crlf(input@, end as int),
{
    end > 0 && end < input.len() && input[end - 1] == 13 && input[end] == 10
}

fn is_utf8_boundary(input: &[u8], index: usize) -> (r: bool)
    ensures
        r == spec_is_utf8_boundary(input@, index as int),
{
    index == 0 || index == input.len() || (index < input.len() && input[index] & 0xc0 != 0x80)
}

pub(crate) fn choose_chunk_end(input: &[u8], start: usize, options: ChunkerOptions) -> (r: Result<usize>)
    requires
        start < input@.len(),
        spec_options_valid(options),
    ensures
        match r {
            Ok(e) => spec_chunk_end(input@, start as int, options) == Some(e as int),
            Err(err) => spec_chunk_end(input@, start as int, options) is None
                && err == QztError::ResourceLimitExceeded,
        },
{
    let remaining = input.len() - start;
    if remaining <= options.target_chunk_size {
        return Ok(input.len());
    }
    let target_end = start + options.target_chunk_size;
    let max_end = if options.max_chunk_size < input.len() - start {
        start + options.max_chunk_size
    } else {
        input.len()
    };
    if let Some(line_end) = last_line_boundary(input, start, target_end) {
        return Ok(line_end);
    }
    if let Some(line_end) = last_line_boundary(input, start, max_end) {
        return Ok(line_end);
    }
    match previous_valid_split(input, start, max_end) {
        Some(e) => Ok(e),
        None => Err(QztError::ResourceLimitExceeded),
    }
}

/// The plan facts of chunk `k` of a plan for `input` whose chunk ends are `ends`.
pub open spec fn spec_planned_chunk(input: Seq<u8>, ends: Seq<int>, k: int, c: PlannedChunk) -> bool {
    let start = if k == 0 {
        0
    } else {
        ends[k - 1]
    };
    &&& c.chunk_id == k
    &&& c.logical_offset == start
    &&& c.uncompressed_size == ends[k] - start
    &&& c.first_line == spec_lines_before(input, start)
    &&& c.line_count == spec_lines_before(input, ends[k]) - spec_lines_before(input, start)
    &&& c.flags == if start > 0 && input[start - 1] != 10 {
        STARTS_WITH_LINE_CONTINUATION
    } else {
        0
    }
}

/// The plan for `input`: chunks ending where `spec_plan_ends` puts them.
pub open spec fn spec_is_plan(input: Seq<u8>, o: ChunkerOptions, plan: ChunkPlan) -> bool {
    &&& spec_plan_ends(input, 0, Seq::empty(), o) is Some
    &&& plan.chunks@.len() == spec_plan_ends(input, 0, Seq::empty(), o)->Some_0.len()
    &&& forall|k: int| 0 <= k < plan.chunks@.len() ==> spec_planned_chunk(
        input,
        spec_plan_ends(input, 0, Seq::empty(), o)->Some_0,
        k,
        #[trigger] plan.chunks@[k],
    )
    &&& plan.line_count == spec_lines_before(input, input.len() as int)
    &&& plan.newline_mode == spec_newline_mode(input)
}

/// Plans UTF-8-safe, CRLF-safe chunks without performing compression.
pub fn plan_chunks(input: &[u8], options: ChunkerOptions) -> (r: Result<ChunkPlan>)
    ensures
        !spec_options_valid(options) ==> r == Err::<ChunkPlan, QztError>(QztError::ResourceLimitExceeded),
        spec_options_valid(options) && !valid_utf8(input@) ==> r == Err::<ChunkPlan, QztError>(QztError::InvalidUtf8),
        spec_options_valid(options) && valid_utf8(input@) ==> match r {
            Ok(plan) => spec_is_plan(input@, options, plan),
            Err(e) => e == QztError::ResourceLimitExceeded
                && spec_plan_ends(input@, 0, Seq::empty(), options) is None,
        },
{
    options.validate()?;
    if text_from_utf8(input).is_none() {
        return Err(QztError::InvalidUtf8);
    }
    let line_info = LineInfo::from_bytes(input);
    proof {
        lemma_line_starts_facts(input@, input@.len() as int);
    }
    if input.len() == 0 {
        return Ok(ChunkPlan { chunks: Vec::new(), line_count: 0, newline_mode: line_info.newline_mode });
    }
    let ghost all_starts = spec_line_starts(input@, input@.len() as int);
    let mut chunks: Vec<PlannedChunk> = Vec::new();
    let mut start: usize = 0;
    let ghost mut ends: Seq<int> = Seq::empty();
    while start < input.len()
        invariant
            0 < input@.len(),
            spec_options_valid(options),
            valid_utf8(input@),
            start <= input@.len(),
            line_info.line_starts@.len() == all_starts.len(),
            all_starts == spec_line_starts(input@, input@.len() as int),
            forall|k: int| 0 <= k < all_starts.len() ==> #[trigger] line_info.line_starts@[k] as int == all_starts[k],
            forall|a: int, b: int| 0 <= a < b < all_starts.len() ==> #[trigger] all_starts[a] < #[trigger] all_starts[b],
            forall|k: int| 0 <= k < all_starts.len() ==> 0 <= #[trigger] all_starts[k] < input@.len(),
            spec_plan_ends(input@, 0, Seq::empty(), options) == spec_plan_ends(input@, start as int, ends, options),
            chunks@.len() == ends.len(),
            ends.len() <= start,
            ends.len() == 0 ==> start == 0,
            ends.len() > 0 ==> start == ends.last(),
            forall|k: int| 0 <= k < chunks@.len() ==> spec_planned_chunk(input@, ends, k, #[trigger] chunks@[k]),
        decreases input@.len() - start,
    {
        let end = choose_chunk_end(input, start, options)?;
        proof {
            lemma_chunk_end_props(input@, start as int, options);
        }
        if end <= start {
            return Err(QztError::ResourceLimitExceeded);
        }
        let first_line = lower_bound(&line_info.line_starts, start);
        let line_end = lower_bound(&line_info.line_starts, end);
        proof {
            lemma_line_starts_prefix(input@, start as int, input@.len() as int);
            lemma_line_starts_prefix(input@, end as int, input@.len() as int);
            lemma_line_starts_facts(input@, start as int);
            lemma_line_starts_facts(input@, end as int);
            let m = spec_lines_before(input@, start as int);
            let ls = line_info.line_starts@;
            if first_line < m {
                let k = first_line as int;
                assert(ls[k] >= start);
                assert(ls[k] as int == all_starts[k]);
                assert(spec_line_starts(input@, start as int)[k] == all_starts.subrange(0, m)[k]);
                assert(spec_line_starts(input@, start as int)[k] < start);
                assert(false);
            } else if first_line > m {
                assert(ls[m] < start);
                assert(ls[m] as int == all_starts[m]);
                assert(all_starts[m] >= start);
                assert(false);
            }
            let n = spec_lines_before(input@, end as int);
            if line_end < n {
                let k = line_end as int;
                assert(ls[k] >= end);
                assert(ls[k] as int == all_starts[k]);
                assert(spec_line_starts(input@, end as int)[k] == all_starts.subrange(0, n)[k]);
                assert(spec_line_starts(input@, end as int)[k] < end);
                assert(false);
            } else if line_end > n {
                assert(ls[n] < end);
                assert(ls[n] as int == all_starts[n]);
                assert(all_starts[n] >= end);
                assert(false);
            }
            lemma_line_starts_prefix(input@, start as int, end as int);
            assert(first_line == m);
            assert(line_end == n);
        }
        let flags: u32 = if start > 0 && input[start - 1] != 10 {
            STARTS_WITH_LINE_CONTINUATION
        } else {
            0
        };
        let chunk = PlannedChunk {
            chunk_id: chunks.len() as u64,
            logical_offset: start as u64,
            uncompressed_size: (end - start) as u64,
            first_line: first_line as u64,
            line_count: (line_end - first_line) as u64,
            flags,
        };
        chunks.push(chunk);
        proof {
            ends = ends.push(end as int);
        }
        start = end;
    }
    Ok(ChunkPlan {
        chunks,
        line_count: line_info.line_starts.len() as u64,
        newline_mode: line_info.newline_mode,
    })
}


/// Every chunk of `ends` is non-empty, within the maximum size, ends inside the
/// input without splitting a CRLF, and ends at an LF, at a UTF-8 boundary or at
/// the end of input.
pub open spec fn spec_chunk_ends_ok(input: Seq<u8>, ends: Seq<int>, o: ChunkerOptions) -> bool {
    forall|k: int|
        0 <= k < ends.len() ==> {
            let start = if k == 0 {
                0
            } else {
                ends[k - 1]
            };
            &&& start < #[trigger] ends[k] <= input.len()
            &&& ends[k] - start <= o.max_chunk_size
            &&& !spec_splits_crlf(input, ends[k])
            &&& (ends[k] == input.len() || input[ends[k] - 1] == 10 || spec_is_utf8_boundary(
                input,
                ends[k],
            ))
        }
}

proof fn lemma_plan_ends_props(input: Seq<u8>, start: int, acc: Seq<int>, o: ChunkerOptions)
    requires
        0 <= start <= input.len(),
        spec_options_valid(o),
        spec_plan_ends(input, start, acc, o) is Some,
        acc.len() == 0 ==> start == 0,
        acc.len() > 0 ==> acc.last() == start,
        spec_chunk_ends_ok(input, acc, o),
    ensures
        spec_chunk_ends_ok(input, spec_plan_ends(input, start, acc, o)->Some_0, o),
        input.len() > 0 ==> spec_plan_ends(input, start, acc, o)->Some_0.len() > 0
            && spec_plan_ends(input, start, acc, o)->Some_0.last() == input.len(),
    decreases input.len() - start,
{
    if start < input.len() {
        lemma_chunk_end_props(input, start, o);
        let e = spec_chunk_end(input, start, o)->Some_0;
        let acc2 = acc.push(e);
        assert forall|k: int| 0 <= k < acc2.len() implies {
            let st = if k == 0 {
                0
            } else {
                acc2[k - 1]
            };
            &&& st < #[trigger] acc2[k] <= input.len()
            &&& acc2[k] - st <= o.max_chunk_size
            &&& !spec_splits_crlf(input, acc2[k])
            &&& (acc2[k] == input.len() || input[acc2[k] - 1] == 10 || spec_is_utf8_boundary(
                input,
                acc2[k],
            ))
        } by {
            if k < acc.len() {
                assert(acc2[k] == acc[k]);
                if k > 0 {
                    assert(acc2[k - 1] == acc[k - 1]);
                }
            }
        }
        lemma_plan_ends_props(input, e, acc2, o);
    }
}

/// A plan covers the input exactly, chunk after chunk: the chunks are non-empty
/// and contiguous from offset zero to the end of input, none exceeds the
/// maximum chunk size, none ends inside a CRLF, and each ends at an LF, at a
/// UTF-8 boundary or at the end of input.
pub proof fn lemma_plan_partitions_input(input: Seq<u8>, o: ChunkerOptions)
    requires
        spec_options_valid(o),
        spec_plan_ends(input, 0, Seq::empty(), o) is Some,
    ensures
        spec_chunk_ends_ok(input, spec_plan_ends(input, 0, Seq::empty(), o)->Some_0, o),
        input.len() > 0 ==> spec_plan_ends(input, 0, Seq::empty(), o)->Some_0.len() > 0
            && spec_plan_ends(input, 0, Seq::empty(), o)->Some_0.last() == input.len(),
        input.len() == 0 ==> spec_plan_ends(input, 0, Seq::empty(), o)->Some_0.len() == 0,
{
    lemma_plan_ends_props(input, 0, Seq::empty(), o);
}

} // verus!
