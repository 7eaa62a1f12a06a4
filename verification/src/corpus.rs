//! Deterministic validation corpora: six classes of synthetic text drawn
//! from a 64-bit linear congruential generator.

use vstd::prelude::*;
use vstd::utf8::*;
use crate::bytes_util::{extend_bytes, text_from_utf8};
use crate::error::{QztError, Result};

verus! {

/// Validation corpus class.
#[derive(Debug, Clone, Copy, PartialEq, Eq, PartialOrd, Ord)]
#[non_exhaustive]
pub enum CorpusKind {
    /// C1 conversation transcripts.
    C1Conversation,
    /// C2 application and server logs.
    C2Logs,
    /// C3 prose documents and knowledge base.
    C3Prose,
    /// C4 source code and structured data.
    C4CodeStructured,
    /// C5 multilingual / CJK / emoji.
    C5Multilingual,
    /// C6 adversarial / pathological.
    C6Adversarial,
}

impl CorpusKind {
    /// Returns all validation corpus kinds in stable order.
    pub fn all() -> (r: [Self; 6])
        ensures
            r@ == seq![
                CorpusKind::C1Conversation,
                CorpusKind::C2Logs,
                CorpusKind::C3Prose,
                CorpusKind::C4CodeStructured,
                CorpusKind::C5Multilingual,
                CorpusKind::C6Adversarial,
            ],
    {
        let r = [
            CorpusKind::C1Conversation,
            CorpusKind::C2Logs,
            CorpusKind::C3Prose,
            CorpusKind::C4CodeStructured,
            CorpusKind::C5Multilingual,
            CorpusKind::C6Adversarial,
        ];
        assert(r@ =~= seq![
            CorpusKind::C1Conversation,
            CorpusKind::C2Logs,
            CorpusKind::C3Prose,
            CorpusKind::C4CodeStructured,
            CorpusKind::C5Multilingual,
            CorpusKind::C6Adversarial,
        ]);
        r
    }

    /// Stable corpus identifier.
    pub fn id(self) -> (r: &'static str)
        ensures
            r@ == spec_kind_id(self),
    {
        match self {
            CorpusKind::C1Conversation => "C1",
            CorpusKind::C2Logs => "C2",
            CorpusKind::C3Prose => "C3",
            CorpusKind::C4CodeStructured => "C4",
            CorpusKind::C5Multilingual => "C5",
            CorpusKind::C6Adversarial => "C6",
        }
    }
}

/// The identifier of a corpus kind.
pub open spec fn spec_kind_id(k: CorpusKind) -> Seq<char> {
    match k {
        CorpusKind::C1Conversation => "C1"@,
        CorpusKind::C2Logs => "C2"@,
        CorpusKind::C3Prose => "C3"@,
        CorpusKind::C4CodeStructured => "C4"@,
        CorpusKind::C5Multilingual => "C5"@,
        CorpusKind::C6Adversarial => "C6"@,
    }
}

/// Deterministic corpus generator options.
#[derive(Debug, Clone, Copy, PartialEq, Eq)]
pub struct ValidationCorpusOptions {
    /// Seed controlling generated values.
    pub seed: u64,
    /// Approximate output size in bytes.
    pub target_bytes: usize,
}

impl Default for ValidationCorpusOptions {
    /// Seed `0x515a5401` and 32 KiB.
    fn default() -> (r: Self)
        ensures
            r.seed == 0x515a_5401,
            r.target_bytes == 32768,
    {
        ValidationCorpusOptions { seed: 0x515a_5401, target_bytes: 32768 }
    }
}

// ---------------------------------------------------------------------------
// Text pieces
// ---------------------------------------------------------------------------

pub const CONV_A: &'static str = "## conversation-";
pub const CONV_B: &'static str = "\nuser: explain qzt evidence ref ";
pub const CONV_C: &'static str = "\nassistant: restore byte ranges, verify blake3, cite doc_id.\n```rust\nlet range = ";
pub const CONV_D: &'static str = "..";
pub const CONV_E: &'static str = ";\n```\n";
pub const LOG_A: &'static str = "2026-06-08T12:";
pub const LOG_B: &'static str = ":";
pub const LOG_C: &'static str = "Z level=";
pub const LOG_ERROR: &'static str = "error";
pub const LOG_INFO: &'static str = "info";
pub const LOG_D: &'static str = " service=qzt component=reader request_id=req-";
pub const LOG_E: &'static str = " message=bounded range restore rare-token-";
pub const WORD_TRUE: &'static str = "true";
pub const WORD_FALSE: &'static str = "false";
pub const NEWLINE: &'static str = "\n";
pub const BLANK_LINE: &'static str = "\n\n";
pub const PROSE_0: &'static str = "Cold evidence containers preserve original bytes while allowing small verified slices to be restored.";
pub const PROSE_1: &'static str = "A memory system can cite a document without trusting a mutable search index.";
pub const PROSE_2: &'static str = "The format separates immutable core data from rebuildable sidecars.";
pub const CODE_A: &'static str = "fn case_";
pub const CODE_B: &'static str = "() -> &'static str {\n    r#\"{\"id\":";
pub const CODE_C: &'static str = ",\"kind\":\"qzt\",\"ok\":true}\"#\n}\n";
pub const ADV_MIXED: &'static str = "\r\nmixed\nnewline\r\n";
pub const ADV_SINGLE: &'static str = "single-line-without-newline-";

/// The multilingual lines, as UTF-8.
pub open spec fn spec_multilingual_line(i: int) -> Seq<u8> {
    if i == 0 {
        encode_utf8("東京の証跡を復元します。😀\n"@)
    } else if i == 1 {
        encode_utf8("证据范围必须按字节验证。\n"@)
    } else if i == 2 {
        encode_utf8("라인 단위 검색과 범위 복원이 함께 동작합니다。\n"@)
    } else {
        encode_utf8("emoji 🔎📄✅ keep UTF-8 boundaries intact.\n"@)
    }
}

/// Decimal digits of `n`.
pub open spec fn spec_decimal(n: nat) -> Seq<u8>
    decreases n,
{
    if n < 10 {
        seq![(48 + n) as u8]
    } else {
        spec_decimal(n / 10) + seq![(48 + n % 10) as u8]
    }
}

/// Decimal digits of `n`, left-padded with zeros to at least `width`.
pub open spec fn spec_padded(n: nat, width: nat) -> Seq<u8> {
    if spec_decimal(n).len() >= width {
        spec_decimal(n)
    } else {
        Seq::new((width - spec_decimal(n).len()) as nat, |i: int| 48u8) + spec_decimal(n)
    }
}

/// Appends the decimal digits of `n`.
pub fn push_decimal(out: &mut Vec<u8>, n: u64)
    ensures
        final(out)@ == old(out)@ + spec_decimal(n as nat),
    decreases n,
{
    if n >= 10 {
        push_decimal(out, n / 10);
    }
    out.push((48 + n % 10) as u8);
    assert(final(out)@ =~= old(out)@ + spec_decimal(n as nat));
}

fn decimal_len(n: u64) -> (r: usize)
    ensures
        r == spec_decimal(n as nat).len(),
        1 <= r <= 20,
    decreases n,
{
    proof {
        lemma_decimal_len(n as nat);
    }
    if n >= 10 {
        decimal_len(n / 10) + 1
    } else {
        1
    }
}

proof fn lemma_decimal_len(n: nat)
    requires
        n <= u64::MAX,
    ensures
        1 <= spec_decimal(n).len() <= 20,
{
    reveal_with_fuel(pow10, 21);
    assert(pow10(20) == 100000000000000000000);
    lemma_decimal_len_small(n, 20);
}

proof fn lemma_decimal_len_small(n: nat, k: nat)
    requires
        n < pow10(k),
        k >= 1,
    ensures
        1 <= spec_decimal(n).len() <= k,
    decreases k,
{
    if n >= 10 {
        if k == 1 {
            assert(pow10(1) == 10) by {
                reveal_with_fuel(pow10, 2);
            }
        } else {
            assert(n / 10 < pow10((k - 1) as nat)) by (nonlinear_arith)
                requires
                    n < 10 * pow10((k - 1) as nat),
            ;
            lemma_decimal_len_small(n / 10, (k - 1) as nat);
        }
    }
}

/// `10` raised to `k`.
pub open spec fn pow10(k: nat) -> nat
    decreases k,
{
    if k == 0 {
        1
    } else {
        10 * pow10((k - 1) as nat)
    }
}

/// Appends the decimal digits of `n` padded with zeros to `width`.
pub fn push_padded(out: &mut Vec<u8>, n: u64, width: usize)
    ensures
        final(out)@ == old(out)@ + spec_padded(n as nat, width as nat),
{
    let len = decimal_len(n);
    let ghost start = out@;
    if len < width {
        let mut i: usize = 0;
        while i < width - len
            invariant
                len < width,
                i <= width - len,
                out@ == start + Seq::new(i as nat, |j: int| 48u8),
            decreases width - len - i,
        {
            out.push(48);
            i = i + 1;
            assert(out@ =~= start + Seq::new(i as nat, |j: int| 48u8));
        }
    }
    push_decimal(out, n);
    assert(final(out)@ =~= old(out)@ + spec_padded(n as nat, width as nat));
}

// ---------------------------------------------------------------------------
// The generator
// ---------------------------------------------------------------------------

/// One step of the generator's 64-bit LCG.
pub open spec fn spec_lcg_next(state: u64) -> u64 {
    vstd::wrapping::u64_specs::wrapping_add(
        vstd::wrapping::u64_specs::wrapping_mul(state, 6364136223846793005),
        1442695040888963407,
    )
}

/// The 32-bit output of the step after `state`.
pub open spec fn spec_lcg_output(state: u64) -> u32 {
    (spec_lcg_next(state) / 0x1_0000_0000) as u32
}

struct DeterministicRng {
    state: u64,
}

impl DeterministicRng {
    fn new(seed: u64) -> (r: Self)
        ensures
            r.state == seed | 1,
    {
        DeterministicRng { state: seed | 1 }
    }

    fn next_u32(&mut self) -> (r: u32)
        ensures
            final(self).state == spec_lcg_next(old(self).state),
            r == spec_lcg_output(old(self).state),
    {
        self.state = self.state.wrapping_mul(6364136223846793005).wrapping_add(1442695040888963407);
        (self.state / 0x1_0000_0000) as u32
    }

    fn index(&mut self, len: usize) -> (r: usize)
        requires
            len > 0,
        ensures
            final(self).state == spec_lcg_next(old(self).state),
            r == spec_lcg_output(old(self).state) as int % len as int,
    {
        (self.next_u32() as usize) % len
    }
}

/// The seed offset of a corpus kind.
pub open spec fn spec_kind_seed(k: CorpusKind) -> u64 {
    match k {
        CorpusKind::C1Conversation => 0xC1,
        CorpusKind::C2Logs => 0xC2,
        CorpusKind::C3Prose => 0xC3,
        CorpusKind::C4CodeStructured => 0xC4,
        CorpusKind::C5Multilingual => 0xC5,
        CorpusKind::C6Adversarial => 0xC6,
    }
}

fn kind_seed(kind: CorpusKind) -> (r: u64)
    ensures
        r == spec_kind_seed(kind),
{
    match kind {
        CorpusKind::C1Conversation => 0xC1,
        CorpusKind::C2Logs => 0xC2,
        CorpusKind::C3Prose => 0xC3,
        CorpusKind::C4CodeStructured => 0xC4,
        CorpusKind::C5Multilingual => 0xC5,
        CorpusKind::C6Adversarial => 0xC6,
    }
}

/// `n` printable bytes drawn from the generator, and its state after them.
pub open spec fn spec_printables(state: u64, n: nat) -> (Seq<u8>, u64)
    decreases n,
{
    if n == 0 {
        (Seq::empty(), state)
    } else {
        let (pre, s2) = spec_printables(state, (n - 1) as nat);
        (pre.push((33 + spec_lcg_output(s2) % 90) as u8), spec_lcg_next(s2))
    }
}

/// A conversation record for draw `x`.
pub open spec fn spec_conversation(x: u32) -> Seq<u8> {
    let turn = (x % 10000) as nat;
    encode_utf8(CONV_A@) + spec_decimal(turn) + encode_utf8(CONV_B@) + spec_decimal(turn) + encode_utf8(CONV_C@)
        + spec_decimal(turn) + encode_utf8(CONV_D@) + spec_decimal(turn + 128) + encode_utf8(CONV_E@)
}

/// A log record for draw `x`.
pub open spec fn spec_log(x: u32) -> Seq<u8> {
    let index = (x % 1000000) as nat;
    spec_log_head(index) + spec_log_tail(index)
}

/// Timestamp and level of a log record.
pub open spec fn spec_log_head(index: nat) -> Seq<u8> {
    encode_utf8(LOG_A@) + spec_padded(index % 60, 2) + encode_utf8(LOG_B@) + spec_padded((index / 60) % 60, 2)
        + encode_utf8(LOG_C@) + (if index % 257 == 0 {
        encode_utf8(LOG_ERROR@)
    } else {
        encode_utf8(LOG_INFO@)
    })
}

/// Request number and flag of a log record.
pub open spec fn spec_log_tail(index: nat) -> Seq<u8> {
    encode_utf8(LOG_D@) + spec_padded(index, 6) + encode_utf8(LOG_E@) + (if index % 997 == 0 {
        encode_utf8(WORD_TRUE@)
    } else {
        encode_utf8(WORD_FALSE@)
    }) + encode_utf8(NEWLINE@)
}

/// A prose record for draw `x`.
pub open spec fn spec_prose(x: u32) -> Seq<u8> {
    let i = x % 3;
    (if i == 0 {
        encode_utf8(PROSE_0@)
    } else if i == 1 {
        encode_utf8(PROSE_1@)
    } else {
        encode_utf8(PROSE_2@)
    }) + encode_utf8(BLANK_LINE@)
}

/// A code record for draw `x`.
pub open spec fn spec_code(x: u32) -> Seq<u8> {
    let id = (x % 10000) as nat;
    encode_utf8(CODE_A@) + spec_decimal(id) + encode_utf8(CODE_B@) + spec_decimal(id) + encode_utf8(CODE_C@)
}

/// An adversarial record from `state`, and the state after it.
pub open spec fn spec_adversarial(state: u64) -> (Seq<u8>, u64) {
    let c = spec_lcg_output(state) % 4;
    let s1 = spec_lcg_next(state);
    if c == 0 {
        (Seq::new(1024, |i: int| 97u8), s1)
    } else if c == 1 {
        (encode_utf8(ADV_MIXED@), s1)
    } else if c == 2 {
        let (p, s2) = spec_printables(s1, 128);
        (p.push(10u8), s2)
    } else {
        (encode_utf8(ADV_SINGLE@), s1)
    }
}

/// One record of a corpus kind and the generator state after it.
#[verifier::opaque]
pub open spec fn spec_record(kind: CorpusKind, state: u64) -> (Seq<u8>, u64) {
    let x = spec_lcg_output(state);
    let s1 = spec_lcg_next(state);
    match kind {
        CorpusKind::C1Conversation => (spec_conversation(x), s1),
        CorpusKind::C2Logs => (spec_log(x), s1),
        CorpusKind::C3Prose => (spec_prose(x), s1),
        CorpusKind::C4CodeStructured => (spec_code(x), s1),
        CorpusKind::C5Multilingual => (spec_multilingual_line((x % 4) as int), s1),
        CorpusKind::C6Adversarial => spec_adversarial(state),
    }
}

/// Records appended after `acc` until at least `target` bytes are there.
pub open spec fn spec_stream(kind: CorpusKind, state: u64, acc: Seq<u8>, target: nat) -> Seq<u8>
    decreases target - acc.len(),
{
    if acc.len() >= target {
        acc
    } else {
        let (rec, s2) = spec_record(kind, state);
        if rec.len() == 0 {
            acc
        } else if acc.len() + rec.len() >= target {
            acc + rec
        } else {
            spec_stream(kind, s2, acc + rec, target)
        }
    }
}

/// Drops trailing bytes until what is left is valid UTF-8.
pub open spec fn spec_trim_to_utf8(s: Seq<u8>) -> Seq<u8>
    decreases s.len(),
{
    if s.len() == 0 || valid_utf8(s) {
        s
    } else {
        spec_trim_to_utf8(s.drop_last())
    }
}

/// The corpus of a kind: records until the target is reached, cut to the
/// target, trimmed back to valid UTF-8, and a lone LF if nothing is left.
pub open spec fn spec_corpus(kind: CorpusKind, options: ValidationCorpusOptions) -> Seq<u8> {
    let stream = spec_stream(kind, (options.seed ^ spec_kind_seed(kind)) | 1, Seq::empty(), options.target_bytes as nat);
    let cut = if stream.len() > options.target_bytes {
        stream.subrange(0, options.target_bytes as int)
    } else {
        stream
    };
    let trimmed = spec_trim_to_utf8(cut);
    if trimmed.len() == 0 {
        encode_utf8(NEWLINE@)
    } else {
        trimmed
    }
}

fn push_conversation(output: &mut Vec<u8>, rng: &mut DeterministicRng)
    ensures
        final(output)@ == old(output)@ + spec_conversation(spec_lcg_output(old(rng).state)),
        final(rng).state == spec_lcg_next(old(rng).state),
{
    let turn = (rng.next_u32() % 10000) as u64;
    extend_bytes(output, CONV_A.as_bytes());
    push_decimal(output, turn);
    extend_bytes(output, CONV_B.as_bytes());
    push_decimal(output, turn);
    extend_bytes(output, CONV_C.as_bytes());
    push_decimal(output, turn);
    extend_bytes(output, CONV_D.as_bytes());
    push_decimal(output, turn + 128);
    extend_bytes(output, CONV_E.as_bytes());
    assert(output@ =~= old(output)@ + spec_conversation(spec_lcg_output(old(rng).state)));
}

fn push_log_head(output: &mut Vec<u8>, index: u64)
    ensures
        final(output)@ == old(output)@ + spec_log_head(index as nat),
{
    extend_bytes(output, LOG_A.as_bytes());
    push_padded(output, index % 60, 2);
    extend_bytes(output, LOG_B.as_bytes());
    push_padded(output, (index / 60) % 60, 2);
    extend_bytes(output, LOG_C.as_bytes());
    if index % 257 == 0 {
        extend_bytes(output, LOG_ERROR.as_bytes());
    } else {
        extend_bytes(output, LOG_INFO.as_bytes());
    }
    assert(output@ =~= old(output)@ + spec_log_head(index as nat));
}

fn push_log_tail(output: &mut Vec<u8>, index: u64)
    ensures
        final(output)@ == old(output)@ + spec_log_tail(index as nat),
{
    extend_bytes(output, LOG_D.as_bytes());
    push_padded(output, index, 6);
    extend_bytes(output, LOG_E.as_bytes());
    if index % 997 == 0 {
        extend_bytes(output, WORD_TRUE.as_bytes());
    } else {
        extend_bytes(output, WORD_FALSE.as_bytes());
    }
    extend_bytes(output, NEWLINE.as_bytes());
    assert(output@ =~= old(output)@ + spec_log_tail(index as nat));
}

fn push_log(output: &mut Vec<u8>, rng: &mut DeterministicRng)
    ensures
        final(output)@ == old(output)@ + spec_log(spec_lcg_output(old(rng).state)),
        final(rng).state == spec_lcg_next(old(rng).state),
{
    let index = (rng.next_u32() % 1000000) as u64;
    push_log_head(output, index);
    push_log_tail(output, index);
    assert(output@ =~= old(output)@ + spec_log(spec_lcg_output(old(rng).state)));
}

fn push_prose(output: &mut Vec<u8>, rng: &mut DeterministicRng)
    ensures
        final(output)@ == old(output)@ + spec_prose(spec_lcg_output(old(rng).state)),
        final(rng).state == spec_lcg_next(old(rng).state),
{
    let i = rng.index(3);
    if i == 0 {
        extend_bytes(output, PROSE_0.as_bytes());
    } else if i == 1 {
        extend_bytes(output, PROSE_1.as_bytes());
    } else {
        extend_bytes(output, PROSE_2.as_bytes());
    }
    extend_bytes(output, BLANK_LINE.as_bytes());
    assert(output@ =~= old(output)@ + spec_prose(spec_lcg_output(old(rng).state)));
}

fn push_code_structured(output: &mut Vec<u8>, rng: &mut DeterministicRng)
    ensures
        final(output)@ == old(output)@ + spec_code(spec_lcg_output(old(rng).state)),
        final(rng).state == spec_lcg_next(old(rng).state),
{
    let id = (rng.next_u32() % 10000) as u64;
    extend_bytes(output, CODE_A.as_bytes());
    push_decimal(output, id);
    extend_bytes(output, CODE_B.as_bytes());
    push_decimal(output, id);
    extend_bytes(output, CODE_C.as_bytes());
    assert(output@ =~= old(output)@ + spec_code(spec_lcg_output(old(rng).state)));
}

fn push_multilingual(output: &mut Vec<u8>, rng: &mut DeterministicRng)
    ensures
        final(output)@ == old(output)@ + spec_multilingual_line((spec_lcg_output(old(rng).state) % 4) as int),
        final(rng).state == spec_lcg_next(old(rng).state),
{
    let i = rng.index(4);
    let line: &str = if i == 0 {
        "東京の証跡を復元します。😀\n"
    } else if i == 1 {
        "证据范围必须按字节验证。\n"
    } else if i == 2 {
        "라인 단위 검색과 범위 복원이 함께 동작합니다。\n"
    } else {
        "emoji 🔎📄✅ keep UTF-8 boundaries intact.\n"
    };
    extend_bytes(output, line.as_bytes());
}

fn push_adversarial(output: &mut Vec<u8>, rng: &mut DeterministicRng)
    ensures
        final(output)@ == old(output)@ + spec_adversarial(old(rng).state).0,
        final(rng).state == spec_adversarial(old(rng).state).1,
{
    let c = rng.next_u32() % 4;
    if c == 0 {
        let ghost start = output@;
        let mut i: usize = 0;
        while i < 1024
            invariant
                i <= 1024,
                output@ == start + Seq::new(i as nat, |j: int| 97u8),
            decreases 1024 - i,
        {
            output.push(97);
            i = i + 1;
            assert(output@ =~= start + Seq::new(i as nat, |j: int| 97u8));
        }
    } else if c == 1 {
        extend_bytes(output, ADV_MIXED.as_bytes());
    } else if c == 2 {
        let ghost start = output@;
        let ghost s1 = rng.state;
        let mut i: usize = 0;
        while i < 128
            invariant
                i <= 128,
                output@ == start + spec_printables(s1, i as nat).0,
                rng.state == spec_printables(s1, i as nat).1,
            decreases 128 - i,
        {
            let b = (33 + rng.next_u32() % 90) as u8;
            output.push(b);
            i = i + 1;
            assert(output@ =~= start + spec_printables(s1, i as nat).0);
        }
        output.push(10);
        assert(output@ =~= start + spec_printables(s1, 128).0.push(10u8));
    } else {
        extend_bytes(output, ADV_SINGLE.as_bytes());
    }
}

fn push_record(output: &mut Vec<u8>, rng: &mut DeterministicRng, kind: CorpusKind)
    ensures
        final(output)@ == old(output)@ + spec_record(kind, old(rng).state).0,
        final(rng).state == spec_record(kind, old(rng).state).1,
{
    proof {
        reveal(spec_record);
    }
    match kind {
        CorpusKind::C1Conversation => push_conversation(output, rng),
        CorpusKind::C2Logs => push_log(output, rng),
        CorpusKind::C3Prose => push_prose(output, rng),
        CorpusKind::C4CodeStructured => push_code_structured(output, rng),
        CorpusKind::C5Multilingual => push_multilingual(output, rng),
        CorpusKind::C6Adversarial => push_adversarial(output, rng),
    }
}

/// Generates a deterministic validation corpus; refuses a zero target.
pub fn generate_validation_corpus(kind: CorpusKind, options: ValidationCorpusOptions) -> (r: Result<Vec<u8>>)
    ensures
        options.target_bytes == 0 ==> r == Err::<Vec<u8>, QztError>(QztError::ResourceLimitExceeded),
        options.target_bytes > 0 ==> (r matches Ok(v) && v@ == spec_corpus(kind, options)),
{
    if options.target_bytes == 0 {
        return Err(QztError::ResourceLimitExceeded);
    }
    let mut rng = DeterministicRng::new(options.seed ^ kind_seed(kind));
    let mut output: Vec<u8> = Vec::new();
    let target = options.target_bytes;
    let ghost s0 = rng.state;
    while output.len() < target
        invariant
            spec_stream(kind, s0, Seq::empty(), target as nat) == spec_stream(kind, rng.state, output@, target as nat),
        decreases (if output@.len() < target { target - output@.len() } else { 0int }),
    {
        let ghost before = output@;
        let ghost state_before = rng.state;
        push_record(&mut output, &mut rng, kind);
        proof {
            lemma_record_nonempty(kind, state_before);
        }
    }
    assert(output@ == spec_stream(kind, s0, Seq::empty(), target as nat));
    let ghost stream = output@;
    output.truncate(target);
    let ghost cut = if stream.len() > target { stream.subrange(0, target as int) } else { stream };
    assert(output@ =~= cut);
    let mut done = output.len() == 0 || text_from_utf8(output.as_slice()).is_some();
    while !done
        invariant
            spec_trim_to_utf8(output@) == spec_trim_to_utf8(cut),
            done == (output@.len() == 0 || valid_utf8(output@)),
        decreases output@.len(),
    {
        let ghost prev = output@;
        output.pop();
        assert(output@ =~= prev.drop_last());
        done = output.len() == 0 || text_from_utf8(output.as_slice()).is_some();
    }
    assert(spec_trim_to_utf8(output@) == output@);
    if output.len() == 0 {
        extend_bytes(&mut output, NEWLINE.as_bytes());
        assert(output@ =~= encode_utf8(NEWLINE@));
    }
    Ok(output)
}

proof fn lemma_encode_utf8_nonempty(s: Seq<char>)
    requires
        s.len() > 0,
    ensures
        encode_utf8(s).len() > 0,
{
}

proof fn lemma_record_nonempty(kind: CorpusKind, state: u64)
    ensures
        spec_record(kind, state).0.len() > 0,
{
    reveal(spec_record);
    reveal_strlit(";\n```\n");
    reveal_strlit("\n");
    reveal_strlit("\n\n");
    reveal_strlit(",\"kind\":\"qzt\",\"ok\":true}\"#\n}\n");
    reveal_strlit("\r\nmixed\nnewline\r\n");
    reveal_strlit("single-line-without-newline-");
    reveal_strlit("東京の証跡を復元します。😀\n");
    reveal_strlit("证据范围必须按字节验证。\n");
    reveal_strlit("라인 단위 검색과 범위 복원이 함께 동작합니다。\n");
    reveal_strlit("emoji 🔎📄✅ keep UTF-8 boundaries intact.\n");
    lemma_encode_utf8_nonempty(CONV_E@);
    lemma_encode_utf8_nonempty(NEWLINE@);
    lemma_encode_utf8_nonempty(BLANK_LINE@);
    lemma_encode_utf8_nonempty(CODE_C@);
    lemma_encode_utf8_nonempty(ADV_MIXED@);
    lemma_encode_utf8_nonempty(ADV_SINGLE@);
    lemma_encode_utf8_nonempty("東京の証跡を復元します。😀\n"@);
    lemma_encode_utf8_nonempty("证据范围必须按字节验证。\n"@);
    lemma_encode_utf8_nonempty("라인 단위 검색과 범위 복원이 함께 동작합니다。\n"@);
    lemma_encode_utf8_nonempty("emoji 🔎📄✅ keep UTF-8 boundaries intact.\n"@);
    if kind == CorpusKind::C6Adversarial && spec_lcg_output(state) % 4 == 2 {
        let (p, s2) = spec_printables(spec_lcg_next(state), 128);
        assert(p.push(10u8).len() > 0);
    }
}

/// Trimming keeps a prefix, and what it keeps is valid UTF-8 or empty.
proof fn lemma_trim_facts(s: Seq<u8>)
    ensures
        spec_trim_to_utf8(s).len() <= s.len(),
        spec_trim_to_utf8(s) == s.subrange(0, spec_trim_to_utf8(s).len() as int),
        spec_trim_to_utf8(s).len() == 0 || valid_utf8(spec_trim_to_utf8(s)),
    decreases s.len(),
{
    if s.len() == 0 {
        assert(s.subrange(0, 0) =~= s);
    } else if valid_utf8(s) {
        assert(s.subrange(0, s.len() as int) =~= s);
    } else {
        lemma_trim_facts(s.drop_last());
        let t = spec_trim_to_utf8(s.drop_last());
        assert(s.drop_last().subrange(0, t.len() as int) =~= s.subrange(0, t.len() as int));
    }
}

/// A validation corpus is valid UTF-8, never empty, and never longer than its
/// target; equal kinds and options give equal corpora.
pub proof fn lemma_corpus_is_utf8_within_target(kind: CorpusKind, options: ValidationCorpusOptions)
    requires
        options.target_bytes > 0,
    ensures
        valid_utf8(spec_corpus(kind, options)),
        1 <= spec_corpus(kind, options).len() <= options.target_bytes,
{
    let stream = spec_stream(kind, (options.seed ^ spec_kind_seed(kind)) | 1, Seq::empty(), options.target_bytes as nat);
    let cut = if stream.len() > options.target_bytes {
        stream.subrange(0, options.target_bytes as int)
    } else {
        stream
    };
    lemma_trim_facts(cut);
    let trimmed = spec_trim_to_utf8(cut);
    if trimmed.len() == 0 {
        reveal_strlit("\n");
        assert(NEWLINE@ =~= seq!['\n']);
        assert(NEWLINE@.drop_first() =~= Seq::<char>::empty());
        assert(encode_utf8(NEWLINE@.drop_first()) =~= Seq::<u8>::empty());
        assert(has_width_1_encoding(NEWLINE@[0] as u32));
        assert(encode_utf8(NEWLINE@).len() == 1);
        encode_utf8_valid_utf8(NEWLINE@);
    }
}

/// A sequence of ASCII bytes is valid UTF-8.
proof fn lemma_ascii_valid(s: Seq<u8>)
    requires
        forall|i: int| 0 <= i < s.len() ==> #[trigger] s[i] < 128,
    ensures
        valid_utf8(s),
{
    assert(s.subrange(0, 0) =~= Seq::<u8>::empty());
    assert(partial_valid_utf8(s, 0));
    assert forall|i: int| 0 <= 0 <= i < s.len() <= s.len() implies #[trigger] is_leading_byte_width_1(s[i]) by {
        assert(s[i] < 128);
    }
    partial_valid_utf8_extend_ascii_block(s, 0, s.len() as int);
    assert(s.subrange(0, s.len() as int) =~= s);
}

/// Decimal digits are ASCII.
proof fn lemma_decimal_ascii(n: nat)
    ensures
        forall|i: int| 0 <= i < spec_decimal(n).len() ==> #[trigger] spec_decimal(n)[i] < 128,
    decreases n,
{
    if n >= 10 {
        lemma_decimal_ascii(n / 10);
        assert forall|i: int| 0 <= i < spec_decimal(n).len() implies #[trigger] spec_decimal(n)[i] < 128 by {
            if i < spec_decimal(n / 10).len() {
                assert(spec_decimal(n)[i] == spec_decimal(n / 10)[i]);
            }
        }
    }
}

/// Decimal digits, padded or not, are valid UTF-8.
proof fn lemma_numbers_valid(n: nat, width: nat)
    ensures
        valid_utf8(spec_decimal(n)),
        valid_utf8(spec_padded(n, width)),
{
    lemma_decimal_ascii(n);
    lemma_ascii_valid(spec_decimal(n));
    let p = spec_padded(n, width);
    assert forall|i: int| 0 <= i < p.len() implies #[trigger] p[i] < 128 by {
        if spec_decimal(n).len() < width && i >= width - spec_decimal(n).len() {
            assert(p[i] == spec_decimal(n)[i - (width - spec_decimal(n).len())]);
        }
    }
    lemma_ascii_valid(p);
}

/// Printable draws are ASCII.
proof fn lemma_printables_ascii(state: u64, n: nat)
    ensures
        forall|i: int| 0 <= i < spec_printables(state, n).0.len() ==> #[trigger] spec_printables(state, n).0[i] < 128,
    decreases n,
{
    if n > 0 {
        lemma_printables_ascii(state, (n - 1) as nat);
        let (pre, s2) = spec_printables(state, (n - 1) as nat);
        let q = spec_printables(state, n).0;
        assert forall|i: int| 0 <= i < q.len() implies #[trigger] q[i] < 128 by {
            if i < pre.len() {
                assert(q[i] == pre[i]);
            }
        }
    }
}

proof fn lemma_conversation_valid(x: u32)
    ensures
        valid_utf8(spec_conversation(x)),
{
    let turn = (x % 10000) as nat;
    lemma_numbers_valid(turn, 0);
    lemma_numbers_valid(turn + 128, 0);
    encode_utf8_valid_utf8(CONV_A@);
    encode_utf8_valid_utf8(CONV_B@);
    encode_utf8_valid_utf8(CONV_C@);
    encode_utf8_valid_utf8(CONV_D@);
    encode_utf8_valid_utf8(CONV_E@);
    let p1 = encode_utf8(CONV_A@) + spec_decimal(turn);
    valid_utf8_concat(encode_utf8(CONV_A@), spec_decimal(turn));
    let p2 = p1 + encode_utf8(CONV_B@);
    valid_utf8_concat(p1, encode_utf8(CONV_B@));
    let p3 = p2 + spec_decimal(turn);
    valid_utf8_concat(p2, spec_decimal(turn));
    let p4 = p3 + encode_utf8(CONV_C@);
    valid_utf8_concat(p3, encode_utf8(CONV_C@));
    let p5 = p4 + spec_decimal(turn);
    valid_utf8_concat(p4, spec_decimal(turn));
    let p6 = p5 + encode_utf8(CONV_D@);
    valid_utf8_concat(p5, encode_utf8(CONV_D@));
    let p7 = p6 + spec_decimal(turn + 128);
    valid_utf8_concat(p6, spec_decimal(turn + 128));
    valid_utf8_concat(p7, encode_utf8(CONV_E@));
}

proof fn lemma_log_valid(x: u32)
    ensures
        valid_utf8(spec_log(x)),
{
    let index = (x % 1000000) as nat;
    lemma_numbers_valid(index % 60, 2);
    lemma_numbers_valid((index / 60) % 60, 2);
    lemma_numbers_valid(index, 6);
    encode_utf8_valid_utf8(LOG_A@);
    encode_utf8_valid_utf8(LOG_B@);
    encode_utf8_valid_utf8(LOG_C@);
    encode_utf8_valid_utf8(LOG_D@);
    encode_utf8_valid_utf8(LOG_E@);
    encode_utf8_valid_utf8(LOG_ERROR@);
    encode_utf8_valid_utf8(LOG_INFO@);
    encode_utf8_valid_utf8(WORD_TRUE@);
    encode_utf8_valid_utf8(WORD_FALSE@);
    encode_utf8_valid_utf8(NEWLINE@);
    let level = if index % 257 == 0 { encode_utf8(LOG_ERROR@) } else { encode_utf8(LOG_INFO@) };
    let h1 = encode_utf8(LOG_A@) + spec_padded(index % 60, 2);
    valid_utf8_concat(encode_utf8(LOG_A@), spec_padded(index % 60, 2));
    let h2 = h1 + encode_utf8(LOG_B@);
    valid_utf8_concat(h1, encode_utf8(LOG_B@));
    let h3 = h2 + spec_padded((index / 60) % 60, 2);
    valid_utf8_concat(h2, spec_padded((index / 60) % 60, 2));
    let h4 = h3 + encode_utf8(LOG_C@);
    valid_utf8_concat(h3, encode_utf8(LOG_C@));
    valid_utf8_concat(h4, level);
    assert(spec_log_head(index) == h4 + level);
    let flag = if index % 997 == 0 { encode_utf8(WORD_TRUE@) } else { encode_utf8(WORD_FALSE@) };
    let t1 = encode_utf8(LOG_D@) + spec_padded(index, 6);
    valid_utf8_concat(encode_utf8(LOG_D@), spec_padded(index, 6));
    let t2 = t1 + encode_utf8(LOG_E@);
    valid_utf8_concat(t1, encode_utf8(LOG_E@));
    let t3 = t2 + flag;
    valid_utf8_concat(t2, flag);
    valid_utf8_concat(t3, encode_utf8(NEWLINE@));
    assert(spec_log_tail(index) == t3 + encode_utf8(NEWLINE@));
    valid_utf8_concat(spec_log_head(index), spec_log_tail(index));
}

proof fn lemma_prose_valid(x: u32)
    ensures
        valid_utf8(spec_prose(x)),
{
    broadcast use encode_utf8_valid_utf8, valid_utf8_concat;
}

proof fn lemma_code_valid(x: u32)
    ensures
        valid_utf8(spec_code(x)),
{
    let id = (x % 10000) as nat;
    lemma_numbers_valid(id, 0);
    encode_utf8_valid_utf8(CODE_A@);
    encode_utf8_valid_utf8(CODE_B@);
    encode_utf8_valid_utf8(CODE_C@);
    let c1 = encode_utf8(CODE_A@) + spec_decimal(id);
    valid_utf8_concat(encode_utf8(CODE_A@), spec_decimal(id));
    let c2 = c1 + encode_utf8(CODE_B@);
    valid_utf8_concat(c1, encode_utf8(CODE_B@));
    let c3 = c2 + spec_decimal(id);
    valid_utf8_concat(c2, spec_decimal(id));
    valid_utf8_concat(c3, encode_utf8(CODE_C@));
}

proof fn lemma_multilingual_valid(i: int)
    ensures
        valid_utf8(spec_multilingual_line(i)),
{
    broadcast use encode_utf8_valid_utf8;
}

proof fn lemma_adversarial_valid(state: u64)
    ensures
        valid_utf8(spec_adversarial(state).0),
{
    broadcast use encode_utf8_valid_utf8;
    let c = spec_lcg_output(state) % 4;
    if c == 0 {
        lemma_ascii_valid(Seq::new(1024, |i: int| 97u8));
    } else if c == 2 {
        let (p, s2) = spec_printables(spec_lcg_next(state), 128);
        lemma_printables_ascii(spec_lcg_next(state), 128);
        assert forall|i: int| 0 <= i < p.push(10u8).len() implies #[trigger] p.push(10u8)[i] < 128 by {
            if i < p.len() {
                assert(p.push(10u8)[i] == p[i]);
            }
        }
        lemma_ascii_valid(p.push(10u8));
    }
}

/// Every record of every kind is valid UTF-8.
proof fn lemma_record_valid(kind: CorpusKind, state: u64)
    ensures
        valid_utf8(spec_record(kind, state).0),
{
    reveal(spec_record);
    let x = spec_lcg_output(state);
    match kind {
        CorpusKind::C1Conversation => lemma_conversation_valid(x),
        CorpusKind::C2Logs => lemma_log_valid(x),
        CorpusKind::C3Prose => lemma_prose_valid(x),
        CorpusKind::C4CodeStructured => lemma_code_valid(x),
        CorpusKind::C5Multilingual => lemma_multilingual_valid((x % 4) as int),
        CorpusKind::C6Adversarial => lemma_adversarial_valid(state),
    }
}

/// The record stream is valid UTF-8 and reaches its target.
proof fn lemma_stream_valid(kind: CorpusKind, state: u64, acc: Seq<u8>, target: nat)
    requires
        valid_utf8(acc),
    ensures
        valid_utf8(spec_stream(kind, state, acc, target)),
        spec_stream(kind, state, acc, target).len() >= target,
    decreases target - acc.len(),
{
    broadcast use valid_utf8_concat;
    if acc.len() < target {
        let (rec, s2) = spec_record(kind, state);
        lemma_record_valid(kind, state);
        lemma_record_nonempty(kind, state);
        if acc.len() + rec.len() < target {
            lemma_stream_valid(kind, s2, acc + rec, target);
        }
    }
}

/// Within any three bytes before a position of valid UTF-8 lies a character boundary.
proof fn lemma_boundary_near(b: Seq<u8>, i: int) -> (j: int)
    requires
        valid_utf8(b),
        0 <= i <= b.len(),
    ensures
        0 <= j <= i,
        i - 3 <= j,
        is_char_boundary(b, j),
    decreases b.len(),
{
    if i <= 3 {
        0
    } else {
        let l = length_of_first_scalar(b);
        if i < l {
            0
        } else {
            let t = pop_first_scalar(b);
            assert(t.len() == b.len() - l);
            let k = lemma_boundary_near(t, i - l);
            assert(is_char_boundary(b, k + l)) by {
                if k + l > 0 {
                    assert(pop_first_scalar(b) == t);
                }
            }
            k + l
        }
    }
}

/// Trimming never cuts into a prefix that is already valid UTF-8.
proof fn lemma_trim_keeps(s: Seq<u8>, j: int)
    requires
        0 <= j <= s.len(),
        valid_utf8(s.subrange(0, j)),
    ensures
        spec_trim_to_utf8(s).len() >= j,
    decreases s.len(),
{
    if s.len() > 0 && !valid_utf8(s) {
        if j == s.len() {
            assert(s.subrange(0, j) =~= s);
        }
        assert(s.drop_last().subrange(0, j) =~= s.subrange(0, j));
        lemma_trim_keeps(s.drop_last(), j);
    }
}

/// A validation corpus loses at most three bytes of its target: the trim back
/// to a character boundary.
pub proof fn lemma_corpus_reaches_target(kind: CorpusKind, options: ValidationCorpusOptions)
    requires
        options.target_bytes > 0,
    ensures
        spec_corpus(kind, options).len() >= options.target_bytes - 3,
{
    let target = options.target_bytes as nat;
    let stream = spec_stream(kind, (options.seed ^ spec_kind_seed(kind)) | 1, Seq::empty(), target);
    assert(valid_utf8(Seq::<u8>::empty()));
    lemma_stream_valid(kind, (options.seed ^ spec_kind_seed(kind)) | 1, Seq::empty(), target);
    let cut = if stream.len() > options.target_bytes {
        stream.subrange(0, options.target_bytes as int)
    } else {
        stream
    };
    assert(cut.len() == target);
    let j = lemma_boundary_near(stream, target as int);
    valid_utf8_split(stream, j);
    assert(cut.subrange(0, j) =~= stream.subrange(0, j));
    lemma_trim_keeps(cut, j);
    lemma_corpus_is_utf8_within_target(kind, options);
}

} // verus!
