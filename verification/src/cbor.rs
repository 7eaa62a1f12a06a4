//! Deterministic CBOR: the value model, the canonical encoding, and a
//! validating decoder whose accepted inputs are exactly canonical encodings.

use vstd::prelude::*;
use vstd::utf8::*;
use vstd::string::*;
use crate::error::{QztError, Result};
use crate::bytes_util::{slice_to_vec, text_from_utf8};

verus! {

/// Aggregate allocation budget of one default decode (16 MiB).
pub const MAX_PHASE1_ALLOCATION: u64 = 16777216;

/// Aggregate value budget of one default decode.
pub const MAX_PHASE1_ITEMS: u64 = 1000000;

/// Deepest container nesting a decoder accepts.
pub const MAX_CBOR_DEPTH: u64 = 64;

/// Small CBOR value model for deterministic validation and schema checks.
#[derive(Debug, PartialEq, Eq)]
pub enum CborValue {
    Integer(i128),
    Bytes(Vec<u8>),
    Text(String),
    Array(Vec<CborValue>),
    Mapping(Vec<(CborValue, CborValue)>),
    Bool(bool),
    Null,
}

/// Budgets for one decode: aggregate payload/key-copy bytes and aggregate values.
#[derive(Debug, Clone, Copy, PartialEq, Eq)]
pub struct CborLimits {
    pub max_allocation: u64,
    pub max_items: u64,
}

/// What a CBOR value denotes: integers as mathematical integers, text as characters.
pub enum CborItem {
    Int(int),
    Bytes(Seq<u8>),
    Text(Seq<char>),
    Array(Seq<CborItem>),
    Mapping(Seq<(CborItem, CborItem)>),
    Bool(bool),
    Null,
}

/// The item a CBOR value denotes.
pub open spec fn cbor_item(v: CborValue) -> CborItem
    decreases v,
{
    match v {
        CborValue::Integer(i) => CborItem::Int(i as int),
        CborValue::Bytes(b) => CborItem::Bytes(b@),
        CborValue::Text(t) => CborItem::Text(t@),
        CborValue::Array(vs) => {
            proof {
                assert(decreases_to!(v => vs));
                assert(decreases_to!(vs => vs@));
            }
            CborItem::Array(cbor_items(vs@))
        },
        CborValue::Mapping(es) => {
            proof {
                assert(decreases_to!(v => es));
                assert(decreases_to!(es => es@));
            }
            CborItem::Mapping(cbor_entries(es@))
        },
        CborValue::Bool(b) => CborItem::Bool(b),
        CborValue::Null => CborItem::Null,
    }
}

/// Items denoted by a sequence of values.
pub open spec fn cbor_items(s: Seq<CborValue>) -> Seq<CborItem>
    decreases s,
{
    if s.len() == 0 {
        Seq::empty()
    } else {
        proof {
            assert(decreases_to!(s => s[s.len() - 1]));
        }
        cbor_items(s.drop_last()).push(cbor_item(s.last()))
    }
}

/// Key/value items denoted by a sequence of map entries.
pub open spec fn cbor_entries(s: Seq<(CborValue, CborValue)>) -> Seq<(CborItem, CborItem)>
    decreases s,
{
    if s.len() == 0 {
        Seq::empty()
    } else {
        proof {
            assert(decreases_to!(s => s[s.len() - 1]));
            assert(decreases_to!(s[s.len() - 1] => s[s.len() - 1].0));
            assert(decreases_to!(s[s.len() - 1] => s[s.len() - 1].1));
        }
        cbor_entries(s.drop_last()).push((cbor_item(s.last().0), cbor_item(s.last().1)))
    }
}

impl View for CborValue {
    type V = CborItem;

    open spec fn view(&self) -> CborItem {
        cbor_item(*self)
    }
}


// ---------------------------------------------------------------------------
// The canonical encoding
// ---------------------------------------------------------------------------

/// `n` big-endian bytes holding the low `8 * n` bits of `value`.
pub open spec fn spec_be_bytes(value: nat, n: nat) -> Seq<u8>
    decreases n,
{
    if n == 0 {
        Seq::empty()
    } else {
        spec_be_bytes(value / 256, (n - 1) as nat).push((value % 256) as u8)
    }
}

/// The number that big-endian bytes denote.
pub open spec fn spec_be_value(s: Seq<u8>) -> nat
    decreases s.len(),
{
    if s.len() == 0 {
        0
    } else {
        spec_be_value(s.drop_last()) * 256 + s.last() as nat
    }
}

/// Initial byte and shortest argument for major type `major` and argument `arg`.
pub open spec fn spec_head(major: u8, arg: nat) -> Seq<u8> {
    let p = major as nat * 32;
    if arg < 24 {
        seq![(p + arg) as u8]
    } else if arg < 0x100 {
        seq![(p + 24) as u8] + spec_be_bytes(arg, 1)
    } else if arg < 0x10000 {
        seq![(p + 25) as u8] + spec_be_bytes(arg, 2)
    } else if arg < 0x1_0000_0000 {
        seq![(p + 26) as u8] + spec_be_bytes(arg, 4)
    } else {
        seq![(p + 27) as u8] + spec_be_bytes(arg, 8)
    }
}

/// The deterministic encoding of an item, map entries taken in the order given.
pub open spec fn spec_encode(item: CborItem) -> Seq<u8>
    decreases item,
{
    match item {
        CborItem::Int(i) => if i >= 0 {
            spec_head(0, i as nat)
        } else {
            spec_head(1, (-1 - i) as nat)
        },
        CborItem::Bytes(b) => spec_head(2, b.len()) + b,
        CborItem::Text(t) => spec_head(3, encode_utf8(t).len()) + encode_utf8(t),
        CborItem::Array(vs) => spec_head(4, vs.len()) + spec_encode_items(vs),
        CborItem::Mapping(es) => spec_head(5, es.len()) + spec_encode_entries(es),
        CborItem::Bool(b) => if b {
            seq![0xf5u8]
        } else {
            seq![0xf4u8]
        },
        CborItem::Null => seq![0xf6u8],
    }
}

/// Concatenated encodings of a sequence of items.
pub open spec fn spec_encode_items(s: Seq<CborItem>) -> Seq<u8>
    decreases s,
{
    if s.len() == 0 {
        Seq::empty()
    } else {
        proof {
            assert(decreases_to!(s => s[s.len() - 1]));
        }
        spec_encode_items(s.drop_last()) + spec_encode(s.last())
    }
}

/// Concatenated key-then-value encodings of a sequence of map entries.
pub open spec fn spec_encode_entries(s: Seq<(CborItem, CborItem)>) -> Seq<u8>
    decreases s,
{
    if s.len() == 0 {
        Seq::empty()
    } else {
        proof {
            assert(decreases_to!(s => s[s.len() - 1]));
            assert(decreases_to!(s[s.len() - 1] => s[s.len() - 1].0));
            assert(decreases_to!(s[s.len() - 1] => s[s.len() - 1].1));
        }
        spec_encode_entries(s.drop_last()) + spec_encode(s.last().0) + spec_encode(s.last().1)
    }
}

/// Bytewise lexicographic order, a proper prefix coming first.
pub open spec fn spec_lex_lt(a: Seq<u8>, b: Seq<u8>) -> bool
    decreases a.len(),
{
    if a.len() == 0 {
        b.len() > 0
    } else if b.len() == 0 {
        false
    } else if a[0] != b[0] {
        a[0] < b[0]
    } else {
        spec_lex_lt(a.drop_first(), b.drop_first())
    }
}

/// An item that the deterministic profile can carry: integers in the CBOR
/// range, lengths that fit the argument, and map keys in strictly increasing
/// encoded order.
pub open spec fn spec_canonical(item: CborItem) -> bool
    decreases item,
{
    match item {
        CborItem::Int(i) => -0x1_0000_0000_0000_0000 <= i < 0x1_0000_0000_0000_0000,
        CborItem::Bytes(b) => b.len() < 0x1_0000_0000_0000_0000,
        CborItem::Text(t) => encode_utf8(t).len() < 0x1_0000_0000_0000_0000,
        CborItem::Array(vs) => vs.len() < 0x1_0000_0000_0000_0000 && spec_canonical_items(vs),
        CborItem::Mapping(es) => es.len() < 0x1_0000_0000_0000_0000 && spec_canonical_entries(es),
        _ => true,
    }
}

/// Every item of the sequence is canonical.
pub open spec fn spec_canonical_items(s: Seq<CborItem>) -> bool
    decreases s,
{
    if s.len() == 0 {
        true
    } else {
        proof {
            assert(decreases_to!(s => s[s.len() - 1]));
        }
        spec_canonical_items(s.drop_last()) && spec_canonical(s.last())
    }
}

/// Every key and value is canonical and each key encodes strictly after the previous one.
pub open spec fn spec_canonical_entries(s: Seq<(CborItem, CborItem)>) -> bool
    decreases s,
{
    if s.len() == 0 {
        true
    } else {
        proof {
            assert(decreases_to!(s => s[s.len() - 1]));
            assert(decreases_to!(s[s.len() - 1] => s[s.len() - 1].0));
            assert(decreases_to!(s[s.len() - 1] => s[s.len() - 1].1));
        }
        &&& spec_canonical_entries(s.drop_last())
        &&& spec_canonical(s.last().0)
        &&& spec_canonical(s.last().1)
        &&& (s.len() >= 2 ==> spec_lex_lt(
            spec_encode(s[s.len() - 2].0),
            spec_encode(s.last().0),
        ))
    }
}

// ---------------------------------------------------------------------------
// The decoder, stated over the bytes
// ---------------------------------------------------------------------------

/// Remaining budgets of a decode in progress.
#[derive(Debug, Clone, Copy, PartialEq, Eq)]
pub struct Budget {
    pub alloc: u64,
    pub items: u64,
}

/// Reads the argument of a head whose additional information is `ai`, starting at `pos`.
pub open spec fn spec_arg(s: Seq<u8>, pos: int, ai: u8) -> Result<(nat, int)> {
    if ai < 24 {
        Ok((ai as nat, pos))
    } else if ai <= 27 {
        let n: int = if ai == 24 {
            1
        } else if ai == 25 {
            2
        } else if ai == 26 {
            4
        } else {
            8
        };
        let min: nat = if ai == 24 {
            24
        } else if ai == 25 {
            0x100
        } else if ai == 26 {
            0x10000
        } else {
            0x1_0000_0000
        };
        if pos + n > s.len() {
            Err(QztError::UnexpectedEof)
        } else if spec_be_value(s.subrange(pos, pos + n)) < min {
            Err(QztError::NonCanonicalCbor)
        } else {
            Ok((spec_be_value(s.subrange(pos, pos + n)), pos + n))
        }
    } else {
        Err(QztError::NonCanonicalCbor)
    }
}

/// Decodes one value at `pos`, at container depth `depth`, within budget `b`.
/// On success gives the item, the position after it and the budget left.
pub open spec fn spec_parse_value(s: Seq<u8>, pos: int, depth: nat, b: Budget) -> Result<
    (CborItem, int, Budget),
>
    decreases s.len() - pos, 1int, 0int,
{
    if pos < 0 || pos >= s.len() {
        Err(QztError::UnexpectedEof)
    } else if b.items == 0 {
        Err(QztError::ResourceLimitExceeded)
    } else {
        let b1 = Budget { alloc: b.alloc, items: (b.items - 1) as u64 };
        let major = s[pos] / 32;
        let ai = s[pos] % 32;
        if major == 7 {
            if ai == 20 {
                Ok((CborItem::Bool(false), pos + 1, b1))
            } else if ai == 21 {
                Ok((CborItem::Bool(true), pos + 1, b1))
            } else if ai == 22 {
                Ok((CborItem::Null, pos + 1, b1))
            } else {
                Err(QztError::NonCanonicalCbor)
            }
        } else if major == 6 {
            Err(QztError::NonCanonicalCbor)
        } else {
            match spec_arg(s, pos + 1, ai) {
                Err(e) => Err(e),
                Ok((arg, p)) => {
                    if major == 0 {
                        Ok((CborItem::Int(arg as int), p, b1))
                    } else if major == 1 {
                        Ok((CborItem::Int(-1 - arg), p, b1))
                    } else if major == 2 || major == 3 {
                        if arg > b1.alloc || arg > usize::MAX || p + arg > usize::MAX {
                            Err(QztError::ResourceLimitExceeded)
                        } else if p + arg > s.len() {
                            Err(QztError::UnexpectedEof)
                        } else {
                            let bytes = s.subrange(p, p + arg);
                            let b2 = Budget { alloc: (b1.alloc - arg) as u64, items: b1.items };
                            if major == 2 {
                                Ok((CborItem::Bytes(bytes), p + arg, b2))
                            } else if valid_utf8(bytes) {
                                Ok((CborItem::Text(decode_utf8(bytes)), p + arg, b2))
                            } else {
                                Err(QztError::InvalidUtf8)
                            }
                        }
                    } else if depth >= MAX_CBOR_DEPTH || arg > b1.items {
                        Err(QztError::ResourceLimitExceeded)
                    } else if major == 4 {
                        match spec_parse_items(s, p, arg, Seq::empty(), depth + 1, b1) {
                            Err(e) => Err(e),
                            Ok((vs, p2, b2)) => Ok((CborItem::Array(vs), p2, b2)),
                        }
                    } else {
                        match spec_parse_entries(
                            s,
                            p,
                            arg,
                            Seq::empty(),
                            None,
                            depth + 1,
                            b1,
                        ) {
                            Err(e) => Err(e),
                            Ok((es, p2, b2)) => Ok((CborItem::Mapping(es), p2, b2)),
                        }
                    }
                },
            }
        }
    }
}

/// Decodes `rem` further array elements at `pos`, after the ones already in `acc`.
pub open spec fn spec_parse_items(
    s: Seq<u8>,
    pos: int,
    rem: nat,
    acc: Seq<CborItem>,
    depth: nat,
    b: Budget,
) -> Result<(Seq<CborItem>, int, Budget)>
    decreases s.len() - pos, 2int, rem,
{
    if rem == 0 {
        Ok((acc, pos, b))
    } else {
        match spec_parse_value(s, pos, depth, b) {
            Err(e) => Err(e),
            Ok((v, p2, b2)) => if pos <= p2 <= s.len() {
                spec_parse_items(s, p2, (rem - 1) as nat, acc.push(v), depth, b2)
            } else {
                Err(QztError::UnexpectedEof)
            },
        }
    }
}

/// Decodes `rem` further map entries at `pos`; `prev` holds the previous key's bytes.
pub open spec fn spec_parse_entries(
    s: Seq<u8>,
    pos: int,
    rem: nat,
    acc: Seq<(CborItem, CborItem)>,
    prev: Option<Seq<u8>>,
    depth: nat,
    b: Budget,
) -> Result<(Seq<(CborItem, CborItem)>, int, Budget)>
    decreases s.len() - pos, 2int, rem,
{
    if rem == 0 {
        Ok((acc, pos, b))
    } else {
        match spec_parse_value(s, pos, depth, b) {
            Err(e) => Err(e),
            Ok((k, p2, b2)) => if pos <= p2 <= s.len() {
                let kb = s.subrange(pos, p2);
                if kb.len() > b2.alloc {
                    Err(QztError::ResourceLimitExceeded)
                } else if prev is Some && prev->0 == kb {
                    Err(QztError::DuplicateCborKey)
                } else if prev is Some && spec_lex_lt(kb, prev->0) {
                    Err(QztError::NonCanonicalCbor)
                } else {
                    let b3 = Budget { alloc: (b2.alloc - kb.len()) as u64, items: b2.items };
                    match spec_parse_value(s, p2, depth, b3) {
                        Err(e) => Err(e),
                        Ok((v, p3, b4)) => if p2 <= p3 <= s.len() {
                            spec_parse_entries(
                                s,
                                p3,
                                (rem - 1) as nat,
                                acc.push((k, v)),
                                Some(kb),
                                depth,
                                b4,
                            )
                        } else {
                            Err(QztError::UnexpectedEof)
                        },
                    }
                }
            } else {
                Err(QztError::UnexpectedEof)
            },
        }
    }
}

/// The result of validating a complete item under `limits`.
pub open spec fn spec_validate(s: Seq<u8>, limits: CborLimits) -> Result<CborItem> {
    match spec_parse_value(
        s,
        0,
        0,
        Budget { alloc: limits.max_allocation, items: limits.max_items },
    ) {
        Err(e) => Err(e),
        Ok((v, p, _)) => if p == s.len() {
            Ok(v)
        } else {
            Err(QztError::NonCanonicalCbor)
        },
    }
}


// ---------------------------------------------------------------------------
// The decoder
// ---------------------------------------------------------------------------

/// `256` raised to `n`.
pub open spec fn pow256(n: nat) -> nat
    decreases n,
{
    if n == 0 {
        1
    } else {
        256 * pow256((n - 1) as nat)
    }
}

proof fn lemma_pow256_mono(i: nat, j: nat)
    requires
        i <= j,
    ensures
        pow256(i) <= pow256(j),
    decreases j,
{
    if i < j {
        lemma_pow256_mono(i, (j - 1) as nat);
    }
}

/// Relates an executable decode result to the decoder's statement.
pub open spec fn value_result_matches(
    r: Result<(CborValue, usize, Budget)>,
    sr: Result<(CborItem, int, Budget)>,
) -> bool {
    match (r, sr) {
        (Ok((v, p, b)), Ok((i, sp, sb))) => v@ == i && p as int == sp && b == sb,
        (Err(e), Err(se)) => e == se,
        _ => false,
    }
}

/// Relates an executable array-body decode result to the decoder's statement.
pub open spec fn items_result_matches(
    r: Result<(Vec<CborValue>, usize, Budget)>,
    sr: Result<(Seq<CborItem>, int, Budget)>,
) -> bool {
    match (r, sr) {
        (Ok((v, p, b)), Ok((i, sp, sb))) => cbor_items(v@) == i && p as int == sp && b == sb,
        (Err(e), Err(se)) => e == se,
        _ => false,
    }
}

/// Relates an executable map-body decode result to the decoder's statement.
pub open spec fn entries_result_matches(
    r: Result<(Vec<(CborValue, CborValue)>, usize, Budget)>,
    sr: Result<(Seq<(CborItem, CborItem)>, int, Budget)>,
) -> bool {
    match (r, sr) {
        (Ok((v, p, b)), Ok((i, sp, sb))) => cbor_entries(v@) == i && p as int == sp && b == sb,
        (Err(e), Err(se)) => e == se,
        _ => false,
    }
}

/// Reads `n <= 8` big-endian bytes at `pos`.
fn read_be(input: &[u8], pos: usize, n: usize) -> (v: u64)
    requires
        n <= 8,
        pos + n <= input@.len(),
    ensures
        v == spec_be_value(input@.subrange(pos as int, pos + n)),
{
    let mut v: u64 = 0;
    let mut i: usize = 0;
    assert(input@.subrange(pos as int, pos as int) =~= Seq::<u8>::empty());
    while i < n
        invariant
            i <= n,
            n <= 8,
            pos + n <= input@.len(),
            input@.len() == input.len(),
            v == spec_be_value(input@.subrange(pos as int, pos + i)),
            v < pow256(i as nat),
        decreases n - i,
    {
        proof {
            assert(input@.subrange(pos as int, pos + i + 1).drop_last() =~= input@.subrange(
                pos as int,
                pos + i,
            ));
            lemma_pow256_mono(i as nat, 7);
            reveal_with_fuel(pow256, 8);
            assert(pow256(7) == 0x100000000000000);
        }
        v = v * 256 + input[pos + i] as u64;
        i = i + 1;
    }
    v
}

/// Reads the argument whose additional information is `ai`, starting at `pos`.
fn read_argument(input: &[u8], pos: usize, ai: u8) -> (r: Result<(u64, usize)>)
    requires
        pos <= input@.len(),
    ensures
        match (r, spec_arg(input@, pos as int, ai)) {
            (Ok((v, p)), Ok((sv, sp))) => v as nat == sv && p as int == sp,
            (Err(e), Err(se)) => e == se,
            _ => false,
        },
        r matches Ok((_, p)) ==> pos <= p <= input@.len(),
{
    if ai < 24 {
        return Ok((ai as u64, pos));
    }
    if ai > 27 {
        return Err(QztError::NonCanonicalCbor);
    }
    let n: usize = if ai == 24 {
        1
    } else if ai == 25 {
        2
    } else if ai == 26 {
        4
    } else {
        8
    };
    let min: u64 = if ai == 24 {
        24
    } else if ai == 25 {
        0x100
    } else if ai == 26 {
        0x10000
    } else {
        0x1_0000_0000
    };
    if input.len() - pos < n {
        return Err(QztError::UnexpectedEof);
    }
    let v = read_be(input, pos, n);
    if v < min {
        return Err(QztError::NonCanonicalCbor);
    }
    Ok((v, pos + n))
}

/// Decodes one value at `pos`.
fn parse_value(input: &[u8], pos: usize, depth: u64, b: Budget) -> (r: Result<
    (CborValue, usize, Budget),
>)
    requires
        depth <= MAX_CBOR_DEPTH,
    ensures
        value_result_matches(r, spec_parse_value(input@, pos as int, depth as nat, b)),
        r matches Ok((_, p, _)) ==> pos < p <= input@.len(),
    decreases input@.len() - pos, 1int, 0int,
{
    if pos >= input.len() {
        return Err(QztError::UnexpectedEof);
    }
    if b.items == 0 {
        return Err(QztError::ResourceLimitExceeded);
    }
    let b1 = Budget { alloc: b.alloc, items: b.items - 1 };
    let initial = input[pos];
    let major = initial / 32;
    let ai = initial % 32;
    if major == 7 {
        return if ai == 20 {
            Ok((CborValue::Bool(false), pos + 1, b1))
        } else if ai == 21 {
            Ok((CborValue::Bool(true), pos + 1, b1))
        } else if ai == 22 {
            Ok((CborValue::Null, pos + 1, b1))
        } else {
            Err(QztError::NonCanonicalCbor)
        };
    }
    if major == 6 {
        return Err(QztError::NonCanonicalCbor);
    }
    let (arg, p) = read_argument(input, pos + 1, ai)?;
    if major == 0 {
        return Ok((CborValue::Integer(arg as i128), p, b1));
    }
    if major == 1 {
        return Ok((CborValue::Integer(-1 - arg as i128), p, b1));
    }
    if major == 2 || major == 3 {
        if arg > b1.alloc || arg as u128 > usize::MAX as u128 || p as u128 + arg as u128
            > usize::MAX as u128 {
            return Err(QztError::ResourceLimitExceeded);
        }
        let end = p + arg as usize;
        if end > input.len() {
            return Err(QztError::UnexpectedEof);
        }
        let b2 = Budget { alloc: b1.alloc - arg, items: b1.items };
        if major == 2 {
            let bytes = slice_to_vec(input, p, end);
            return Ok((CborValue::Bytes(bytes), end, b2));
        }
        match text_from_utf8(&input[p..end]) {
            Some(t) => {
                proof {
                    encode_utf8_decode_utf8(t@);
                }
                return Ok((CborValue::Text(t), end, b2));
            },
            None => {
                return Err(QztError::InvalidUtf8);
            },
        }
    }
    if depth >= MAX_CBOR_DEPTH || arg > b1.items {
        return Err(QztError::ResourceLimitExceeded);
    }
    if major == 4 {
        let (vs, p2, b2) = parse_items(input, p, arg, depth + 1, b1)?;
        Ok((CborValue::Array(vs), p2, b2))
    } else {
        let (es, p2, b2) = parse_entries(input, p, arg, depth + 1, b1)?;
        Ok((CborValue::Mapping(es), p2, b2))
    }
}

/// Decodes `n` array elements starting at `start`.
fn parse_items(input: &[u8], start: usize, n: u64, depth: u64, b0: Budget) -> (r: Result<
    (Vec<CborValue>, usize, Budget),
>)
    requires
        start <= input@.len(),
        depth <= MAX_CBOR_DEPTH,
    ensures
        items_result_matches(
            r,
            spec_parse_items(input@, start as int, n as nat, Seq::empty(), depth as nat, b0),
        ),
        r matches Ok((_, p, _)) ==> start <= p <= input@.len(),
    decreases input@.len() - start, 2int, n,
{
    let mut vals: Vec<CborValue> = Vec::new();
    let mut cur = start;
    let mut b = b0;
    let mut i: u64 = 0;
    while i < n
        invariant
            start <= cur <= input@.len(),
            i <= n,
            depth <= MAX_CBOR_DEPTH,
            spec_parse_items(input@, start as int, n as nat, Seq::empty(), depth as nat, b0)
                == spec_parse_items(
                input@,
                cur as int,
                (n - i) as nat,
                cbor_items(vals@),
                depth as nat,
                b,
            ),
        decreases n - i,
    {
        let (v, p2, b2) = parse_value(input, cur, depth, b)?;
        proof {
            assert(vals@.push(v).drop_last() =~= vals@);
        }
        vals.push(v);
        cur = p2;
        b = b2;
        i = i + 1;
    }
    Ok((vals, cur, b))
}

/// Decodes `n` map entries starting at `start`, enforcing strictly increasing key bytes.
fn parse_entries(input: &[u8], start: usize, n: u64, depth: u64, b0: Budget) -> (r: Result<
    (Vec<(CborValue, CborValue)>, usize, Budget),
>)
    requires
        start <= input@.len(),
        depth <= MAX_CBOR_DEPTH,
    ensures
        entries_result_matches(
            r,
            spec_parse_entries(
                input@,
                start as int,
                n as nat,
                Seq::empty(),
                None,
                depth as nat,
                b0,
            ),
        ),
        r matches Ok((_, p, _)) ==> start <= p <= input@.len(),
    decreases input@.len() - start, 2int, n,
{
    let mut es: Vec<(CborValue, CborValue)> = Vec::new();
    let mut cur = start;
    let mut b = b0;
    let mut i: u64 = 0;
    let mut prev: Option<Vec<u8>> = None;
    while i < n
        invariant
            start <= cur <= input@.len(),
            i <= n,
            depth <= MAX_CBOR_DEPTH,
            spec_parse_entries(
                input@,
                start as int,
                n as nat,
                Seq::empty(),
                None,
                depth as nat,
                b0,
            ) == spec_parse_entries(
                input@,
                cur as int,
                (n - i) as nat,
                cbor_entries(es@),
                match prev {
                    Some(pk) => Some(pk@),
                    None => None,
                },
                depth as nat,
                b,
            ),
        decreases n - i,
    {
        let (k, p2, b2) = parse_value(input, cur, depth, b)?;
        let kb = slice_to_vec(input, cur, p2);
        if kb.len() as u128 > b2.alloc as u128 {
            return Err(QztError::ResourceLimitExceeded);
        }
        match &prev {
            Some(pk) => {
                let c = compare_bytes(pk.as_slice(), kb.as_slice());
                if c == 0 {
                    return Err(QztError::DuplicateCborKey);
                }
                if c > 0 {
                    return Err(QztError::NonCanonicalCbor);
                }
            },
            None => {},
        }
        let b3 = Budget { alloc: b2.alloc - kb.len() as u64, items: b2.items };
        let (v, p3, b4) = parse_value(input, p2, depth, b3)?;
        proof {
            assert(es@.push((k, v)).drop_last() =~= es@);
        }
        es.push((k, v));
        prev = Some(kb);
        cur = p3;
        b = b4;
        i = i + 1;
    }
    Ok((es, cur, b))
}

proof fn lemma_lex_skip(a: Seq<u8>, b: Seq<u8>, i: int)
    requires
        0 <= i <= a.len(),
        i <= b.len(),
        a.subrange(0, i) == b.subrange(0, i),
    ensures
        spec_lex_lt(a, b) == spec_lex_lt(a.skip(i), b.skip(i)),
    decreases i,
{
    if i > 0 {
        assert(a[0] == a.subrange(0, i)[0]);
        assert(b[0] == b.subrange(0, i)[0]);
        assert(a.drop_first().subrange(0, i - 1) =~= a.subrange(0, i).drop_first());
        assert(b.drop_first().subrange(0, i - 1) =~= b.subrange(0, i).drop_first());
        lemma_lex_skip(a.drop_first(), b.drop_first(), i - 1);
        assert(a.drop_first().skip(i - 1) =~= a.skip(i));
        assert(b.drop_first().skip(i - 1) =~= b.skip(i));
    } else {
        assert(a.skip(0) =~= a);
        assert(b.skip(0) =~= b);
    }
}

/// Three-way bytewise comparison: negative, zero or positive as `a` sorts before,
/// equal to, or after `b`.
pub fn compare_bytes(a: &[u8], b: &[u8]) -> (r: i8)
    ensures
        -1 <= r <= 1,
        r == 0 <==> a@ == b@,
        r < 0 <==> spec_lex_lt(a@, b@),
        r > 0 <==> spec_lex_lt(b@, a@),
{
    let mut i: usize = 0;
    while i < a.len() && i < b.len() && a[i] == b[i]
        invariant
            i <= a@.len(),
            i <= b@.len(),
            a@.subrange(0, i as int) == b@.subrange(0, i as int),
        decreases a@.len() - i,
    {
        assert(a@.subrange(0, i + 1) =~= a@.subrange(0, i as int).push(a@[i as int]));
        assert(b@.subrange(0, i + 1) =~= b@.subrange(0, i as int).push(b@[i as int]));
        i = i + 1;
    }
    proof {
        lemma_lex_skip(a@, b@, i as int);
        lemma_lex_skip(b@, a@, i as int);
    }
    if i == a.len() && i == b.len() {
        assert(a@ =~= a@.subrange(0, i as int));
        assert(b@ =~= b@.subrange(0, i as int));
        0
    } else if i == a.len() {
        assert(a@ != b@) by {
            assert(a@.len() != b@.len());
        }
        -1
    } else if i == b.len() {
        assert(a@.len() != b@.len());
        1
    } else if a[i] < b[i] {
        assert(a@[i as int] != b@[i as int]);
        -1
    } else {
        assert(a@[i as int] != b@[i as int]);
        1
    }
}

/// Validates a complete deterministic CBOR item under explicit budgets.
pub fn validate_deterministic_with_limits(input: &[u8], limits: CborLimits) -> (r: Result<
    CborValue,
>)
    ensures
        match (r, spec_validate(input@, limits)) {
            (Ok(v), Ok(i)) => v@ == i,
            (Err(e), Err(se)) => e == se,
            _ => false,
        },
{
    let b = Budget { alloc: limits.max_allocation, items: limits.max_items };
    let (v, end, _) = parse_value(input, 0, 0, b)?;
    if end != input.len() {
        return Err(QztError::NonCanonicalCbor);
    }
    Ok(v)
}

/// The default decode budgets.
pub open spec fn spec_default_limits() -> CborLimits {
    CborLimits { max_allocation: MAX_PHASE1_ALLOCATION, max_items: MAX_PHASE1_ITEMS }
}

/// Validates a complete QZT deterministic CBOR item under the default budgets.
pub fn validate_deterministic(input: &[u8]) -> (r: Result<CborValue>)
    ensures
        match (r, spec_validate(input@, spec_default_limits())) {
            (Ok(v), Ok(i)) => v@ == i,
            (Err(e), Err(se)) => e == se,
            _ => false,
        },
{
    validate_deterministic_with_limits(
        input,
        CborLimits { max_allocation: MAX_PHASE1_ALLOCATION, max_items: MAX_PHASE1_ITEMS },
    )
}


// ---------------------------------------------------------------------------
// Lexicographic order
// ---------------------------------------------------------------------------

/// No byte string sorts before itself.
pub proof fn lemma_lex_irreflexive(a: Seq<u8>)
    ensures
        !spec_lex_lt(a, a),
    decreases a.len(),
{
    if a.len() > 0 {
        lemma_lex_irreflexive(a.drop_first());
    }
}

/// Two byte strings never sort before each other.
pub proof fn lemma_lex_asymmetric(a: Seq<u8>, b: Seq<u8>)
    ensures
        !(spec_lex_lt(a, b) && spec_lex_lt(b, a)),
    decreases a.len(),
{
    if a.len() > 0 && b.len() > 0 && a[0] == b[0] {
        lemma_lex_asymmetric(a.drop_first(), b.drop_first());
    }
}

/// The bytewise order is transitive.
pub proof fn lemma_lex_transitive(a: Seq<u8>, b: Seq<u8>, c: Seq<u8>)
    requires
        spec_lex_lt(a, b),
        spec_lex_lt(b, c),
    ensures
        spec_lex_lt(a, c),
    decreases a.len(),
{
    if a.len() > 0 && b.len() > 0 && c.len() > 0 && a[0] == b[0] && b[0] == c[0] {
        lemma_lex_transitive(a.drop_first(), b.drop_first(), c.drop_first());
    }
}

/// Two different byte strings are ordered one way or the other.
pub proof fn lemma_lex_total(a: Seq<u8>, b: Seq<u8>)
    requires
        a != b,
    ensures
        spec_lex_lt(a, b) || spec_lex_lt(b, a),
    decreases a.len(),
{
    if a.len() > 0 && b.len() > 0 && a[0] == b[0] {
        if a.drop_first() == b.drop_first() {
            assert(a =~= seq![a[0]] + a.drop_first());
            assert(b =~= seq![b[0]] + b.drop_first());
        }
        lemma_lex_total(a.drop_first(), b.drop_first());
    } else if a.len() == 0 && b.len() == 0 {
        assert(a =~= b);
    }
}

// ---------------------------------------------------------------------------
// The encoder
// ---------------------------------------------------------------------------

/// Each key sorts strictly before every later key.
pub open spec fn spec_keys_strictly_sorted(q: Seq<(Seq<u8>, Seq<u8>)>) -> bool {
    forall|i: int, j: int| 0 <= i < j < q.len() ==> spec_lex_lt(#[trigger] q[i].0, #[trigger] q[j].0)
}

/// Two encoded entries share a key.
pub open spec fn spec_has_dup_key(ps: Seq<(Seq<u8>, Seq<u8>)>) -> bool {
    exists|i: int, j: int| 0 <= i < j < ps.len() && #[trigger] ps[i].0 == #[trigger] ps[j].0
}

/// The entries of `ps` in strictly increasing key order.
pub open spec fn spec_key_sorted(ps: Seq<(Seq<u8>, Seq<u8>)>) -> Seq<(Seq<u8>, Seq<u8>)> {
    choose|q: Seq<(Seq<u8>, Seq<u8>)>| spec_keys_strictly_sorted(q) && q.to_set() == ps.to_set()
}

/// Concatenated key-then-value bytes of encoded entries.
pub open spec fn spec_concat_pairs(q: Seq<(Seq<u8>, Seq<u8>)>) -> Seq<u8>
    decreases q.len(),
{
    if q.len() == 0 {
        Seq::empty()
    } else {
        spec_concat_pairs(q.drop_last()) + q.last().0 + q.last().1
    }
}

/// What the deterministic encoder produces for an item: map entries sorted by
/// encoded key, a repeated key refused, out-of-range integers refused.
pub open spec fn spec_encode_det(item: CborItem) -> Result<Seq<u8>>
    decreases item,
{
    match item {
        CborItem::Int(i) => if i >= 0 {
            if i > u64::MAX {
                Err(QztError::ResourceLimitExceeded)
            } else {
                Ok(spec_head(0, i as nat))
            }
        } else {
            if -1 - i > u64::MAX {
                Err(QztError::ResourceLimitExceeded)
            } else {
                Ok(spec_head(1, (-1 - i) as nat))
            }
        },
        CborItem::Bytes(b) => if b.len() > u64::MAX {
            Err(QztError::ResourceLimitExceeded)
        } else {
            Ok(spec_head(2, b.len()) + b)
        },
        CborItem::Text(t) => if encode_utf8(t).len() > u64::MAX {
            Err(QztError::ResourceLimitExceeded)
        } else {
            Ok(spec_head(3, encode_utf8(t).len()) + encode_utf8(t))
        },
        CborItem::Array(vs) => if vs.len() > u64::MAX {
            Err(QztError::ResourceLimitExceeded)
        } else {
            match spec_encode_det_items(vs) {
                Err(e) => Err(e),
                Ok(body) => Ok(spec_head(4, vs.len()) + body),
            }
        },
        CborItem::Mapping(es) => if es.len() > u64::MAX {
            Err(QztError::ResourceLimitExceeded)
        } else {
            match spec_encode_det_pairs(es) {
                Err(e) => Err(e),
                Ok(ps) => if spec_has_dup_key(ps) {
                    Err(QztError::DuplicateCborKey)
                } else {
                    Ok(spec_head(5, es.len()) + spec_concat_pairs(spec_key_sorted(ps)))
                },
            }
        },
        CborItem::Bool(b) => if b {
            Ok(seq![0xf5u8])
        } else {
            Ok(seq![0xf4u8])
        },
        CborItem::Null => Ok(seq![0xf6u8]),
    }
}

/// Deterministic encodings of a sequence of items, concatenated; the first failure wins.
pub open spec fn spec_encode_det_items(s: Seq<CborItem>) -> Result<Seq<u8>>
    decreases s,
{
    if s.len() == 0 {
        Ok(Seq::empty())
    } else {
        proof {
            assert(decreases_to!(s => s[s.len() - 1]));
        }
        match spec_encode_det_items(s.drop_last()) {
            Err(e) => Err(e),
            Ok(pre) => match spec_encode_det(s.last()) {
                Err(e) => Err(e),
                Ok(x) => Ok(pre + x),
            },
        }
    }
}

/// Deterministic encodings of each key and value; the first failure, key before value, wins.
pub open spec fn spec_encode_det_pairs(s: Seq<(CborItem, CborItem)>) -> Result<
    Seq<(Seq<u8>, Seq<u8>)>,
>
    decreases s,
{
    if s.len() == 0 {
        Ok(Seq::empty())
    } else {
        proof {
            assert(decreases_to!(s => s[s.len() - 1]));
            assert(decreases_to!(s[s.len() - 1] => s[s.len() - 1].0));
            assert(decreases_to!(s[s.len() - 1] => s[s.len() - 1].1));
        }
        match spec_encode_det_pairs(s.drop_last()) {
            Err(e) => Err(e),
            Ok(pre) => match spec_encode_det(s.last().0) {
                Err(e) => Err(e),
                Ok(k) => match spec_encode_det(s.last().1) {
                    Err(e) => Err(e),
                    Ok(v) => Ok(pre.push((k, v))),
                },
            },
        }
    }
}

pub proof fn lemma_cbor_items_index(s: Seq<CborValue>)
    ensures
        cbor_items(s).len() == s.len(),
        forall|i: int| 0 <= i < s.len() ==> #[trigger] cbor_items(s)[i] == cbor_item(s[i]),
    decreases s.len(),
{
    if s.len() > 0 {
        lemma_cbor_items_index(s.drop_last());
    }
}

pub proof fn lemma_cbor_entries_index(s: Seq<(CborValue, CborValue)>)
    ensures
        cbor_entries(s).len() == s.len(),
        forall|i: int|
            0 <= i < s.len() ==> #[trigger] cbor_entries(s)[i] == (
                cbor_item(s[i].0),
                cbor_item(s[i].1),
            ),
    decreases s.len(),
{
    if s.len() > 0 {
        lemma_cbor_entries_index(s.drop_last());
    }
}

proof fn lemma_items_err_prefix(s: Seq<CborItem>, i: int, n: int)
    requires
        0 <= i < n <= s.len(),
        spec_encode_det_items(s.subrange(0, i + 1)) is Err,
    ensures
        spec_encode_det_items(s.subrange(0, n)) == spec_encode_det_items(s.subrange(0, i + 1)),
    decreases n,
{
    if n > i + 1 {
        lemma_items_err_prefix(s, i, n - 1);
        assert(s.subrange(0, n).drop_last() =~= s.subrange(0, n - 1));
    }
}

proof fn lemma_pairs_err_prefix(s: Seq<(CborItem, CborItem)>, i: int, n: int)
    requires
        0 <= i < n <= s.len(),
        spec_encode_det_pairs(s.subrange(0, i + 1)) is Err,
    ensures
        spec_encode_det_pairs(s.subrange(0, n)) == spec_encode_det_pairs(s.subrange(0, i + 1)),
    decreases n,
{
    if n > i + 1 {
        lemma_pairs_err_prefix(s, i, n - 1);
        assert(s.subrange(0, n).drop_last() =~= s.subrange(0, n - 1));
    }
}

/// Two key-sorted entry sequences with the same entries are the same sequence.
proof fn lemma_key_sorted_unique(x: Seq<(Seq<u8>, Seq<u8>)>, y: Seq<(Seq<u8>, Seq<u8>)>)
    requires
        spec_keys_strictly_sorted(x),
        spec_keys_strictly_sorted(y),
        x.to_set() == y.to_set(),
    ensures
        x == y,
    decreases x.len(),
{
    if x.len() == 0 {
        if y.len() > 0 {
            assert(y.to_set().contains(y[0]));
        }
        assert(x =~= y);
    } else if y.len() == 0 {
        assert(x.to_set().contains(x[0]));
    } else {
        assert(x.to_set().contains(x[0]));
        assert(y.to_set().contains(y[0]));
        let j = choose|j: int| 0 <= j < y.len() && y[j] == x[0];
        let k = choose|k: int| 0 <= k < x.len() && x[k] == y[0];
        if j > 0 {
            if k > 0 {
                assert(spec_lex_lt(y[0].0, y[j].0));
                assert(spec_lex_lt(x[0].0, x[k].0));
                lemma_lex_asymmetric(x[0].0, y[0].0);
            } else {
                assert(spec_lex_lt(y[0].0, y[j].0));
                lemma_lex_irreflexive(y[0].0);
            }
        } else if k > 0 {
            assert(spec_lex_lt(x[0].0, x[k].0));
            lemma_lex_irreflexive(x[0].0);
        }
        assert(x[0] == y[0]);
        let x1 = x.drop_first();
        let y1 = y.drop_first();
        assert forall|e| x1.to_set().contains(e) implies y1.to_set().contains(e) by {
            let a = choose|a: int| 0 <= a < x1.len() && x1[a] == e;
            assert(x.to_set().contains(e)) by {
                assert(x[a + 1] == e);
            }
            let c = choose|c: int| 0 <= c < y.len() && y[c] == e;
            if c == 0 {
                assert(spec_lex_lt(x[0].0, x[a + 1].0));
                lemma_lex_irreflexive(x[0].0);
            }
            assert(y1[c - 1] == e);
        }
        assert forall|e| y1.to_set().contains(e) implies x1.to_set().contains(e) by {
            let a = choose|a: int| 0 <= a < y1.len() && y1[a] == e;
            assert(y.to_set().contains(e)) by {
                assert(y[a + 1] == e);
            }
            let c = choose|c: int| 0 <= c < x.len() && x[c] == e;
            if c == 0 {
                assert(spec_lex_lt(y[0].0, y[a + 1].0));
                lemma_lex_irreflexive(y[0].0);
            }
            assert(x1[c - 1] == e);
        }
        assert(x1.to_set() =~= y1.to_set());
        lemma_key_sorted_unique(x1, y1);
        assert(x =~= y) by {
            assert(x =~= seq![x[0]] + x1);
            assert(y =~= seq![y[0]] + y1);
        }
    }
}

/// Appends `n <= 8` big-endian bytes of `value`.
fn push_be(out: &mut Vec<u8>, value: u64, n: usize)
    requires
        n <= 8,
    ensures
        final(out)@ == old(out)@ + spec_be_bytes(value as nat, n as nat),
    decreases n,
{
    if n == 0 {
        assert(old(out)@ + Seq::<u8>::empty() =~= old(out)@);
        return;
    }
    push_be(out, value / 256, n - 1);
    out.push((value % 256) as u8);
    assert(final(out)@ =~= old(out)@ + spec_be_bytes(value as nat, n as nat));
}

/// Appends the head for major type `major` and argument `arg` in its shortest form.
fn push_head(out: &mut Vec<u8>, major: u8, arg: u64)
    requires
        major < 8,
    ensures
        final(out)@ == old(out)@ + spec_head(major, arg as nat),
{
    let prefix: u8 = major * 32;
    if arg < 24 {
        out.push(prefix + arg as u8);
        assert(final(out)@ =~= old(out)@ + spec_head(major, arg as nat));
    } else if arg < 0x100 {
        out.push(prefix + 24);
        push_be(out, arg, 1);
        assert(final(out)@ =~= old(out)@ + spec_head(major, arg as nat));
    } else if arg < 0x10000 {
        out.push(prefix + 25);
        push_be(out, arg, 2);
        assert(final(out)@ =~= old(out)@ + spec_head(major, arg as nat));
    } else if arg < 0x1_0000_0000 {
        out.push(prefix + 26);
        push_be(out, arg, 4);
        assert(final(out)@ =~= old(out)@ + spec_head(major, arg as nat));
    } else {
        out.push(prefix + 27);
        push_be(out, arg, 8);
        assert(final(out)@ =~= old(out)@ + spec_head(major, arg as nat));
    }
}

/// Appends all of `src`.
fn append_all(out: &mut Vec<u8>, src: &[u8])
    ensures
        final(out)@ == old(out)@ + src@,
{
    crate::bytes_util::extend_bytes(out, src);
}

/// Inserts an encoded entry into a key-sorted list, refusing a repeated key.
fn insert_sorted(sorted: &mut Vec<(Vec<u8>, Vec<u8>)>, key: Vec<u8>, value: Vec<u8>) -> (r: bool)
    requires
        spec_keys_strictly_sorted(pairs_view(old(sorted)@)),
    ensures
        r ==> spec_keys_strictly_sorted(pairs_view(final(sorted)@)),
        r ==> pairs_view(final(sorted)@).to_set() == pairs_view(old(sorted)@).to_set().insert((key@, value@)),
        r ==> final(sorted)@.len() == old(sorted)@.len() + 1,
        !r ==> exists|k: int| 0 <= k < old(sorted)@.len() && #[trigger] pairs_view(old(sorted)@)[k].0 == key@,
        r ==> forall|k: int| 0 <= k < old(sorted)@.len() ==> #[trigger] pairs_view(old(sorted)@)[k].0 != key@,
{
    let ghost old_view = pairs_view(sorted@);
    let mut j: usize = 0;
    while j < sorted.len()
        invariant
            j <= sorted@.len(),
            pairs_view(sorted@) == old_view,
            spec_keys_strictly_sorted(old_view),
            forall|k: int| 0 <= k < j ==> spec_lex_lt(#[trigger] old_view[k].0, key@),
        ensures
            j <= sorted@.len(),
            pairs_view(sorted@) == old_view,
            forall|k: int| 0 <= k < j ==> spec_lex_lt(#[trigger] old_view[k].0, key@),
            j < sorted@.len() ==> spec_lex_lt(key@, old_view[j as int].0),
        decreases sorted@.len() - j,
    {
        let c = compare_bytes(sorted[j].0.as_slice(), key.as_slice());
        if c == 0 {
            assert(pairs_view(sorted@)[j as int].0 == key@);
            return false;
        }
        if c > 0 {
            break;
        }
        j = j + 1;
    }
    let ghost before = sorted@;
    let ghost kv = (key@, value@);
    sorted.insert(j, (key, value));
    proof {
        let nv = pairs_view(sorted@);
        assert(nv =~= old_view.insert(j as int, kv));
        assert forall|a: int, b: int| 0 <= a < b < nv.len() implies spec_lex_lt(
            #[trigger] nv[a].0,
            #[trigger] nv[b].0,
        ) by {
            if b == j {
                assert(nv[a] == old_view[a]);
            } else if a == j {
                assert(nv[b] == old_view[b - 1]);
                if b - 1 > j {
                    assert(spec_lex_lt(old_view[j as int].0, old_view[b - 1].0));
                    lemma_lex_transitive(key@, old_view[j as int].0, old_view[b - 1].0);
                }
            } else if a < j && b > j {
                assert(nv[a] == old_view[a]);
                assert(nv[b] == old_view[b - 1]);
                if j < old_view.len() {
                    lemma_lex_transitive(old_view[a].0, key@, old_view[j as int].0);
                    if b - 1 > j {
                        lemma_lex_transitive(old_view[a].0, old_view[j as int].0, old_view[b - 1].0);
                    }
                }
            } else if a > j {
                assert(nv[a] == old_view[a - 1]);
                assert(nv[b] == old_view[b - 1]);
            } else {
                assert(nv[a] == old_view[a]);
                assert(nv[b] == old_view[b]);
            }
        }
        assert(nv.to_set() =~= old_view.to_set().insert(kv)) by {
            assert forall|e| nv.to_set().contains(e) implies old_view.to_set().insert(kv).contains(
                e,
            ) by {
                let a = choose|a: int| 0 <= a < nv.len() && nv[a] == e;
                if a < j {
                    assert(old_view[a] == e);
                } else if a > j {
                    assert(old_view[a - 1] == e);
                }
            }
            assert forall|e| old_view.to_set().insert(kv).contains(e) implies nv.to_set().contains(
                e,
            ) by {
                if e == kv {
                    assert(nv[j as int] == e);
                } else {
                    let a = choose|a: int| 0 <= a < old_view.len() && old_view[a] == e;
                    if a < j {
                        assert(nv[a] == e);
                    } else {
                        assert(nv[a + 1] == e);
                    }
                }
            }
        }
        assert forall|k: int| 0 <= k < old_view.len() implies #[trigger] old_view[k].0 != key@ by {
            if k < j {
                lemma_lex_irreflexive(key@);
            } else if j < old_view.len() {
                if k > j {
                    assert(spec_lex_lt(old_view[j as int].0, old_view[k].0));
                    lemma_lex_transitive(key@, old_view[j as int].0, old_view[k].0);
                }
                lemma_lex_irreflexive(key@);
            }
        }
    }
    true
}

/// The byte views of encoded entries.
pub open spec fn pairs_view(v: Seq<(Vec<u8>, Vec<u8>)>) -> Seq<(Seq<u8>, Seq<u8>)> {
    Seq::new(v.len(), |i: int| (v[i].0@, v[i].1@))
}

/// Appends the deterministic encoding of `value`.
fn encode_value(value: &CborValue, out: &mut Vec<u8>) -> (r: Result<()>)
    ensures
        match (r, spec_encode_det(value@)) {
            (Ok(()), Ok(bytes)) => final(out)@ == old(out)@ + bytes,
            (Err(e), Err(se)) => e == se,
            _ => false,
        },
    decreases value, 1int,
{
    match value {
        CborValue::Integer(i) => {
            if *i >= 0 {
                if *i > u64::MAX as i128 {
                    return Err(QztError::ResourceLimitExceeded);
                }
                push_head(out, 0, *i as u64);
            } else {
                if *i < -18446744073709551616i128 {
                    return Err(QztError::ResourceLimitExceeded);
                }
                push_head(out, 1, (-1 - *i) as u64);
            }
            Ok(())
        },
        CborValue::Bytes(b) => {
            if b.len() as u128 > u64::MAX as u128 {
                return Err(QztError::ResourceLimitExceeded);
            }
            push_head(out, 2, b.len() as u64);
            append_all(out, b.as_slice());
            Ok(())
        },
        CborValue::Text(t) => {
            let bytes = t.as_str().as_bytes();
            if bytes.len() as u128 > u64::MAX as u128 {
                return Err(QztError::ResourceLimitExceeded);
            }
            push_head(out, 3, bytes.len() as u64);
            append_all(out, bytes);
            Ok(())
        },
        CborValue::Array(vs) => {
            if vs.len() as u128 > u64::MAX as u128 {
                return Err(QztError::ResourceLimitExceeded);
            }
            proof {
                lemma_cbor_items_index(vs@);
            }
            assert(value@ == CborItem::Array(cbor_items(vs@)));
            let body = encode_items(value, vs)?;
            push_head(out, 4, vs.len() as u64);
            append_all(out, body.as_slice());
            Ok(())
        },
        CborValue::Mapping(es) => {
            if es.len() as u128 > u64::MAX as u128 {
                return Err(QztError::ResourceLimitExceeded);
            }
            proof {
                lemma_cbor_entries_index(es@);
            }
            assert(value@ == CborItem::Mapping(cbor_entries(es@)));
            let encoded = encode_pairs(value, es)?;
            let ghost ps = pairs_view(encoded@);
            let sorted = sort_pairs(encoded)?;
            proof {
                let q = spec_key_sorted(ps);
                lemma_key_sorted_unique(q, pairs_view(sorted@));
            }
            push_head(out, 5, es.len() as u64);
            append_pairs(out, &sorted);
            Ok(())
        },
        CborValue::Bool(b) => {
            out.push(if *b { 0xf5u8 } else { 0xf4u8 });
            assert(out@ =~= old(out)@ + spec_encode_det(value@)->Ok_0);
            Ok(())
        },
        CborValue::Null => {
            out.push(0xf6u8);
            assert(out@ =~= old(out)@ + seq![0xf6u8]);
            Ok(())
        },
    }
}

/// Concatenated deterministic encodings of an array's elements.
fn encode_items(value: &CborValue, vs: &Vec<CborValue>) -> (r: Result<Vec<u8>>)
    requires
        *value == CborValue::Array(*vs),
    ensures
        match (r, spec_encode_det_items(cbor_items(vs@))) {
            (Ok(body), Ok(sb)) => body@ == sb,
            (Err(e), Err(se)) => e == se,
            _ => false,
        },
    decreases value, 0int,
{
    proof {
        lemma_cbor_items_index(vs@);
    }
    let mut body: Vec<u8> = Vec::new();
    let mut i: usize = 0;
    assert(cbor_items(vs@).subrange(0, 0) =~= Seq::empty());
    while i < vs.len()
        invariant
            i <= vs@.len(),
            *value == CborValue::Array(*vs),
            cbor_items(vs@).len() == vs@.len(),
            forall|k: int| 0 <= k < vs@.len() ==> #[trigger] cbor_items(vs@)[k] == cbor_item(vs@[k]),
            spec_encode_det_items(cbor_items(vs@).subrange(0, i as int)) == Ok::<Seq<u8>, QztError>(body@),
        decreases vs@.len() - i,
    {
        proof {
            assert(cbor_items(vs@).subrange(0, i + 1).drop_last() =~= cbor_items(vs@).subrange(0, i as int));
            assert(decreases_to!(*value => (*value)->Array_0));
            assert(decreases_to!(*vs => vs@));
            assert(decreases_to!(vs@ => vs@[i as int]));
        }
        let mut item: Vec<u8> = Vec::new();
        let res = encode_value(&vs[i], &mut item);
        match res {
            Err(e) => {
                proof {
                    lemma_items_err_prefix(cbor_items(vs@), i as int, vs@.len() as int);
                    assert(cbor_items(vs@).subrange(0, vs@.len() as int) =~= cbor_items(vs@));
                }
                return Err(e);
            },
            Ok(()) => {},
        }
        append_all(&mut body, item.as_slice());
        i = i + 1;
    }
    assert(cbor_items(vs@).subrange(0, i as int) =~= cbor_items(vs@));
    Ok(body)
}

/// Deterministic encodings of each key and value of a map, in entry order.
fn encode_pairs(value: &CborValue, es: &Vec<(CborValue, CborValue)>) -> (r: Result<
    Vec<(Vec<u8>, Vec<u8>)>,
>)
    requires
        *value == CborValue::Mapping(*es),
    ensures
        match (r, spec_encode_det_pairs(cbor_entries(es@))) {
            (Ok(ps), Ok(sp)) => pairs_view(ps@) == sp && ps@.len() == es@.len(),
            (Err(e), Err(se)) => e == se,
            _ => false,
        },
    decreases value, 0int,
{
    proof {
        lemma_cbor_entries_index(es@);
    }
    let mut encoded: Vec<(Vec<u8>, Vec<u8>)> = Vec::new();
    let mut i: usize = 0;
    assert(pairs_view(encoded@) =~= Seq::empty());
    assert(cbor_entries(es@).subrange(0, 0) =~= Seq::empty());
    while i < es.len()
        invariant
            i <= es@.len(),
            encoded@.len() == i,
            *value == CborValue::Mapping(*es),
            cbor_entries(es@).len() == es@.len(),
            forall|k: int| 0 <= k < es@.len() ==> #[trigger] cbor_entries(es@)[k] == (cbor_item(es@[k].0), cbor_item(es@[k].1)),
            spec_encode_det_pairs(cbor_entries(es@).subrange(0, i as int)) == Ok::<Seq<(Seq<u8>, Seq<u8>)>, QztError>(pairs_view(encoded@)),
        decreases es@.len() - i,
    {
        proof {
            assert(cbor_entries(es@).subrange(0, i + 1).drop_last() =~= cbor_entries(es@).subrange(0, i as int));
            assert(decreases_to!(*value => (*value)->Mapping_0));
            assert(decreases_to!(*es => es@));
            assert(decreases_to!(es@ => es@[i as int]));
            assert(decreases_to!(es@[i as int] => es@[i as int].0));
            assert(decreases_to!(es@[i as int] => es@[i as int].1));
        }
        let mut kb: Vec<u8> = Vec::new();
        match encode_value(&es[i].0, &mut kb) {
            Err(e) => {
                proof {
                    lemma_pairs_err_prefix(cbor_entries(es@), i as int, es@.len() as int);
                    assert(cbor_entries(es@).subrange(0, es@.len() as int) =~= cbor_entries(es@));
                }
                return Err(e);
            },
            Ok(()) => {},
        }
        let mut vb: Vec<u8> = Vec::new();
        match encode_value(&es[i].1, &mut vb) {
            Err(e) => {
                proof {
                    lemma_pairs_err_prefix(cbor_entries(es@), i as int, es@.len() as int);
                    assert(cbor_entries(es@).subrange(0, es@.len() as int) =~= cbor_entries(es@));
                }
                return Err(e);
            },
            Ok(()) => {},
        }
        let ghost before = pairs_view(encoded@);
        assert(kb@ =~= Seq::<u8>::empty() + kb@);
        assert(vb@ =~= Seq::<u8>::empty() + vb@);
        encoded.push((kb, vb));
        proof {
            assert(pairs_view(encoded@) =~= before.push((kb@, vb@)));
        }
        i = i + 1;
    }
    assert(cbor_entries(es@).subrange(0, i as int) =~= cbor_entries(es@));
    Ok(encoded)
}

/// Sorts encoded entries by key bytes, refusing a repeated key.
fn sort_pairs(pairs: Vec<(Vec<u8>, Vec<u8>)>) -> (r: Result<Vec<(Vec<u8>, Vec<u8>)>>)
    ensures
        match r {
            Ok(sorted) => !spec_has_dup_key(pairs_view(pairs@)) && spec_keys_strictly_sorted(
                pairs_view(sorted@),
            ) && pairs_view(sorted@).to_set() == pairs_view(pairs@).to_set(),
            Err(e) => e == QztError::DuplicateCborKey && spec_has_dup_key(pairs_view(pairs@)),
        },
{
    let ghost ps = pairs_view(pairs@);
    let n = pairs.len();
    let mut encoded = pairs;
    let mut sorted: Vec<(Vec<u8>, Vec<u8>)> = Vec::new();
    let mut i: usize = 0;
    assert(pairs_view(sorted@).to_set() =~= ps.subrange(0, 0).to_set());
    while encoded.len() > 0
        invariant
            i + encoded@.len() == ps.len(),
            ps == pairs_view(pairs@),
            ps.len() <= usize::MAX,
            forall|k: int| 0 <= k < encoded@.len() ==> (#[trigger] encoded@[k]).0@ == ps[k + i].0 && encoded@[k].1@ == ps[k + i].1,
            spec_keys_strictly_sorted(pairs_view(sorted@)),
            pairs_view(sorted@).to_set() == ps.subrange(0, i as int).to_set(),
            sorted@.len() == i,
            forall|a: int, b: int| 0 <= a < b < i ==> #[trigger] ps[a].0 != #[trigger] ps[b].0,
        decreases encoded@.len(),
    {
        let (kb, vb) = encoded.remove(0);
        let ghost kv = (kb@, vb@);
        assert(kv == ps[i as int]);
        let ghost before = pairs_view(sorted@);
        let ok = insert_sorted(&mut sorted, kb, vb);
        if !ok {
            proof {
                let k = choose|k: int| 0 <= k < before.len() && #[trigger] before[k].0 == kv.0;
                assert(before.to_set().contains(before[k]));
                let a = choose|a: int| 0 <= a < i && ps.subrange(0, i as int)[a] == before[k];
                assert(ps[a].0 == ps[i as int].0);
                assert(spec_has_dup_key(ps));
                assert(spec_has_dup_key(pairs_view(pairs@)));
            }
            return Err(QztError::DuplicateCborKey);
        }
        proof {
            assert(ps.subrange(0, i + 1) =~= ps.subrange(0, i as int).push(kv));
            assert(ps.subrange(0, i as int).push(kv) =~= ps.subrange(0, i as int) + seq![kv]);
            Seq::lemma_to_set_insert_commutes(ps.subrange(0, i as int), kv);
            assert forall|a: int, b: int| 0 <= a < b < i + 1 implies #[trigger] ps[a].0 != #[trigger] ps[b].0 by {
                if b == i {
                    assert(ps.subrange(0, i as int).to_set().contains(ps[a])) by {
                        assert(ps.subrange(0, i as int)[a] == ps[a]);
                    }
                    let k = choose|k: int| 0 <= k < before.len() && before[k] == ps[a];
                }
            }
        }
        i = i + 1;
    }
    proof {
        assert(ps.subrange(0, ps.len() as int) =~= ps);
    }
    Ok(sorted)
}

/// Appends each encoded key and value, in order.
fn append_pairs(out: &mut Vec<u8>, sorted: &Vec<(Vec<u8>, Vec<u8>)>)
    ensures
        final(out)@ == old(out)@ + spec_concat_pairs(pairs_view(sorted@)),
{
    let mut k: usize = 0;
    let ghost start = out@;
    assert(start + spec_concat_pairs(pairs_view(sorted@).subrange(0, 0)) =~= start);
    while k < sorted.len()
        invariant
            k <= sorted@.len(),
            out@ == start + spec_concat_pairs(pairs_view(sorted@).subrange(0, k as int)),
        decreases sorted@.len() - k,
    {
        assert(pairs_view(sorted@).subrange(0, k + 1).drop_last() =~= pairs_view(sorted@).subrange(0, k as int));
        append_all(out, sorted[k].0.as_slice());
        append_all(out, sorted[k].1.as_slice());
        assert(out@ =~= start + spec_concat_pairs(pairs_view(sorted@).subrange(0, k + 1)));
        k = k + 1;
    }
    assert(pairs_view(sorted@).subrange(0, k as int) =~= pairs_view(sorted@));
}

/// Encodes a CBOR value using the QZT deterministic profile.
pub fn encode_deterministic(value: &CborValue) -> (r: Result<Vec<u8>>)
    ensures
        match (r, spec_encode_det(value@)) {
            (Ok(bytes), Ok(sb)) => bytes@ == sb,
            (Err(e), Err(se)) => e == se,
            _ => false,
        },
{
    let mut out: Vec<u8> = Vec::new();
    encode_value(value, &mut out)?;
    assert(out@ =~= Seq::<u8>::empty() + spec_encode_det(value@)->Ok_0);
    Ok(out)
}


// ---------------------------------------------------------------------------
// What the decoder accepts
// ---------------------------------------------------------------------------

proof fn lemma_be_value_bound(x: Seq<u8>)
    ensures
        spec_be_value(x) < pow256(x.len()),
    decreases x.len(),
{
    if x.len() > 0 {
        lemma_be_value_bound(x.drop_last());
    }
}

proof fn lemma_be_bytes_of_value(x: Seq<u8>)
    ensures
        spec_be_bytes(spec_be_value(x), x.len()) == x,
    decreases x.len(),
{
    if x.len() > 0 {
        let v = spec_be_value(x.drop_last());
        let l = x.last() as nat;
        assert((v * 256 + l) / 256 == v && (v * 256 + l) % 256 == l) by (nonlinear_arith)
            requires
                l < 256,
        ;
        lemma_be_bytes_of_value(x.drop_last());
        assert(x =~= x.drop_last().push(x.last()));
    } else {
        assert(x =~= Seq::<u8>::empty());
    }
}

proof fn lemma_arg_head(s: Seq<u8>, pos: int, major: u8, ai: u8)
    requires
        0 <= pos < s.len(),
        major < 8,
        ai < 32,
        s[pos] == major * 32 + ai,
        spec_arg(s, pos + 1, ai) is Ok,
    ensures
        pos < spec_arg(s, pos + 1, ai)->Ok_0.1 <= s.len(),
        spec_arg(s, pos + 1, ai)->Ok_0.0 < 0x1_0000_0000_0000_0000,
        s.subrange(pos, spec_arg(s, pos + 1, ai)->Ok_0.1) == spec_head(
            major,
            spec_arg(s, pos + 1, ai)->Ok_0.0,
        ),
{
    let (arg, p) = spec_arg(s, pos + 1, ai)->Ok_0;
    if ai < 24 {
        assert(s.subrange(pos, p) =~= seq![s[pos]]);
    } else {
        let x = s.subrange(pos + 1, p);
        lemma_be_value_bound(x);
        lemma_be_bytes_of_value(x);
        reveal_with_fuel(pow256, 9);
        assert(s.subrange(pos, p) =~= seq![s[pos]] + x);
    }
}

/// Anything the decoder accepts at `pos` is the canonical encoding of the item it returns.
pub proof fn lemma_parse_value_sound(s: Seq<u8>, pos: int, depth: nat, b: Budget)
    requires
        spec_parse_value(s, pos, depth, b) is Ok,
    ensures
        pos < spec_parse_value(s, pos, depth, b)->Ok_0.1 <= s.len(),
        s.subrange(pos, spec_parse_value(s, pos, depth, b)->Ok_0.1) == spec_encode(
            spec_parse_value(s, pos, depth, b)->Ok_0.0,
        ),
        spec_canonical(spec_parse_value(s, pos, depth, b)->Ok_0.0),
    decreases s.len() - pos, 1int, 0int,
{
    let (v, p, _) = spec_parse_value(s, pos, depth, b)->Ok_0;
    let b1 = Budget { alloc: b.alloc, items: (b.items - 1) as u64 };
    let major = s[pos] / 32;
    let ai = s[pos] % 32;
    if major == 7 {
        assert(s.subrange(pos, p) =~= seq![s[pos]]);
    } else {
        lemma_arg_head(s, pos, major, ai);
        let (arg, q) = spec_arg(s, pos + 1, ai)->Ok_0;
        if major == 0 || major == 1 {
        } else if major == 2 || major == 3 {
            let bytes = s.subrange(q, q + arg);
            assert(s.subrange(pos, p) =~= s.subrange(pos, q) + bytes);
            if major == 3 {
                decode_utf8_encode_utf8(bytes);
            }
        } else if major == 4 {
            assert(spec_encode_items(Seq::<CborItem>::empty()) =~= s.subrange(q, q));
            lemma_parse_items_sound(s, q, arg, Seq::empty(), depth + 1, b1, q);
            let (vs, p2, _) = spec_parse_items(s, q, arg, Seq::empty(), depth + 1, b1)->Ok_0;
            assert(s.subrange(pos, p) =~= s.subrange(pos, q) + s.subrange(q, p2));
        } else {
            assert(spec_encode_entries(Seq::<(CborItem, CborItem)>::empty()) =~= s.subrange(q, q));
            lemma_parse_entries_sound(s, q, arg, Seq::empty(), None, depth + 1, b1, q);
            let (es, p2, _) = spec_parse_entries(s, q, arg, Seq::empty(), None, depth + 1, b1)->Ok_0;
            assert(s.subrange(pos, p) =~= s.subrange(pos, q) + s.subrange(q, p2));
        }
    }
}

proof fn lemma_parse_items_sound(
    s: Seq<u8>,
    pos: int,
    rem: nat,
    acc: Seq<CborItem>,
    depth: nat,
    b: Budget,
    origin: int,
)
    requires
        0 <= origin <= pos <= s.len(),
        spec_parse_items(s, pos, rem, acc, depth, b) is Ok,
        s.subrange(origin, pos) == spec_encode_items(acc),
        spec_canonical_items(acc),
    ensures
        pos <= spec_parse_items(s, pos, rem, acc, depth, b)->Ok_0.1 <= s.len(),
        spec_parse_items(s, pos, rem, acc, depth, b)->Ok_0.0.len() == acc.len() + rem,
        s.subrange(origin, spec_parse_items(s, pos, rem, acc, depth, b)->Ok_0.1)
            == spec_encode_items(spec_parse_items(s, pos, rem, acc, depth, b)->Ok_0.0),
        spec_canonical_items(spec_parse_items(s, pos, rem, acc, depth, b)->Ok_0.0),
    decreases s.len() - pos, 2int, rem,
{
    if rem > 0 {
        lemma_parse_value_sound(s, pos, depth, b);
        let (v, p2, b2) = spec_parse_value(s, pos, depth, b)->Ok_0;
        let acc2 = acc.push(v);
        assert(acc2.drop_last() =~= acc);
        assert(s.subrange(origin, p2) =~= s.subrange(origin, pos) + s.subrange(pos, p2));
        lemma_parse_items_sound(s, p2, (rem - 1) as nat, acc2, depth, b2, origin);
    }
}

proof fn lemma_parse_entries_sound(
    s: Seq<u8>,
    pos: int,
    rem: nat,
    acc: Seq<(CborItem, CborItem)>,
    prev: Option<Seq<u8>>,
    depth: nat,
    b: Budget,
    origin: int,
)
    requires
        0 <= origin <= pos <= s.len(),
        spec_parse_entries(s, pos, rem, acc, prev, depth, b) is Ok,
        s.subrange(origin, pos) == spec_encode_entries(acc),
        spec_canonical_entries(acc),
        prev is None ==> acc.len() == 0,
        prev is Some ==> acc.len() > 0 && prev->0 == spec_encode(acc.last().0),
    ensures
        pos <= spec_parse_entries(s, pos, rem, acc, prev, depth, b)->Ok_0.1 <= s.len(),
        spec_parse_entries(s, pos, rem, acc, prev, depth, b)->Ok_0.0.len() == acc.len() + rem,
        s.subrange(origin, spec_parse_entries(s, pos, rem, acc, prev, depth, b)->Ok_0.1)
            == spec_encode_entries(spec_parse_entries(s, pos, rem, acc, prev, depth, b)->Ok_0.0),
        spec_canonical_entries(spec_parse_entries(s, pos, rem, acc, prev, depth, b)->Ok_0.0),
    decreases s.len() - pos, 2int, rem,
{
    if rem > 0 {
        lemma_parse_value_sound(s, pos, depth, b);
        let (k, p2, b2) = spec_parse_value(s, pos, depth, b)->Ok_0;
        let kb = s.subrange(pos, p2);
        let b3 = Budget { alloc: (b2.alloc - kb.len()) as u64, items: b2.items };
        lemma_parse_value_sound(s, p2, depth, b3);
        let (v, p3, b4) = spec_parse_value(s, p2, depth, b3)->Ok_0;
        if prev is Some {
            lemma_lex_total(prev->0, kb);
        }
        let acc2 = acc.push((k, v));
        assert(acc2.drop_last() =~= acc);
        assert(s.subrange(origin, p3) =~= s.subrange(origin, pos) + s.subrange(pos, p2)
            + s.subrange(p2, p3));
        lemma_parse_entries_sound(s, p3, (rem - 1) as nat, acc2, Some(kb), depth, b4, origin);
    }
}

/// Whatever `validate_deterministic_with_limits` accepts is exactly the canonical
/// encoding of the item it returns.
pub proof fn lemma_validate_sound(s: Seq<u8>, limits: CborLimits)
    requires
        spec_validate(s, limits) is Ok,
    ensures
        spec_encode(spec_validate(s, limits)->Ok_0) == s,
        spec_canonical(spec_validate(s, limits)->Ok_0),
{
    let b = Budget { alloc: limits.max_allocation, items: limits.max_items };
    lemma_parse_value_sound(s, 0, 0, b);
    assert(s.subrange(0, s.len() as int) =~= s);
}


/// Key and value encodings of each entry, in order.
pub open spec fn spec_entry_encodings(s: Seq<(CborItem, CborItem)>) -> Seq<(Seq<u8>, Seq<u8>)>
    decreases s.len(),
{
    if s.len() == 0 {
        Seq::empty()
    } else {
        spec_entry_encodings(s.drop_last()).push((spec_encode(s.last().0), spec_encode(s.last().1)))
    }
}

proof fn lemma_entry_encodings_facts(s: Seq<(CborItem, CborItem)>)
    requires
        spec_canonical_entries(s),
    ensures
        spec_entry_encodings(s).len() == s.len(),
        spec_concat_pairs(spec_entry_encodings(s)) == spec_encode_entries(s),
        spec_keys_strictly_sorted(spec_entry_encodings(s)),
        s.len() > 0 ==> spec_entry_encodings(s).last().0 == spec_encode(s.last().0),
    decreases s.len(),
{
    if s.len() > 0 {
        let pre = s.drop_last();
        lemma_entry_encodings_facts(pre);
        let q = spec_entry_encodings(s);
        let qp = spec_entry_encodings(pre);
        assert(q.drop_last() =~= qp);
        assert forall|i: int, j: int| 0 <= i < j < q.len() implies spec_lex_lt(
            #[trigger] q[i].0,
            #[trigger] q[j].0,
        ) by {
            if j == q.len() - 1 && i < j - 1 {
                assert(spec_lex_lt(qp[i].0, qp[j - 1].0));
                lemma_lex_transitive(qp[i].0, qp[j - 1].0, q[j].0);
            } else if j < q.len() - 1 {
                assert(q[i] == qp[i] && q[j] == qp[j]);
            }
        }
    }
}

/// An item already in canonical form is encoded by the deterministic encoder
/// exactly as its canonical encoding.
pub proof fn lemma_encode_det_canonical(item: CborItem)
    requires
        spec_canonical(item),
    ensures
        spec_encode_det(item) == Ok::<Seq<u8>, QztError>(spec_encode(item)),
    decreases item,
{
    match item {
        CborItem::Array(vs) => {
            lemma_encode_det_items_canonical(vs);
        },
        CborItem::Mapping(es) => {
            lemma_encode_det_pairs_canonical(es);
            lemma_entry_encodings_facts(es);
            let ps = spec_entry_encodings(es);
            assert forall|i: int, j: int| 0 <= i < j < ps.len() implies #[trigger] ps[i].0
                != #[trigger] ps[j].0 by {
                lemma_lex_irreflexive(ps[i].0);
            }
            assert(!spec_has_dup_key(ps));
            let q = spec_key_sorted(ps);
            assert(spec_keys_strictly_sorted(ps) && ps.to_set() == ps.to_set());
            lemma_key_sorted_unique(q, ps);
        },
        _ => {},
    }
}

proof fn lemma_encode_det_items_canonical(s: Seq<CborItem>)
    requires
        spec_canonical_items(s),
    ensures
        spec_encode_det_items(s) == Ok::<Seq<u8>, QztError>(spec_encode_items(s)),
    decreases s,
{
    if s.len() > 0 {
        assert(decreases_to!(s => s[s.len() - 1]));
        lemma_encode_det_items_canonical(s.drop_last());
        lemma_encode_det_canonical(s.last());
    }
}

proof fn lemma_encode_det_pairs_canonical(s: Seq<(CborItem, CborItem)>)
    requires
        spec_canonical_entries(s),
    ensures
        spec_encode_det_pairs(s) == Ok::<Seq<(Seq<u8>, Seq<u8>)>, QztError>(spec_entry_encodings(s)),
    decreases s,
{
    if s.len() > 0 {
        assert(decreases_to!(s => s[s.len() - 1]));
        assert(decreases_to!(s[s.len() - 1] => s[s.len() - 1].0));
        assert(decreases_to!(s[s.len() - 1] => s[s.len() - 1].1));
        lemma_encode_det_pairs_canonical(s.drop_last());
        lemma_encode_det_canonical(s.last().0);
        lemma_encode_det_canonical(s.last().1);
    }
}

/// Decoding then re-encoding is the identity on every input the decoder accepts.
pub proof fn lemma_validate_then_encode(s: Seq<u8>, limits: CborLimits)
    requires
        spec_validate(s, limits) is Ok,
    ensures
        spec_encode_det(spec_validate(s, limits)->Ok_0) == Ok::<Seq<u8>, QztError>(s),
{
    lemma_validate_sound(s, limits);
    lemma_encode_det_canonical(spec_validate(s, limits)->Ok_0);
}


// ---------------------------------------------------------------------------
// Closed text-keyed schemas
// ---------------------------------------------------------------------------

/// Closed-schema rules for text-keyed CBOR maps.
#[derive(Debug, Clone, Copy)]
pub struct TextKeySchema<'a> {
    pub required: &'a [&'a str],
    pub optional: &'a [&'a str],
    pub allow_unknown: bool,
}

/// Some key of the map is the text `name`.
pub open spec fn spec_map_has_text_key(m: Seq<(CborItem, CborItem)>, name: Seq<char>) -> bool {
    exists|i: int| 0 <= i < m.len() && #[trigger] m[i].0 == CborItem::Text(name)
}

/// A map obeys a closed schema: every required name is a key, every key is
/// text, and unless unknown keys are allowed every key is required or optional.
pub open spec fn spec_obeys_schema(
    m: Seq<(CborItem, CborItem)>,
    required: Seq<Seq<char>>,
    optional: Seq<Seq<char>>,
    allow_unknown: bool,
) -> bool {
    &&& forall|r: int| 0 <= r < required.len() ==> spec_map_has_text_key(m, #[trigger] required[r])
    &&& forall|i: int| 0 <= i < m.len() ==> (#[trigger] m[i].0) is Text
    &&& allow_unknown || forall|i: int| 0 <= i < m.len() ==> (required.contains(#[trigger] m[i].0->Text_0) || optional.contains(m[i].0->Text_0))
}

fn names_contain(names: &[&str], t: &String) -> (r: bool)
    ensures
        r == names@.map_values(|s: &str| s@).contains(t@),
{
    let ghost ns = names@.map_values(|s: &str| s@);
    let mut j: usize = 0;
    while j < names.len()
        invariant
            j <= names@.len(),
            ns == names@.map_values(|s: &str| s@),
            forall|q: int| 0 <= q < j ==> ns[q] != t@,
        decreases names@.len() - j,
    {
        if crate::schema::text_is(t, names[j]) {
            assert(ns[j as int] == t@);
            return true;
        }
        j = j + 1;
    }
    false
}

/// Validates a deterministic text-keyed map against a closed schema.
pub fn validate_text_key_schema(input: &[u8], schema: TextKeySchema<'_>) -> (r: Result<CborValue>)
    ensures
        match spec_validate(input@, spec_default_limits()) {
            Err(e) => r == Err::<CborValue, QztError>(e),
            Ok(item) => if item is Mapping && spec_obeys_schema(
                item->Mapping_0,
                schema.required@.map_values(|s: &str| s@),
                schema.optional@.map_values(|s: &str| s@),
                schema.allow_unknown,
            ) {
                r matches Ok(v) && v@ == item
            } else {
                r == Err::<CborValue, QztError>(QztError::MetadataInvalid)
            },
        },
{
    let value = validate_deterministic(input)?;
    let entries = match &value {
        CborValue::Mapping(es) => es,
        _ => {
            return Err(QztError::MetadataInvalid);
        },
    };
    proof {
        lemma_cbor_entries_index(entries@);
    }
    let ghost m = cbor_entries(entries@);
    assert(value@ == CborItem::Mapping(m));
    let ghost req = schema.required@.map_values(|s: &str| s@);
    let ghost opt = schema.optional@.map_values(|s: &str| s@);
    let mut r: usize = 0;
    while r < schema.required.len()
        invariant
            r <= schema.required@.len(),
            spec_validate(input@, spec_default_limits()) == Ok::<CborItem, QztError>(value@),
            value@ == CborItem::Mapping(m),
            m == cbor_entries(entries@),
            m.len() == entries@.len(),
            req == schema.required@.map_values(|s: &str| s@),
            forall|k: int| 0 <= k < entries@.len() ==> #[trigger] m[k] == (cbor_item(entries@[k].0), cbor_item(entries@[k].1)),
            forall|q: int| 0 <= q < r ==> spec_map_has_text_key(m, #[trigger] req[q]),
        decreases schema.required@.len() - r,
    {
        let name = schema.required[r];
        let mut i: usize = 0;
        let mut found = false;
        while i < entries.len() && !found
            invariant
                i <= entries@.len(),
                m == cbor_entries(entries@),
                m.len() == entries@.len(),
                forall|k: int| 0 <= k < entries@.len() ==> #[trigger] m[k] == (cbor_item(entries@[k].0), cbor_item(entries@[k].1)),
                found ==> exists|j: int| 0 <= j < m.len() && #[trigger] m[j].0 == CborItem::Text(name@),
                !found ==> forall|j: int| 0 <= j < i ==> #[trigger] m[j].0 != CborItem::Text(name@),
            decreases entries@.len() - i,
        {
            match &entries[i].0 {
                CborValue::Text(t) => {
                    if crate::schema::text_is(t, name) {
                        assert(m[i as int].0 == CborItem::Text(name@));
                        found = true;
                    }
                },
                _ => {},
            }
            i = i + 1;
        }
        if !found {
            proof {
                assert(req[r as int] == name@);
                assert(!spec_map_has_text_key(m, req[r as int]));
            }
            return Err(QztError::MetadataInvalid);
        }
        assert(spec_map_has_text_key(m, req[r as int]));
        r = r + 1;
    }
    assert(req.len() == r);
    let mut i: usize = 0;
    while i < entries.len()
        invariant
            i <= entries@.len(),
            spec_validate(input@, spec_default_limits()) == Ok::<CborItem, QztError>(value@),
            value@ == CborItem::Mapping(m),
            m == cbor_entries(entries@),
            m.len() == entries@.len(),
            req == schema.required@.map_values(|s: &str| s@),
            opt == schema.optional@.map_values(|s: &str| s@),
            forall|q: int| 0 <= q < req.len() ==> spec_map_has_text_key(m, #[trigger] req[q]),
            forall|k: int| 0 <= k < entries@.len() ==> #[trigger] m[k] == (cbor_item(entries@[k].0), cbor_item(entries@[k].1)),
            forall|k: int| 0 <= k < i ==> (#[trigger] m[k].0) is Text,
            !schema.allow_unknown ==> forall|k: int| 0 <= k < i ==> (req.contains(#[trigger] m[k].0->Text_0) || opt.contains(m[k].0->Text_0)),
        decreases entries@.len() - i,
    {
        match &entries[i].0 {
            CborValue::Text(key) => {
                let known = names_contain(schema.required, key) || names_contain(schema.optional, key);
                if !known && !schema.allow_unknown {
                    assert(m[i as int].0->Text_0 == key@);
                    return Err(QztError::MetadataInvalid);
                }
            },
            _ => {
                assert(!(m[i as int].0 is Text));
                return Err(QztError::MetadataInvalid);
            },
        }
        i = i + 1;
    }
    Ok(value)
}


// ---------------------------------------------------------------------------
// Decoding what the encoder wrote
// ---------------------------------------------------------------------------

/// What decoding an item consumes: items counted against the item budget,
/// bytes counted against the allocation budget (byte and text payloads, and
/// the encoded bytes of every map key), and the nesting depth of containers.
pub open spec fn spec_cbor_cost(item: CborItem) -> (nat, nat, nat)
    decreases item, 0int,
{
    match item {
        CborItem::Bytes(b) => (1, b.len(), 0),
        CborItem::Text(t) => (1, encode_utf8(t).len(), 0),
        CborItem::Array(vs) => {
            let c = spec_items_cost(vs, 0);
            (1 + c.0, c.1, 1 + c.2)
        },
        CborItem::Mapping(es) => {
            let c = spec_entries_cost(es, 0);
            (1 + c.0, c.1, 1 + c.2)
        },
        _ => (1, 0, 0),
    }
}

/// What decoding array elements `k..` consumes.
pub open spec fn spec_items_cost(vs: Seq<CborItem>, k: int) -> (nat, nat, nat)
    decreases vs, vs.len() - k,
{
    if k < 0 || k >= vs.len() {
        (0, 0, 0)
    } else {
        proof {
            assert(decreases_to!(vs => vs[k]));
        }
        let a = spec_cbor_cost(vs[k]);
        let r = spec_items_cost(vs, k + 1);
        (a.0 + r.0, a.1 + r.1, if a.2 > r.2 { a.2 } else { r.2 })
    }
}

/// What decoding map entries `k..` consumes.
pub open spec fn spec_entries_cost(es: Seq<(CborItem, CborItem)>, k: int) -> (nat, nat, nat)
    decreases es, es.len() - k,
{
    if k < 0 || k >= es.len() {
        (0, 0, 0)
    } else {
        proof {
            assert(decreases_to!(es => es[k]));
            assert(decreases_to!(es[k] => es[k].0));
            assert(decreases_to!(es[k] => es[k].1));
        }
        let a = spec_cbor_cost(es[k].0);
        let v = spec_cbor_cost(es[k].1);
        let r = spec_entries_cost(es, k + 1);
        let d = if a.2 > v.2 { a.2 } else { v.2 };
        (a.0 + v.0 + r.0, a.1 + spec_encode(es[k].0).len() + v.1 + r.1, if d > r.2 { d } else { r.2 })
    }
}

/// Encodings of array elements `k..`, in order.
pub open spec fn spec_encode_items_from(vs: Seq<CborItem>, k: int) -> Seq<u8>
    decreases vs.len() - k,
{
    if k < 0 || k >= vs.len() {
        Seq::empty()
    } else {
        spec_encode(vs[k]) + spec_encode_items_from(vs, k + 1)
    }
}

/// Key-then-value encodings of map entries `k..`, in order.
pub open spec fn spec_encode_entries_from(es: Seq<(CborItem, CborItem)>, k: int) -> Seq<u8>
    decreases es.len() - k,
{
    if k < 0 || k >= es.len() {
        Seq::empty()
    } else {
        spec_encode(es[k].0) + spec_encode(es[k].1) + spec_encode_entries_from(es, k + 1)
    }
}

proof fn lemma_encode_items_from(vs: Seq<CborItem>, k: int)
    requires
        0 <= k <= vs.len(),
    ensures
        spec_encode_items(vs.subrange(0, k)) + spec_encode_items_from(vs, k) == spec_encode_items(vs),
    decreases vs.len() - k,
{
    if k == vs.len() {
        assert(vs.subrange(0, k) =~= vs);
        assert(spec_encode_items(vs) + Seq::<u8>::empty() =~= spec_encode_items(vs));
    } else {
        lemma_encode_items_from(vs, k + 1);
        assert(vs.subrange(0, k + 1).drop_last() =~= vs.subrange(0, k));
        assert(vs.subrange(0, k + 1).last() == vs[k]);
        assert(spec_encode_items(vs.subrange(0, k)) + spec_encode_items_from(vs, k) =~= spec_encode_items(vs.subrange(0, k + 1))
            + spec_encode_items_from(vs, k + 1));
    }
}

proof fn lemma_encode_entries_from(es: Seq<(CborItem, CborItem)>, k: int)
    requires
        0 <= k <= es.len(),
    ensures
        spec_encode_entries(es.subrange(0, k)) + spec_encode_entries_from(es, k) == spec_encode_entries(es),
    decreases es.len() - k,
{
    if k == es.len() {
        assert(es.subrange(0, k) =~= es);
        assert(spec_encode_entries(es) + Seq::<u8>::empty() =~= spec_encode_entries(es));
    } else {
        lemma_encode_entries_from(es, k + 1);
        assert(es.subrange(0, k + 1).drop_last() =~= es.subrange(0, k));
        assert(es.subrange(0, k + 1).last() == es[k]);
        assert(spec_encode_entries(es.subrange(0, k)) + spec_encode_entries_from(es, k) =~= spec_encode_entries(es.subrange(0, k + 1))
            + spec_encode_entries_from(es, k + 1));
    }
}

proof fn lemma_canonical_items_index(vs: Seq<CborItem>)
    requires
        spec_canonical_items(vs),
    ensures
        forall|i: int| 0 <= i < vs.len() ==> spec_canonical(#[trigger] vs[i]),
    decreases vs.len(),
{
    if vs.len() > 0 {
        lemma_canonical_items_index(vs.drop_last());
        assert forall|i: int| 0 <= i < vs.len() implies spec_canonical(#[trigger] vs[i]) by {
            if i < vs.len() - 1 {
                assert(vs.drop_last()[i] == vs[i]);
            }
        }
    }
}

proof fn lemma_canonical_entries_index(es: Seq<(CborItem, CborItem)>)
    requires
        spec_canonical_entries(es),
    ensures
        forall|i: int| 0 <= i < es.len() ==> spec_canonical((#[trigger] es[i]).0) && spec_canonical(es[i].1),
        forall|i: int| 1 <= i < es.len() ==> spec_lex_lt(spec_encode(es[i - 1].0), spec_encode((#[trigger] es[i]).0)),
    decreases es.len(),
{
    if es.len() > 0 {
        let pre = es.drop_last();
        lemma_canonical_entries_index(pre);
        assert forall|i: int| 0 <= i < es.len() implies spec_canonical((#[trigger] es[i]).0) && spec_canonical(es[i].1) by {
            if i < es.len() - 1 {
                assert(pre[i] == es[i]);
            }
        }
        assert forall|i: int| 1 <= i < es.len() implies spec_lex_lt(spec_encode(es[i - 1].0), spec_encode((#[trigger] es[i]).0)) by {
            if i < es.len() - 1 {
                assert(pre[i] == es[i] && pre[i - 1] == es[i - 1]);
            }
        }
    }
}

proof fn lemma_cost_positive(item: CborItem)
    ensures
        spec_cbor_cost(item).0 >= 1,
{
    match item {
        CborItem::Array(vs) => {},
        CborItem::Mapping(es) => {},
        _ => {},
    }
}

proof fn lemma_items_cost_count(vs: Seq<CborItem>, k: int)
    requires
        0 <= k <= vs.len(),
    ensures
        spec_items_cost(vs, k).0 >= vs.len() - k,
    decreases vs.len() - k,
{
    if k < vs.len() {
        lemma_items_cost_count(vs, k + 1);
        lemma_cost_positive(vs[k]);
    }
}

proof fn lemma_entries_cost_count(es: Seq<(CborItem, CborItem)>, k: int)
    requires
        0 <= k <= es.len(),
    ensures
        spec_entries_cost(es, k).0 >= es.len() - k,
    decreases es.len() - k,
{
    if k < es.len() {
        lemma_entries_cost_count(es, k + 1);
        lemma_cost_positive(es[k].0);
    }
}

proof fn lemma_be_value_of_bytes(v: nat, n: nat)
    requires
        v < pow256(n),
    ensures
        spec_be_bytes(v, n).len() == n,
        spec_be_value(spec_be_bytes(v, n)) == v,
    decreases n,
{
    if n > 0 {
        let q = pow256((n - 1) as nat);
        assert(v / 256 < q) by (nonlinear_arith)
            requires
                v < 256 * q,
        ;
        lemma_be_value_of_bytes(v / 256, (n - 1) as nat);
        let bb = spec_be_bytes(v, n);
        assert(bb.drop_last() =~= spec_be_bytes(v / 256, (n - 1) as nat));
        assert((v / 256) * 256 + v % 256 == v);
    }
}

/// The head the encoder writes reads back as its major type and argument.
proof fn lemma_head_parses(s: Seq<u8>, pos: int, major: u8, arg: nat)
    requires
        major < 6,
        arg < 0x1_0000_0000_0000_0000,
        0 <= pos,
        pos + spec_head(major, arg).len() <= s.len(),
        s.subrange(pos, pos + spec_head(major, arg).len()) == spec_head(major, arg),
    ensures
        s[pos] / 32 == major,
        spec_arg(s, pos + 1, s[pos] % 32) == Ok::<(nat, int), QztError>((arg, pos + spec_head(major, arg).len())),
{
    let h = spec_head(major, arg);
    assert(s[pos] == h[0]);
    let m = major as nat;
    reveal_with_fuel(pow256, 9);
    if arg < 24 {
        assert((m * 32 + arg) / 32 == m && (m * 32 + arg) % 32 == arg) by (nonlinear_arith)
            requires
                arg < 32,
        ;
    } else {
        let (ai, n): (nat, nat) = if arg < 0x100 {
            (24, 1)
        } else if arg < 0x10000 {
            (25, 2)
        } else if arg < 0x1_0000_0000 {
            (26, 4)
        } else {
            (27, 8)
        };
        assert((m * 32 + ai) / 32 == m && (m * 32 + ai) % 32 == ai) by (nonlinear_arith)
            requires
                ai < 32,
        ;
        lemma_be_value_of_bytes(arg, n);
        assert(h == seq![(m * 32 + ai) as u8] + spec_be_bytes(arg, n));
        assert(s.subrange(pos + 1, pos + 1 + n) =~= spec_be_bytes(arg, n)) by {
            assert forall|i: int| 0 <= i < n implies s.subrange(pos + 1, pos + 1 + n)[i] == spec_be_bytes(arg, n)[i] by {
                assert(s.subrange(pos, pos + h.len())[i + 1] == h[i + 1]);
            }
        }
    }
}

/// The encoding of a canonical item, found at `pos`, decodes back to the item,
/// ends where the encoding ends, and uses exactly its cost of the budget.
/// The encoding of a canonical item, found at `pos`, decodes back to the item,
/// ends where the encoding ends, and uses exactly its cost of the budget.
proof fn lemma_parse_encoded(s: Seq<u8>, pos: int, item: CborItem, depth: nat, b: Budget)
    requires
        0 <= pos,
        pos + spec_encode(item).len() <= s.len(),
        s.len() <= usize::MAX,
        s.subrange(pos, pos + spec_encode(item).len()) == spec_encode(item),
        spec_canonical(item),
        depth + spec_cbor_cost(item).2 <= MAX_CBOR_DEPTH,
        spec_cbor_cost(item).0 <= b.items,
        spec_cbor_cost(item).1 <= b.alloc,
    ensures
        spec_parse_value(s, pos, depth, b) == Ok::<(CborItem, int, Budget), QztError>((
            item,
            pos + spec_encode(item).len(),
            Budget { alloc: (b.alloc - spec_cbor_cost(item).1) as u64, items: (b.items - spec_cbor_cost(item).0) as u64 },
        )),
    decreases item, 1int,
{
    match item {
        CborItem::Array(vs) => lemma_parse_encoded_array(s, pos, vs, depth, b),
        CborItem::Mapping(es) => lemma_parse_encoded_map(s, pos, es, depth, b),
        _ => lemma_parse_encoded_scalar(s, pos, item, depth, b),
    }
}

/// A prefix of an encoding found at `pos` is found at `pos` too, and so is
/// the rest right after it.
pub(crate) proof fn lemma_split_found(s: Seq<u8>, pos: int, a: Seq<u8>, c: Seq<u8>)
    requires
        0 <= pos,
        pos + (a + c).len() <= s.len(),
        s.subrange(pos, pos + (a + c).len()) == a + c,
    ensures
        s.subrange(pos, pos + a.len()) == a,
        s.subrange(pos + a.len(), pos + a.len() + c.len()) == c,
{
    let ac = a + c;
    assert(s.subrange(pos, pos + a.len()) =~= a) by {
        assert forall|j: int| 0 <= j < a.len() implies s.subrange(pos, pos + a.len())[j] == a[j] by {
            assert(s.subrange(pos, pos + ac.len())[j] == ac[j]);
        }
    }
    assert(s.subrange(pos + a.len(), pos + a.len() + c.len()) =~= c) by {
        assert forall|j: int| 0 <= j < c.len() implies s.subrange(pos + a.len(), pos + a.len() + c.len())[j] == c[j] by {
            assert(s.subrange(pos, pos + ac.len())[a.len() + j] == ac[a.len() + j]);
        }
    }
}

#[verifier::rlimit(40)]
proof fn lemma_parse_encoded_scalar(s: Seq<u8>, pos: int, item: CborItem, depth: nat, b: Budget)
    requires
        !(item is Array),
        !(item is Mapping),
        0 <= pos,
        pos + spec_encode(item).len() <= s.len(),
        s.len() <= usize::MAX,
        s.subrange(pos, pos + spec_encode(item).len()) == spec_encode(item),
        spec_canonical(item),
        depth + spec_cbor_cost(item).2 <= MAX_CBOR_DEPTH,
        spec_cbor_cost(item).0 <= b.items,
        spec_cbor_cost(item).1 <= b.alloc,
    ensures
        spec_parse_value(s, pos, depth, b) == Ok::<(CborItem, int, Budget), QztError>((
            item,
            pos + spec_encode(item).len(),
            Budget { alloc: (b.alloc - spec_cbor_cost(item).1) as u64, items: (b.items - spec_cbor_cost(item).0) as u64 },
        )),
{
    let enc = spec_encode(item);
    assert(s[pos] == enc[0]) by {
        assert(s.subrange(pos, pos + enc.len())[0] == enc[0]);
    }
    match item {
        CborItem::Int(i) => {
            if i >= 0 {
                lemma_head_parses(s, pos, 0, i as nat);
            } else {
                lemma_head_parses(s, pos, 1, (-1 - i) as nat);
            }
        },
        CborItem::Bytes(bs) => {
            let h = spec_head(2, bs.len());
            lemma_split_found(s, pos, h, bs);
            lemma_head_parses(s, pos, 2, bs.len());
        },
        CborItem::Text(t) => {
            let u = encode_utf8(t);
            let h = spec_head(3, u.len());
            lemma_split_found(s, pos, h, u);
            lemma_head_parses(s, pos, 3, u.len());
            encode_utf8_valid_utf8(t);
            encode_utf8_decode_utf8(t);
        },
        _ => {},
    }
}

#[verifier::rlimit(40)]
proof fn lemma_parse_encoded_array(s: Seq<u8>, pos: int, vs: Seq<CborItem>, depth: nat, b: Budget)
    requires
        0 <= pos,
        pos + spec_encode(CborItem::Array(vs)).len() <= s.len(),
        s.len() <= usize::MAX,
        s.subrange(pos, pos + spec_encode(CborItem::Array(vs)).len()) == spec_encode(CborItem::Array(vs)),
        spec_canonical(CborItem::Array(vs)),
        depth + spec_cbor_cost(CborItem::Array(vs)).2 <= MAX_CBOR_DEPTH,
        spec_cbor_cost(CborItem::Array(vs)).0 <= b.items,
        spec_cbor_cost(CborItem::Array(vs)).1 <= b.alloc,
    ensures
        spec_parse_value(s, pos, depth, b) == Ok::<(CborItem, int, Budget), QztError>((
            CborItem::Array(vs),
            pos + spec_encode(CborItem::Array(vs)).len(),
            Budget { alloc: (b.alloc - spec_cbor_cost(CborItem::Array(vs)).1) as u64, items: (b.items - spec_cbor_cost(CborItem::Array(vs)).0) as u64 },
        )),
    decreases CborItem::Array(vs), 0int,
{
    let enc = spec_encode(CborItem::Array(vs));
    let b1 = Budget { alloc: b.alloc, items: (b.items - 1) as u64 };
    let h = spec_head(4, vs.len());
    let body = spec_encode_items(vs);
    lemma_split_found(s, pos, h, body);
    lemma_head_parses(s, pos, 4, vs.len());
    lemma_canonical_items_index(vs);
    lemma_items_cost_count(vs, 0);
    lemma_encode_items_from(vs, 0);
    assert(vs.subrange(0, 0) =~= Seq::<CborItem>::empty());
    assert(spec_encode_items(Seq::<CborItem>::empty()) =~= Seq::<u8>::empty());
    assert(spec_encode_items_from(vs, 0) =~= body);
    lemma_parse_encoded_items(s, pos + h.len(), vs, 0, depth + 1, b1);
}

#[verifier::rlimit(40)]
proof fn lemma_parse_encoded_map(s: Seq<u8>, pos: int, es: Seq<(CborItem, CborItem)>, depth: nat, b: Budget)
    requires
        0 <= pos,
        pos + spec_encode(CborItem::Mapping(es)).len() <= s.len(),
        s.len() <= usize::MAX,
        s.subrange(pos, pos + spec_encode(CborItem::Mapping(es)).len()) == spec_encode(CborItem::Mapping(es)),
        spec_canonical(CborItem::Mapping(es)),
        depth + spec_cbor_cost(CborItem::Mapping(es)).2 <= MAX_CBOR_DEPTH,
        spec_cbor_cost(CborItem::Mapping(es)).0 <= b.items,
        spec_cbor_cost(CborItem::Mapping(es)).1 <= b.alloc,
    ensures
        spec_parse_value(s, pos, depth, b) == Ok::<(CborItem, int, Budget), QztError>((
            CborItem::Mapping(es),
            pos + spec_encode(CborItem::Mapping(es)).len(),
            Budget { alloc: (b.alloc - spec_cbor_cost(CborItem::Mapping(es)).1) as u64, items: (b.items - spec_cbor_cost(CborItem::Mapping(es)).0) as u64 },
        )),
    decreases CborItem::Mapping(es), 0int,
{
    let b1 = Budget { alloc: b.alloc, items: (b.items - 1) as u64 };
    let h = spec_head(5, es.len());
    let body = spec_encode_entries(es);
    lemma_split_found(s, pos, h, body);
    lemma_head_parses(s, pos, 5, es.len());
    lemma_canonical_entries_index(es);
    lemma_entries_cost_count(es, 0);
    lemma_encode_entries_from(es, 0);
    assert(es.subrange(0, 0) =~= Seq::<(CborItem, CborItem)>::empty());
    assert(spec_encode_entries(Seq::<(CborItem, CborItem)>::empty()) =~= Seq::<u8>::empty());
    assert(spec_encode_entries_from(es, 0) =~= body);
    lemma_parse_encoded_entries(s, pos + h.len(), es, 0, depth + 1, b1);
}

/// Array elements `k..`, encoded in order at `pos`, decode back after the
/// first `k`.
proof fn lemma_parse_encoded_items(s: Seq<u8>, pos: int, vs: Seq<CborItem>, k: int, depth: nat, b: Budget)
    requires
        0 <= k <= vs.len(),
        forall|i: int| k <= i < vs.len() ==> spec_canonical(#[trigger] vs[i]),
        depth + spec_items_cost(vs, k).2 <= MAX_CBOR_DEPTH,
        spec_items_cost(vs, k).0 <= b.items,
        spec_items_cost(vs, k).1 <= b.alloc,
        0 <= pos,
        pos + spec_encode_items_from(vs, k).len() <= s.len(),
        s.len() <= usize::MAX,
        s.subrange(pos, pos + spec_encode_items_from(vs, k).len()) == spec_encode_items_from(vs, k),
    ensures
        spec_parse_items(s, pos, (vs.len() - k) as nat, vs.subrange(0, k), depth, b) == Ok::<(Seq<CborItem>, int, Budget), QztError>((
            vs,
            pos + spec_encode_items_from(vs, k).len(),
            Budget { alloc: (b.alloc - spec_items_cost(vs, k).1) as u64, items: (b.items - spec_items_cost(vs, k).0) as u64 },
        )),
    decreases vs, vs.len() - k,
{
    let from = spec_encode_items_from(vs, k);
    if k < vs.len() {
        assert(decreases_to!(vs => vs[k]));
        let e = spec_encode(vs[k]);
        let c = spec_cbor_cost(vs[k]);
        let rest = spec_encode_items_from(vs, k + 1);
        assert(from == e + rest);
        assert(s.subrange(pos, pos + e.len()) =~= e) by {
            assert forall|j: int| 0 <= j < e.len() implies s.subrange(pos, pos + e.len())[j] == e[j] by {
                assert(s.subrange(pos, pos + from.len())[j] == from[j]);
            }
        }
        lemma_parse_encoded(s, pos, vs[k], depth, b);
        let b2 = Budget { alloc: (b.alloc - c.1) as u64, items: (b.items - c.0) as u64 };
        assert(s.subrange(pos + e.len(), pos + from.len()) =~= rest) by {
            assert forall|j: int| 0 <= j < rest.len() implies s.subrange(pos + e.len(), pos + from.len())[j] == rest[j] by {
                assert(s.subrange(pos, pos + from.len())[e.len() + j] == from[e.len() + j]);
            }
        }
        assert(vs.subrange(0, k).push(vs[k]) =~= vs.subrange(0, k + 1));
        lemma_parse_encoded_items(s, pos + e.len(), vs, k + 1, depth, b2);
    } else {
        assert(vs.subrange(0, k) =~= vs);
    }
}

/// Map entries `k..`, encoded in order at `pos`, decode back after the first
/// `k`, their keys passing the order checks.
proof fn lemma_parse_encoded_entries(s: Seq<u8>, pos: int, es: Seq<(CborItem, CborItem)>, k: int, depth: nat, b: Budget)
    requires
        0 <= k <= es.len(),
        forall|i: int| k <= i < es.len() ==> spec_canonical((#[trigger] es[i]).0) && spec_canonical(es[i].1),
        forall|i: int| 1 <= i < es.len() ==> spec_lex_lt(spec_encode(es[i - 1].0), spec_encode((#[trigger] es[i]).0)),
        depth + spec_entries_cost(es, k).2 <= MAX_CBOR_DEPTH,
        spec_entries_cost(es, k).0 <= b.items,
        spec_entries_cost(es, k).1 <= b.alloc,
        0 <= pos,
        pos + spec_encode_entries_from(es, k).len() <= s.len(),
        s.len() <= usize::MAX,
        s.subrange(pos, pos + spec_encode_entries_from(es, k).len()) == spec_encode_entries_from(es, k),
    ensures
        spec_parse_entries(
            s,
            pos,
            (es.len() - k) as nat,
            es.subrange(0, k),
            if k == 0 { None } else { Some(spec_encode(es[k - 1].0)) },
            depth,
            b,
        ) == Ok::<(Seq<(CborItem, CborItem)>, int, Budget), QztError>((
            es,
            pos + spec_encode_entries_from(es, k).len(),
            Budget { alloc: (b.alloc - spec_entries_cost(es, k).1) as u64, items: (b.items - spec_entries_cost(es, k).0) as u64 },
        )),
    decreases es, es.len() - k,
{
    let from = spec_encode_entries_from(es, k);
    if k < es.len() {
        assert(decreases_to!(es => es[k]));
        assert(decreases_to!(es[k] => es[k].0));
        assert(decreases_to!(es[k] => es[k].1));
        let kk = es[k].0;
        let vv = es[k].1;
        let ke = spec_encode(kk);
        let ve = spec_encode(vv);
        let ck = spec_cbor_cost(kk);
        let cv = spec_cbor_cost(vv);
        let rest = spec_encode_entries_from(es, k + 1);
        assert(from == ke + ve + rest);
        assert(s.subrange(pos, pos + ke.len()) =~= ke) by {
            assert forall|j: int| 0 <= j < ke.len() implies s.subrange(pos, pos + ke.len())[j] == ke[j] by {
                assert(s.subrange(pos, pos + from.len())[j] == from[j]);
            }
        }
        lemma_parse_encoded(s, pos, kk, depth, b);
        let b2 = Budget { alloc: (b.alloc - ck.1) as u64, items: (b.items - ck.0) as u64 };
        if k > 0 {
            lemma_lex_irreflexive(ke);
            lemma_lex_asymmetric(spec_encode(es[k - 1].0), ke);
        }
        let b3 = Budget { alloc: (b2.alloc - ke.len()) as u64, items: b2.items };
        assert(s.subrange(pos + ke.len(), pos + ke.len() + ve.len()) =~= ve) by {
            assert forall|j: int| 0 <= j < ve.len() implies s.subrange(pos + ke.len(), pos + ke.len() + ve.len())[j] == ve[j] by {
                assert(s.subrange(pos, pos + from.len())[ke.len() + j] == from[ke.len() + j]);
            }
        }
        lemma_parse_encoded(s, pos + ke.len(), vv, depth, b3);
        let b4 = Budget { alloc: (b3.alloc - cv.1) as u64, items: (b3.items - cv.0) as u64 };
        assert(s.subrange(pos + ke.len() + ve.len(), pos + from.len()) =~= rest) by {
            assert forall|j: int| 0 <= j < rest.len() implies s.subrange(pos + ke.len() + ve.len(), pos + from.len())[j] == rest[j] by {
                assert(s.subrange(pos, pos + from.len())[ke.len() + ve.len() + j] == from[ke.len() + ve.len() + j]);
            }
        }
        assert(es.subrange(0, k).push((kk, vv)) =~= es.subrange(0, k + 1));
        lemma_parse_encoded_entries(s, pos + ke.len() + ve.len(), es, k + 1, depth, b4);
    } else {
        assert(es.subrange(0, k) =~= es);
    }
}

/// Encoding a canonical item and validating the bytes gives the item back,
/// whenever its nesting, item count and allocation fit the limits: the
/// deterministic encoder writes exactly the canonical encoding, and the
/// validator accepts that encoding as the item.
pub proof fn lemma_validate_encode(item: CborItem, limits: CborLimits)
    requires
        spec_canonical(item),
        spec_cbor_cost(item).2 <= MAX_CBOR_DEPTH,
        spec_cbor_cost(item).0 <= limits.max_items,
        spec_cbor_cost(item).1 <= limits.max_allocation,
        spec_encode(item).len() <= usize::MAX,
    ensures
        spec_encode_det(item) == Ok::<Seq<u8>, QztError>(spec_encode(item)),
        spec_validate(spec_encode(item), limits) == Ok::<CborItem, QztError>(item),
{
    lemma_encode_det_canonical(item);
    let s = spec_encode(item);
    assert(s.subrange(0, s.len() as int) =~= s);
    lemma_parse_encoded(s, 0, item, 0, Budget { alloc: limits.max_allocation, items: limits.max_items });
}

} // verus!
