//! Search over line granules: ASCII token keys and Unicode-scalar n-gram keys,
//! strictly sorted key sets, posting intersection, chunk accounting, and
//! exact matching of candidate lines against the original bytes.

use vstd::prelude::*;
use crate::cbor::{compare_bytes, spec_lex_lt, lemma_lex_irreflexive, lemma_lex_asymmetric, lemma_lex_transitive, lemma_lex_total};
use crate::error::{QztError, Result};
use crate::primitives::{checked_logical_end, u64_to_usize, usize_to_u64};
use crate::varint::{spec_varuint, spec_read_varuint, spec_read_varuint_from, write_varuint, read_varuint, varuint_len, lemma_varuint_roundtrip};
use vstd::string::StringSliceAdditionalSpecFns;
use crate::hashing::{blake3_digest, blake3_hash};
use crate::reader::{range_start_chunk_index, spec_export, spec_export_chunks, spec_read_range, CachedRangeRead, ChunkDecodeCache, QztFileReader, QztReader};
use crate::chunk_table::{spec_sum_sizes, spec_table_consistent};
use crate::bytes_util::text_from_utf8;
use crate::io::ReadAt;
use crate::skeleton::{spec_file_bytes, spec_io_failure, spec_skeleton_error, spec_skeleton_holds, SkeletonDetails};
use crate::limits::{spec_default_resource_limits, ResourceLimits};
use crate::chunk_table::ChunkEntry;

verus! {

broadcast use vstd::std_specs::hash::group_hash_axioms;

// ---------------------------------------------------------------------------
// Spans and tokens
// ---------------------------------------------------------------------------

/// A key found in decoded bytes and its byte range `[start, end)`.
#[derive(Debug, Clone, PartialEq, Eq)]
pub struct TokenSpan {
    pub key: Vec<u8>,
    pub start: usize,
    pub end: usize,
}

/// A span as plain values.
pub open spec fn span_view(t: TokenSpan) -> (Seq<u8>, int, int) {
    (t.key@, t.start as int, t.end as int)
}

/// Spans as plain values.
pub open spec fn spans_view(ts: Seq<TokenSpan>) -> Seq<(Seq<u8>, int, int)> {
    ts.map_values(|t: TokenSpan| span_view(t))
}

/// Token bytes: ASCII letters and digits, `_` and `-`.
pub open spec fn spec_is_token_byte(b: u8) -> bool {
    (48 <= b <= 57) || (65 <= b <= 90) || (97 <= b <= 122) || b == 95 || b == 45
}

/// ASCII lowercase of one byte.
pub open spec fn spec_ascii_lower(b: u8) -> u8 {
    if 65 <= b <= 90 { (b + 32) as u8 } else { b }
}

/// ASCII lowercase of every byte.
pub open spec fn spec_lower_bytes(s: Seq<u8>) -> Seq<u8> {
    s.map_values(|b: u8| spec_ascii_lower(b))
}

/// The token of the run `s[start..end)`, if the run is not empty.
pub open spec fn spec_flush(s: Seq<u8>, start: int, end: int) -> Seq<(Seq<u8>, int, int)> {
    if start < end {
        seq![(spec_lower_bytes(s.subrange(start, end)), start, end)]
    } else {
        Seq::empty()
    }
}

/// Tokens from `pos` on, the current run of token bytes having begun at `start`.
pub open spec fn spec_tokens_from(s: Seq<u8>, pos: int, start: int) -> Seq<(Seq<u8>, int, int)>
    decreases s.len() - pos,
{
    if pos >= s.len() {
        spec_flush(s, start, pos)
    } else if spec_is_token_byte(s[pos]) {
        spec_tokens_from(s, pos + 1, start)
    } else {
        spec_flush(s, start, pos) + spec_tokens_from(s, pos + 1, pos + 1)
    }
}

/// Maximal runs of token bytes, lowercased, with their byte ranges.
pub open spec fn spec_tokens(s: Seq<u8>) -> Seq<(Seq<u8>, int, int)> {
    spec_tokens_from(s, 0, 0)
}

fn is_token_byte(b: u8) -> (r: bool)
    ensures
        r == spec_is_token_byte(b),
{
    (b >= 48 && b <= 57) || (b >= 65 && b <= 90) || (b >= 97 && b <= 122) || b == 95 || b == 45
}

fn ascii_lower(b: u8) -> (r: u8)
    ensures
        r == spec_ascii_lower(b),
{
    if b >= 65 && b <= 90 {
        b + 32
    } else {
        b
    }
}

/// Splits bytes into maximal runs of ASCII alphanumerics, `_` and `-`, with
/// ASCII letters folded to lowercase.
pub fn tokenize_ascii_lower(bytes: &[u8]) -> (r: Vec<TokenSpan>)
    ensures
        spans_view(r@) == spec_tokens(bytes@),
{
    let mut tokens: Vec<TokenSpan> = Vec::new();
    let mut key: Vec<u8> = Vec::new();
    let mut start: usize = 0;
    let mut i: usize = 0;
    while i < bytes.len()
        invariant
            start <= i <= bytes@.len(),
            key@ == spec_lower_bytes(bytes@.subrange(start as int, i as int)),
            spans_view(tokens@) + spec_tokens_from(bytes@, i as int, start as int) == spec_tokens(
                bytes@,
            ),
        decreases bytes@.len() - i,
    {
        let b = bytes[i];
        if is_token_byte(b) {
            key.push(ascii_lower(b));
            assert(bytes@.subrange(start as int, i + 1) =~= bytes@.subrange(start as int, i as int).push(b));
            assert(key@ =~= spec_lower_bytes(bytes@.subrange(start as int, i + 1)));
        } else {
            let ghost before = tokens@;
            if start < i {
                tokens.push(TokenSpan { key, start, end: i });
                assert(spans_view(tokens@) =~= spans_view(before) + spec_flush(bytes@, start as int, i as int));
            } else {
                assert(spec_flush(bytes@, start as int, i as int) =~= Seq::<(Seq<u8>, int, int)>::empty());
                assert(spans_view(tokens@) =~= spans_view(before) + spec_flush(bytes@, start as int, i as int));
            }
            key = Vec::new();
            start = i + 1;
            assert(key@ =~= spec_lower_bytes(bytes@.subrange(start as int, start as int)));
        }
        i = i + 1;
    }
    let ghost before = tokens@;
    if start < i {
        tokens.push(TokenSpan { key, start, end: i });
        assert(spans_view(tokens@) =~= spans_view(before) + spec_flush(bytes@, start as int, i as int));
    } else {
        assert(spans_view(tokens@) =~= spans_view(before) + spec_flush(bytes@, start as int, i as int));
    }
    tokens
}

// ---------------------------------------------------------------------------
// Strictly sorted key sets
// ---------------------------------------------------------------------------

/// Keys as plain byte sequences.
pub open spec fn keys_view(ks: Seq<Vec<u8>>) -> Seq<Seq<u8>> {
    ks.map_values(|k: Vec<u8>| k@)
}

/// Strictly increasing in bytewise order.
pub open spec fn spec_strictly_sorted(ks: Seq<Seq<u8>>) -> bool {
    forall|i: int, j: int| 0 <= i < j < ks.len() ==> spec_lex_lt(#[trigger] ks[i], #[trigger] ks[j])
}

/// The keys of tokens.
pub open spec fn spec_token_keys(ts: Seq<(Seq<u8>, int, int)>) -> Seq<Seq<u8>> {
    ts.map_values(|t: (Seq<u8>, int, int)| t.0)
}

/// Adds `key` to a strictly sorted key list unless it is there already.
fn insert_sorted_unique(out: &mut Vec<Vec<u8>>, key: Vec<u8>)
    requires
        spec_strictly_sorted(keys_view(old(out)@)),
    ensures
        spec_strictly_sorted(keys_view(final(out)@)),
        forall|k: Seq<u8>|
            keys_view(final(out)@).contains(k) <==> (keys_view(old(out)@).contains(k) || k == key@),
{
    let ghost ko = keys_view(out@);
    let mut p: usize = 0;
    let mut c: i8 = 1;
    let mut done = false;
    while p < out.len() && !done
        invariant
            p <= out@.len(),
            out@ == old(out)@,
            ko == keys_view(out@),
            spec_strictly_sorted(ko),
            forall|i: int| 0 <= i < p ==> spec_lex_lt(#[trigger] ko[i], key@),
            done ==> p < out@.len() && c >= 0,
            done ==> (c == 0 <==> ko[p as int] == key@),
            done ==> (c > 0 <==> spec_lex_lt(key@, ko[p as int])),
        decreases out@.len() - p + (if done { 0int } else { 1int }),
    {
        c = compare_bytes(out[p].as_slice(), key.as_slice());
        if c >= 0 {
            done = true;
        } else {
            p = p + 1;
        }
    }
    if done && c == 0 {
        assert(forall|k: Seq<u8>| ko.contains(k) <==> (ko.contains(k) || k == key@)) by {
            assert(ko.contains(ko[p as int]));
        }
        return;
    }
    let ghost kv = key@;
    out.insert(p, key);
    proof {
        let kn = keys_view(out@);
        assert(kn =~= ko.insert(p as int, kv));
        assert forall|i: int, j: int| 0 <= i < j < kn.len() implies spec_lex_lt(
            #[trigger] kn[i],
            #[trigger] kn[j],
        ) by {
            if j > p {
                assert(done && c > 0);
                assert(spec_lex_lt(kv, ko[j - 1])) by {
                    if j - 1 > p {
                        lemma_lex_transitive(kv, ko[p as int], ko[j - 1]);
                    }
                }
                if i < p {
                    lemma_lex_transitive(ko[i], kv, ko[j - 1]);
                }
            }
        }
        assert forall|k: Seq<u8>| kn.contains(k) <==> (ko.contains(k) || k == kv) by {
            if kn.contains(k) {
                let w = choose|w: int| 0 <= w < kn.len() && kn[w] == k;
                if w < p {
                    assert(ko[w] == k);
                } else if w > p {
                    assert(ko[w - 1] == k);
                }
            }
            if ko.contains(k) {
                let w = choose|w: int| 0 <= w < ko.len() && ko[w] == k;
                if w < p {
                    assert(kn[w] == k);
                } else {
                    assert(kn[w + 1] == k);
                }
            }
            if k == kv {
                assert(kn[p as int] == k);
            }
        }
    }
}

proof fn lemma_push_contains<A>(s: Seq<A>, a: A)
    ensures
        forall|x: A| #[trigger] s.push(a).contains(x) <==> (s.contains(x) || x == a),
{
    assert forall|x: A| s.push(a).contains(x) <==> (s.contains(x) || x == a) by {
        if s.push(a).contains(x) {
            let w = choose|w: int| 0 <= w < s.push(a).len() && s.push(a)[w] == x;
            if w < s.len() {
                assert(s[w] == x);
            }
        }
        if s.contains(x) {
            let w = choose|w: int| 0 <= w < s.len() && s[w] == x;
            assert(s.push(a)[w] == x);
        }
        if x == a {
            assert(s.push(a)[s.len() as int] == x);
        }
    }
}

/// Distinct lowercased token keys of a query, in bytewise order.
pub fn unique_query_keys(query: &[u8]) -> (r: Vec<Vec<u8>>)
    ensures
        spec_strictly_sorted(keys_view(r@)),
        forall|k: Seq<u8>| keys_view(r@).contains(k) <==> spec_token_keys(spec_tokens(query@)).contains(k),
{
    let tokens = tokenize_ascii_lower(query);
    let ghost tk = spec_token_keys(spec_tokens(query@));
    let mut keys: Vec<Vec<u8>> = Vec::new();
    let mut i: usize = 0;
    while i < tokens.len()
        invariant
            i <= tokens@.len(),
            spans_view(tokens@) == spec_tokens(query@),
            tk == spec_token_keys(spec_tokens(query@)),
            tk.len() == tokens@.len(),
            spec_strictly_sorted(keys_view(keys@)),
            forall|k: Seq<u8>| keys_view(keys@).contains(k) <==> tk.subrange(0, i as int).contains(k),
        decreases tokens@.len() - i,
    {
        let key = tokens[i].key.clone();
        assert(key@ =~= tokens@[i as int].key@);
        assert(tk[i as int] == spans_view(tokens@)[i as int].0);
        insert_sorted_unique(&mut keys, key);
        proof {
            lemma_push_contains(tk.subrange(0, i as int), tk[i as int]);
            assert(tk.subrange(0, i + 1) =~= tk.subrange(0, i as int).push(tk[i as int]));
        }
        i = i + 1;
    }
    assert(tk.subrange(0, i as int) =~= tk);
    keys
}

// ---------------------------------------------------------------------------
// N-gram keys
// ---------------------------------------------------------------------------

/// A byte that begins a UTF-8 scalar (not a continuation byte).
pub open spec fn spec_is_char_start(b: u8) -> bool {
    b < 0x80 || b >= 0xC0
}

/// Scalar start positions among the first `k` bytes.
pub open spec fn spec_starts_upto(s: Seq<u8>, k: int) -> Seq<int>
    decreases k,
{
    if k <= 0 {
        Seq::empty()
    } else if spec_is_char_start(s[k - 1]) {
        spec_starts_upto(s, k - 1).push(k - 1)
    } else {
        spec_starts_upto(s, k - 1)
    }
}

/// Every scalar start position, followed by the length of the text.
pub open spec fn spec_char_bounds(s: Seq<u8>) -> Seq<int> {
    spec_starts_upto(s, s.len() as int).push(s.len() as int)
}

/// The byte spellings of all windows of `n` consecutive scalars, in order.
pub open spec fn spec_ngram_keys(s: Seq<u8>, n: nat) -> Seq<Seq<u8>> {
    let cs = spec_char_bounds(s);
    if n == 0 || cs.len() - 1 < n {
        Seq::empty()
    } else {
        Seq::new((cs.len() - n) as nat, |w: int| s.subrange(cs[w], cs[w + n as int]))
    }
}

proof fn lemma_starts_bounds(s: Seq<u8>, k: int)
    requires
        0 <= k <= s.len(),
    ensures
        spec_starts_upto(s, k).len() <= k,
        forall|i: int| 0 <= i < spec_starts_upto(s, k).len() ==> 0 <= #[trigger] spec_starts_upto(s, k)[i] < k,
        forall|i: int, j: int| 0 <= i < j < spec_starts_upto(s, k).len() ==> #[trigger] spec_starts_upto(s, k)[i] < #[trigger] spec_starts_upto(s, k)[j],
    decreases k,
{
    if k > 0 {
        lemma_starts_bounds(s, k - 1);
    }
}

fn char_bounds(bytes: &[u8]) -> (r: Vec<usize>)
    ensures
        r@.map_values(|x: usize| x as int) == spec_char_bounds(bytes@),
{
    let mut starts: Vec<usize> = Vec::new();
    let mut i: usize = 0;
    while i < bytes.len()
        invariant
            i <= bytes@.len(),
            starts@.map_values(|x: usize| x as int) == spec_starts_upto(bytes@, i as int),
        decreases bytes@.len() - i,
    {
        let b = bytes[i];
        if b < 0x80 || b >= 0xC0 {
            starts.push(i);
            assert(starts@.map_values(|x: usize| x as int) =~= spec_starts_upto(bytes@, i as int).push(i as int));
        }
        i = i + 1;
    }
    starts.push(bytes.len());
    assert(starts@.map_values(|x: usize| x as int) =~= spec_char_bounds(bytes@));
    starts
}

/// The keys of all windows of `n` consecutive Unicode scalars of `text`,
/// spelled in its original UTF-8 bytes.
pub fn ngram_keys(text: &[u8], n: usize) -> (r: Vec<Vec<u8>>)
    ensures
        keys_view(r@) == spec_ngram_keys(text@, n as nat),
{
    if n == 0 {
        return Vec::new();
    }
    let cs = char_bounds(text);
    let ghost ci = cs@.map_values(|x: usize| x as int);
    proof {
        lemma_starts_bounds(text@, text@.len() as int);
        assert(cs@.len() == ci.len());
    }
    if cs.len() - 1 < n {
        let empty: Vec<Vec<u8>> = Vec::new();
        assert(keys_view(empty@) =~= spec_ngram_keys(text@, n as nat));
        return empty;
    }
    let count = cs.len() - n;
    let mut keys: Vec<Vec<u8>> = Vec::new();
    let mut w: usize = 0;
    while w < count
        invariant
            count == cs@.len() - n,
            n >= 1,
            cs@.len() >= n + 1,
            ci == cs@.map_values(|x: usize| x as int),
            ci == spec_char_bounds(text@),
            forall|i: int| 0 <= i < ci.len() ==> 0 <= #[trigger] ci[i] <= text@.len(),
            forall|i: int, j: int| 0 <= i < j < ci.len() ==> #[trigger] ci[i] < #[trigger] ci[j],
            w <= count,
            keys_view(keys@) == spec_ngram_keys(text@, n as nat).subrange(0, w as int),
        decreases count - w,
    {
        assert(w + n < cs.len());
        let start = cs[w];
        let end = cs[w + n];
        assert(ci[w as int] == start as int && ci[w + n] == end as int);
        assert(ci.len() == cs@.len());
        assert(ci[w as int] < ci[w + n]);
        assert(start < end);
        let key = crate::bytes_util::slice_to_vec(text, start, end);
        assert(spec_ngram_keys(text@, n as nat).len() == count);
        assert(spec_ngram_keys(text@, n as nat)[w as int] == text@.subrange(start as int, end as int));
        let ghost k0 = keys@;
        keys.push(key);
        assert(keys_view(keys@) =~= keys_view(k0).push(text@.subrange(start as int, end as int)));
        assert(keys_view(keys@) =~= spec_ngram_keys(text@, n as nat).subrange(0, w + 1));
        w = w + 1;
    }
    assert(spec_ngram_keys(text@, n as nat).subrange(0, w as int) =~= spec_ngram_keys(text@, n as nat));
    keys
}

/// Distinct n-gram keys of a query in bytewise order; `n` must be nonzero.
pub fn ngram_keys_for_query(query: &str, n: usize) -> (r: Result<Vec<Vec<u8>>>)
    ensures
        n == 0 ==> r == Err::<Vec<Vec<u8>>, QztError>(QztError::ResourceLimitExceeded),
        n > 0 ==> (r matches Ok(ks) && spec_strictly_sorted(keys_view(ks@)) && (forall|k: Seq<u8>|
            keys_view(ks@).contains(k) <==> spec_ngram_keys(query.spec_bytes(), n as nat).contains(k))),
{
    if n == 0 {
        return Err(QztError::ResourceLimitExceeded);
    }
    let all = ngram_keys(query.as_bytes(), n);
    let ghost ak = keys_view(all@);
    let mut keys: Vec<Vec<u8>> = Vec::new();
    let mut i: usize = 0;
    while i < all.len()
        invariant
            i <= all@.len(),
            ak == keys_view(all@),
            spec_strictly_sorted(keys_view(keys@)),
            forall|k: Seq<u8>| keys_view(keys@).contains(k) <==> ak.subrange(0, i as int).contains(k),
        decreases all@.len() - i,
    {
        let key = all[i].clone();
        assert(key@ =~= all@[i as int]@);
        insert_sorted_unique(&mut keys, key);
        proof {
            lemma_push_contains(ak.subrange(0, i as int), ak[i as int]);
            assert(ak.subrange(0, i + 1) =~= ak.subrange(0, i as int).push(ak[i as int]));
        }
        i = i + 1;
    }
    assert(ak.subrange(0, i as int) =~= ak);
    Ok(keys)
}

// ---------------------------------------------------------------------------
// Posting intersection
// ---------------------------------------------------------------------------

/// Strictly increasing identifiers.
pub open spec fn spec_increasing(s: Seq<u64>) -> bool {
    forall|i: int, j: int| 0 <= i < j < s.len() ==> #[trigger] s[i] < #[trigger] s[j]
}

fn intersect_two_sorted(left: &Vec<u64>, right: &Vec<u64>) -> (r: Vec<u64>)
    requires
        spec_increasing(left@),
        spec_increasing(right@),
    ensures
        spec_increasing(r@),
        forall|x: u64| r@.contains(x) <==> (left@.contains(x) && right@.contains(x)),
{
    let mut output: Vec<u64> = Vec::new();
    let mut li: usize = 0;
    let mut ri: usize = 0;
    while li < left.len() && ri < right.len()
        invariant
            li <= left@.len(),
            ri <= right@.len(),
            spec_increasing(left@),
            spec_increasing(right@),
            spec_increasing(output@),
            forall|x: u64| output@.contains(x) <==> (left@.subrange(0, li as int).contains(x) && right@.subrange(0, ri as int).contains(x)),
            forall|p: int| 0 <= p < li ==> (ri < right@.len() ==> #[trigger] left@[p] < right@[ri as int]),
            forall|q: int| 0 <= q < ri ==> (li < left@.len() ==> #[trigger] right@[q] < left@[li as int]),
        decreases left@.len() - li + right@.len() - ri,
    {
        let a = left[li];
        let b = right[ri];
        let ghost lp = left@.subrange(0, li as int);
        let ghost rp = right@.subrange(0, ri as int);
        let ghost out0 = output@;
        if a < b {
            li = li + 1;
            proof {
                assert(left@.subrange(0, li as int) =~= lp.push(a));
                lemma_push_contains(lp, a);
                assert(!rp.contains(a)) by {
                    if rp.contains(a) {
                        let q = choose|q: int| 0 <= q < rp.len() && rp[q] == a;
                        assert(right@[q] < left@[li - 1]);
                    }
                }
                assert forall|x: u64| output@.contains(x) <==> (left@.subrange(0, li as int).contains(x) && right@.subrange(0, ri as int).contains(x)) by {}
            }
        } else if b < a {
            ri = ri + 1;
            proof {
                assert(right@.subrange(0, ri as int) =~= rp.push(b));
                lemma_push_contains(rp, b);
                assert(!lp.contains(b)) by {
                    if lp.contains(b) {
                        let p = choose|p: int| 0 <= p < lp.len() && lp[p] == b;
                        assert(left@[p] < right@[ri - 1]);
                    }
                }
                assert forall|x: u64| output@.contains(x) <==> (left@.subrange(0, li as int).contains(x) && right@.subrange(0, ri as int).contains(x)) by {}
            }
        } else {
            proof {
                assert forall|k: int| 0 <= k < out0.len() implies #[trigger] out0[k] < a by {
                    assert(out0.contains(out0[k]));
                    let p = choose|p: int| 0 <= p < lp.len() && lp[p] == out0[k];
                }
            }
            output.push(a);
            li = li + 1;
            ri = ri + 1;
            proof {
                assert(left@.subrange(0, li as int) =~= lp.push(a));
                assert(right@.subrange(0, ri as int) =~= rp.push(b));
                lemma_push_contains(lp, a);
                lemma_push_contains(rp, b);
                lemma_push_contains(out0, a);
                assert(output@ =~= out0.push(a));
                assert(a == b);
                assert(!rp.contains(a)) by {
                    if rp.contains(a) {
                        let q = choose|q: int| 0 <= q < rp.len() && rp[q] == a;
                        assert(right@[q] < left@[li - 1]);
                    }
                }
                assert(!lp.contains(b)) by {
                    if lp.contains(b) {
                        let p = choose|p: int| 0 <= p < lp.len() && lp[p] == b;
                        assert(left@[p] < right@[ri - 1]);
                    }
                }
                assert forall|x: u64| output@.contains(x) <==> (left@.subrange(0, li as int).contains(x) && right@.subrange(0, ri as int).contains(x)) by {
                    assert(output@.contains(x) == (out0.contains(x) || x == a));
                    assert(left@.subrange(0, li as int).contains(x) == (lp.contains(x) || x == a));
                    assert(right@.subrange(0, ri as int).contains(x) == (rp.contains(x) || x == a));
                    assert(out0.contains(x) == (lp.contains(x) && rp.contains(x)));
                }
            }
        }
    }
    proof {
        assert forall|x: u64| output@.contains(x) <==> (left@.contains(x) && right@.contains(x)) by {
            if left@.contains(x) && right@.contains(x) {
                let p = choose|p: int| 0 <= p < left@.len() && left@[p] == x;
                let q = choose|q: int| 0 <= q < right@.len() && right@[q] == x;
                if p < li && q < ri {
                    assert(left@.subrange(0, li as int)[p] == x);
                    assert(right@.subrange(0, ri as int)[q] == x);
                } else if p >= li {
                    assert(right@[q] < left@[li as int] || q >= ri);
                    if q >= ri {
                        assert(left@[li as int] <= left@[p]);
                    }
                } else {
                    assert(left@[p] < right@[ri as int]);
                    assert(right@[ri as int] <= right@[q]);
                }
            }
            if output@.contains(x) {
                let p = choose|p: int| 0 <= p < li && left@.subrange(0, li as int)[p] == x;
                let q = choose|q: int| 0 <= q < ri && right@.subrange(0, ri as int)[q] == x;
                assert(left@[p] == x);
                assert(right@[q] == x);
            }
        }
    }
    output
}

/// Identifiers present in every list of `postings` named by `order`, in
/// increasing order; none when `order` is empty.
pub fn intersect_postings(postings: &Vec<Vec<u64>>, order: &Vec<usize>) -> (r: Vec<u64>)
    requires
        forall|k: int| 0 <= k < order@.len() ==> #[trigger] order@[k] < postings@.len(),
        forall|k: int| 0 <= k < order@.len() ==> spec_increasing(#[trigger] postings@[order@[k] as int]@),
    ensures
        spec_increasing(r@),
        order@.len() == 0 ==> r@.len() == 0,
        order@.len() > 0 ==> forall|x: u64| r@.contains(x) <==> (forall|k: int| 0 <= k < order@.len() ==> (#[trigger] postings@[order@[k] as int])@.contains(x)),
{
    if order.len() == 0 {
        return Vec::new();
    }
    let mut current = postings[order[0]].clone();
    let mut k: usize = 1;
    while k < order.len()
        invariant
            1 <= k <= order@.len(),
            forall|j: int| 0 <= j < order@.len() ==> #[trigger] order@[j] < postings@.len(),
            forall|j: int| 0 <= j < order@.len() ==> spec_increasing(#[trigger] postings@[order@[j] as int]@),
            spec_increasing(current@),
            forall|x: u64| current@.contains(x) <==> (forall|j: int| 0 <= j < k ==> (#[trigger] postings@[order@[j] as int])@.contains(x)),
        decreases order@.len() - k,
    {
        if current.len() == 0 {
            assert forall|x: u64| current@.contains(x) <==> (forall|j: int| 0 <= j < order@.len() ==> (#[trigger] postings@[order@[j] as int])@.contains(x)) by {
                if forall|j: int| 0 <= j < order@.len() ==> (#[trigger] postings@[order@[j] as int])@.contains(x) {
                    assert(forall|j: int| 0 <= j < k ==> (#[trigger] postings@[order@[j] as int])@.contains(x));
                }
            }
            return current;
        }
        let next = intersect_two_sorted(&current, &postings[order[k]]);
        proof {
            assert forall|x: u64| next@.contains(x) <==> (forall|j: int| 0 <= j < k + 1 ==> (#[trigger] postings@[order@[j] as int])@.contains(x)) by {
                if forall|j: int| 0 <= j < k + 1 ==> (#[trigger] postings@[order@[j] as int])@.contains(x) {
                    assert(postings@[order@[k as int] as int]@.contains(x));
                }
            }
        }
        current = next;
        k = k + 1;
    }
    current
}

// ---------------------------------------------------------------------------
// Granules and chunk accounting
// ---------------------------------------------------------------------------

/// One posting target over original bytes.
#[derive(Debug, Clone, Copy, PartialEq, Eq)]
pub struct SearchGranule {
    pub granule_id: u64,
    pub logical_offset: u64,
    pub byte_length: u64,
    pub chunk_start: u64,
    pub chunk_end: u64,
    pub first_line: Option<u64>,
    pub line_count: Option<u64>,
}

/// Chunk identifiers covered by any of the granules.
pub open spec fn spec_chunk_ids(gs: Seq<SearchGranule>) -> Set<u64> {
    Set::new(|c: u64| exists|i: int| 0 <= i < gs.len() && #[trigger] gs[i].chunk_start <= c && c < gs[i].chunk_end)
}

/// Number of distinct chunks that the granules' chunk spans cover.
pub fn count_chunks(granules: &Vec<SearchGranule>) -> (r: Result<u64>)
    ensures
        r == Ok::<u64, QztError>(spec_chunk_ids(granules@).len() as u64),
{
    proof {
        assert(vstd::std_specs::hash::obeys_key_model::<u64>());
        assert(vstd::std_specs::hash::builds_valid_hashers::<std::collections::hash_map::RandomState>());
    }
    let mut chunks: std::collections::HashSet<u64> = std::collections::HashSet::new();
    let mut i: usize = 0;
    while i < granules.len()
        invariant
            i <= granules@.len(),
            vstd::std_specs::hash::obeys_key_model::<u64>(),
            vstd::std_specs::hash::builds_valid_hashers::<std::collections::hash_map::RandomState>(),
            chunks@ == spec_chunk_ids(granules@.subrange(0, i as int)),
        decreases granules@.len() - i,
    {
        let g = granules[i];
        let mut c = g.chunk_start;
        while c < g.chunk_end
            invariant
                vstd::std_specs::hash::obeys_key_model::<u64>(),
                vstd::std_specs::hash::builds_valid_hashers::<std::collections::hash_map::RandomState>(),
                g == granules@[i as int],
                i < granules@.len(),
                g.chunk_start <= c,
                c <= g.chunk_end || c == g.chunk_start,
                chunks@ == spec_chunk_ids(granules@.subrange(0, i as int)).union(
                    Set::new(|x: u64| g.chunk_start <= x && x < c),
                ),
            decreases g.chunk_end - c,
        {
            let ghost before = chunks@;
            chunks.insert(c);
            proof {
                assert(chunks@ == before.insert(c));
                assert(chunks@ =~= spec_chunk_ids(granules@.subrange(0, i as int)).union(
                    Set::new(|x: u64| g.chunk_start <= x && x < c + 1),
                ));
            }
            c = c + 1;
        }
        proof {
            let prev = granules@.subrange(0, i as int);
            let next = granules@.subrange(0, i + 1);
            assert forall|x: u64| chunks@.contains(x) <==> spec_chunk_ids(next).contains(x) by {
                if spec_chunk_ids(next).contains(x) {
                    let w = choose|w: int| 0 <= w < next.len() && #[trigger] next[w].chunk_start <= x && x < next[w].chunk_end;
                    if w < i {
                        assert(prev[w] == next[w]);
                    }
                }
                if spec_chunk_ids(prev).contains(x) {
                    let w = choose|w: int| 0 <= w < prev.len() && #[trigger] prev[w].chunk_start <= x && x < prev[w].chunk_end;
                    assert(next[w] == prev[w]);
                }
                if g.chunk_start <= x && x < g.chunk_end {
                    assert(next[i as int] == g);
                }
            }
            assert(chunks@ =~= spec_chunk_ids(next));
        }
        i = i + 1;
    }
    assert(granules@.subrange(0, i as int) =~= granules@);
    let n = chunks.len();
    usize_to_u64(n)
}


// ---------------------------------------------------------------------------
// Delta varint posting lists
// ---------------------------------------------------------------------------

/// The value stored for position `i`: the first value itself, then the
/// difference from the previous value.
pub open spec fn spec_delta(vs: Seq<u64>, i: int) -> nat {
    if i == 0 { vs[0] as nat } else { (vs[i] - vs[i - 1]) as nat }
}

/// Encoding of the first `k` values.
pub open spec fn spec_delta_prefix(vs: Seq<u64>, k: int) -> Seq<u8>
    decreases k,
{
    if k <= 0 {
        Seq::empty()
    } else {
        spec_delta_prefix(vs, k - 1) + spec_varuint(spec_delta(vs, k - 1))
    }
}

/// Delta varint encoding of a whole list.
pub open spec fn spec_delta_encode(vs: Seq<u64>) -> Seq<u8> {
    spec_delta_prefix(vs, vs.len() as int)
}

/// Each value after the first is larger than the one before it.
pub open spec fn spec_adjacent_increasing(vs: Seq<u64>) -> bool {
    forall|i: int| 1 <= i < vs.len() ==> #[trigger] vs[i - 1] < vs[i]
}

/// Decoding from `pos` with the values decoded so far in `vals`.
pub open spec fn spec_delta_decode_from(s: Seq<u8>, pos: int, vals: Seq<u64>, max: u64) -> Result<Seq<u64>>
    decreases s.len() - pos,
{
    if pos < 0 || pos >= s.len() {
        Ok(vals)
    } else if vals.len() >= max {
        Err(QztError::ResourceLimitExceeded)
    } else {
        match spec_read_varuint(s, pos, QztError::ContainerCorrupt) {
            Err(e) => Err(e),
            Ok((d, p)) => {
                if p <= pos || p > s.len() {
                    Err(QztError::ContainerCorrupt)
                } else if vals.len() == 0 {
                    spec_delta_decode_from(s, p, seq![d], max)
                } else if vals.last() + d > u64::MAX || d == 0 {
                    Err(QztError::ContainerCorrupt)
                } else {
                    spec_delta_decode_from(s, p, vals.push((vals.last() + d) as u64), max)
                }
            }
        }
    }
}

/// Decoding of a whole delta varint list, at most `max` values.
pub open spec fn spec_delta_decode(s: Seq<u8>, max: u64) -> Result<Seq<u64>> {
    spec_delta_decode_from(s, 0, Seq::empty(), max)
}

/// Delta decoding gives a strictly increasing list.
pub(crate) proof fn lemma_delta_decode_increasing(s: Seq<u8>, max: u64)
    ensures
        spec_delta_decode(s, max) matches Ok(v) ==> spec_increasing(v),
{
    lemma_delta_decode_from_adjacent(s, 0, Seq::empty(), max);
    if spec_delta_decode(s, max) is Ok {
        lemma_adjacent_increasing(spec_delta_decode(s, max)->Ok_0);
    }
}

proof fn lemma_delta_decode_from_adjacent(s: Seq<u8>, pos: int, vals: Seq<u64>, max: u64)
    requires
        spec_adjacent_increasing(vals),
    ensures
        spec_delta_decode_from(s, pos, vals, max) matches Ok(v) ==> spec_adjacent_increasing(v),
    decreases s.len() - pos,
{
    if pos < 0 || pos >= s.len() {
    } else if vals.len() >= max {
    } else {
        match spec_read_varuint(s, pos, QztError::ContainerCorrupt) {
            Err(e) => {},
            Ok((d, p)) => {
                if p <= pos || p > s.len() {
                } else if vals.len() == 0 {
                    lemma_delta_decode_from_adjacent(s, p, seq![d], max);
                } else if vals.last() + d > u64::MAX || d == 0 {
                } else {
                    let nv = vals.push((vals.last() + d) as u64);
                    assert forall|i: int| 1 <= i < nv.len() implies #[trigger] nv[i - 1] < nv[i] by {
                        if i < vals.len() {
                            assert(vals[i - 1] < vals[i]);
                        }
                    }
                    lemma_delta_decode_from_adjacent(s, p, nv, max);
                }
            },
        }
    }
}

proof fn lemma_adjacent_increasing(vs: Seq<u64>)
    requires
        spec_adjacent_increasing(vs),
    ensures
        spec_increasing(vs),
    decreases vs.len(),
{
    if vs.len() > 0 {
        let d = vs.drop_last();
        assert(spec_adjacent_increasing(d)) by {
            assert forall|i: int| 1 <= i < d.len() implies #[trigger] d[i - 1] < d[i] by {
                assert(vs[i - 1] < vs[i]);
            }
        }
        lemma_adjacent_increasing(d);
        assert forall|i: int, j: int| 0 <= i < j < vs.len() implies #[trigger] vs[i] < #[trigger] vs[j] by {
            if j < vs.len() - 1 {
                assert(d[i] < d[j]);
            } else if i < j - 1 {
                assert(d[i] < d[j - 1]);
                assert(vs[j - 1] < vs[j]);
            } else {
                assert(vs[j - 1] < vs[j]);
            }
        }
    }
}

proof fn lemma_delta_prefix_extends(vs: Seq<u64>, j: int, k: int)
    requires
        0 <= j <= k,
    ensures
        spec_delta_prefix(vs, k).subrange(0, spec_delta_prefix(vs, j).len() as int) == spec_delta_prefix(vs, j),
        spec_delta_prefix(vs, j).len() <= spec_delta_prefix(vs, k).len(),
    decreases k - j,
{
    if j < k {
        lemma_delta_prefix_extends(vs, j, k - 1);
        let a = spec_delta_prefix(vs, k - 1);
        assert(spec_delta_prefix(vs, k).subrange(0, a.len() as int) =~= a);
        assert(spec_delta_prefix(vs, k).subrange(0, spec_delta_prefix(vs, j).len() as int) =~= a.subrange(0, spec_delta_prefix(vs, j).len() as int));
    } else {
        assert(spec_delta_prefix(vs, k).subrange(0, spec_delta_prefix(vs, j).len() as int) =~= spec_delta_prefix(vs, j));
    }
}

proof fn lemma_read_shift_from(p: Seq<u8>, s: Seq<u8>, pos: int, i: nat, acc: nat)
    requires
        0 <= pos,
    ensures
        spec_read_varuint_from(p + s, p.len() + pos, i, acc, QztError::ContainerCorrupt) == (match spec_read_varuint_from(s, pos, i, acc, QztError::ContainerCorrupt) {
            Ok((v, q)) => Ok::<(u64, int), QztError>((v, q + p.len())),
            Err(e) => Err::<(u64, int), QztError>(e),
        }),
    decreases 10 - i,
{
    if pos + i < s.len() {
        assert((p + s)[p.len() + pos + i] == s[pos + i]);
        let byte = s[pos + i];
        let payload = (byte % 128) as nat;
        if !(i >= 9 && payload > 1) && byte >= 128 && i < 9 {
            lemma_read_shift_from(p, s, pos, i + 1, acc + payload * crate::varint::pow128(i));
        }
    }
}

proof fn lemma_read_in_middle(a: Seq<u8>, v: u64, b: Seq<u8>)
    ensures
        spec_read_varuint(a + spec_varuint(v as nat) + b, a.len() as int, QztError::ContainerCorrupt)
            == Ok::<(u64, int), QztError>((v, (a.len() + spec_varuint(v as nat).len()) as int)),
{
    let e = spec_varuint(v as nat) + b;
    lemma_varuint_roundtrip(v, b, QztError::ContainerCorrupt);
    lemma_read_shift_from(a, e, 0, 0, 0);
    assert(a + spec_varuint(v as nat) + b =~= a + e);
}

/// Decoding the delta varint encoding of a strictly increasing list of at
/// most `max` values gives the list back.
pub proof fn lemma_delta_roundtrip(vs: Seq<u64>, max: u64)
    requires
        spec_increasing(vs),
        vs.len() <= max,
    ensures
        spec_delta_decode(spec_delta_encode(vs), max) == Ok::<Seq<u64>, QztError>(vs),
{
    lemma_delta_decode_suffix(vs, max, 0);
    assert(vs.subrange(0, 0) =~= Seq::<u64>::empty());
}

proof fn lemma_varuint_nonempty(v: nat)
    ensures
        spec_varuint(v).len() >= 1,
    decreases v,
{
    if v >= 128 {
        lemma_varuint_nonempty(v / 128);
    }
}

proof fn lemma_delta_decode_suffix(vs: Seq<u64>, max: u64, k: int)
    requires
        spec_increasing(vs),
        vs.len() <= max,
        0 <= k <= vs.len(),
    ensures
        spec_delta_decode_from(spec_delta_encode(vs), spec_delta_prefix(vs, k).len() as int, vs.subrange(0, k), max)
            == Ok::<Seq<u64>, QztError>(vs),
    decreases vs.len() - k,
{
    let enc = spec_delta_encode(vs);
    let n = vs.len() as int;
    lemma_delta_prefix_extends(vs, k, n);
    if k == n {
        assert(vs.subrange(0, k) =~= vs);
    } else {
        lemma_delta_prefix_extends(vs, k + 1, n);
        let a = spec_delta_prefix(vs, k);
        let d = spec_delta(vs, k);
        let a2 = spec_delta_prefix(vs, k + 1);
        assert(d < 0x1_0000_0000_0000_0000);
        let rest = enc.subrange(a2.len() as int, enc.len() as int);
        assert(enc =~= a + spec_varuint(d) + rest) by {
            assert(enc.subrange(0, a2.len() as int) == a2);
        }
        lemma_read_in_middle(a, d as u64, rest);
        lemma_varuint_nonempty(d);
        assert(a.len() < enc.len());
        lemma_delta_decode_suffix(vs, max, k + 1);
        if k == 0 {
            assert(vs.subrange(0, 1) =~= seq![vs[0]]);
        } else {
            assert(vs[k - 1] < vs[k]);
            assert(vs.subrange(0, k).last() == vs[k - 1]);
            assert(vs.subrange(0, k).push(vs[k]) =~= vs.subrange(0, k + 1));
        }
    }
}

/// Encodes an ordered list as delta varints: the first value directly, each
/// later value as its positive difference from the previous one.
pub fn encode_delta_varint_u64(values: &[u64]) -> (r: Result<Vec<u8>>)
    ensures
        spec_adjacent_increasing(values@) ==> (r matches Ok(b) && b@ == spec_delta_encode(values@)),
        !spec_adjacent_increasing(values@) ==> r == Err::<Vec<u8>, QztError>(QztError::ContainerCorrupt),
{
    let mut bytes: Vec<u8> = Vec::new();
    let mut i: usize = 0;
    while i < values.len()
        invariant
            i <= values@.len(),
            bytes@ == spec_delta_prefix(values@, i as int),
            forall|j: int| 1 <= j < i ==> #[trigger] values@[j - 1] < values@[j],
        decreases values@.len() - i,
    {
        let delta = if i == 0 {
            values[0]
        } else {
            if values[i] <= values[i - 1] {
                return Err(QztError::ContainerCorrupt);
            }
            values[i] - values[i - 1]
        };
        write_varuint(delta, &mut bytes);
        i = i + 1;
    }
    Ok(bytes)
}

/// Decodes delta varints into a strictly increasing list of at most
/// `max_values` values.
pub fn decode_delta_varint_u64_with_limit(bytes: &[u8], max_values: u64) -> (r: Result<Vec<u64>>)
    ensures
        match (r, spec_delta_decode(bytes@, max_values)) {
            (Ok(v), Ok(sv)) => v@ == sv,
            (Err(e), Err(se)) => e == se,
            _ => false,
        },
{
    let mut cursor: usize = 0;
    let mut values: Vec<u64> = Vec::new();
    while cursor < bytes.len()
        invariant
            cursor <= bytes@.len(),
            spec_delta_decode(bytes@, max_values) == spec_delta_decode_from(bytes@, cursor as int, values@, max_values),
        decreases bytes@.len() - cursor,
    {
        if values.len() as u64 >= max_values {
            return Err(QztError::ResourceLimitExceeded);
        }
        let (delta, next) = read_varuint(bytes, cursor, QztError::ContainerCorrupt)?;
        let value = if values.len() == 0 {
            delta
        } else {
            let previous = values[values.len() - 1];
            if delta > u64::MAX - previous || delta == 0 {
                return Err(QztError::ContainerCorrupt);
            }
            previous + delta
        };
        let ghost v0 = values@;
        values.push(value);
        proof {
            if v0.len() == 0 {
                assert(values@ =~= seq![delta]);
            }
        }
        cursor = next;
    }
    Ok(values)
}

/// Decodes delta varints into a strictly increasing list.
pub fn decode_delta_varint_u64(bytes: &[u8]) -> (r: Result<Vec<u64>>)
    ensures
        match (r, spec_delta_decode(bytes@, u64::MAX)) {
            (Ok(v), Ok(sv)) => v@ == sv,
            (Err(e), Err(se)) => e == se,
            _ => false,
        },
{
    decode_delta_varint_u64_with_limit(bytes, u64::MAX)
}

/// Periodic seek record of a long posting list.
#[derive(Debug, Clone, Copy, PartialEq, Eq)]
pub struct SkipPoint {
    pub entry_index: u64,
    pub granule_id: u64,
    pub posting_byte_offset: u64,
}

/// Skip points among the first `k` entries: one at every nonzero multiple of 128.
pub open spec fn spec_skip_upto(vs: Seq<u64>, k: int) -> Seq<SkipPoint>
    decreases k,
{
    if k <= 0 {
        Seq::empty()
    } else if k - 1 > 0 && (k - 1) % 128 == 0 {
        spec_skip_upto(vs, k - 1).push(SkipPoint {
            entry_index: (k - 1) as u64,
            granule_id: vs[k - 1],
            posting_byte_offset: spec_delta_prefix(vs, k - 1).len() as u64,
        })
    } else {
        spec_skip_upto(vs, k - 1)
    }
}

/// Skip points of a posting list: none below 1024 entries.
pub open spec fn spec_skip_points(vs: Seq<u64>) -> Seq<SkipPoint> {
    if vs.len() < 1024 { Seq::empty() } else { spec_skip_upto(vs, vs.len() as int) }
}

proof fn lemma_skip_len(vs: Seq<u64>, k: int)
    requires
        1 <= k,
    ensures
        spec_skip_upto(vs, k).len() == (k - 1) / 128,
    decreases k,
{
    reveal_with_fuel(spec_skip_upto, 2);
    if k > 1 {
        lemma_skip_len(vs, k - 1);
        assert((k - 1) / 128 == (k - 2) / 128 + (if (k - 1) % 128 == 0 { 1int } else { 0int })) by (nonlinear_arith)
            requires
                k >= 2,
        ;
    }
}

/// Skip points of an encoded posting list, checked against its encoding.
fn build_skip_points(posting_list: &Vec<u64>, encoded: &Vec<u8>) -> (r: Result<Vec<SkipPoint>>)
    requires
        spec_increasing(posting_list@),
        encoded@ == spec_delta_encode(posting_list@),
    ensures
        r matches Ok(ps) && ps@ == spec_skip_points(posting_list@),
{
    if posting_list.len() < 1024 {
        return Ok(Vec::new());
    }
    let ghost vs = posting_list@;
    let ghost n = vs.len() as int;
    let mut points: Vec<SkipPoint> = Vec::new();
    let mut cursor: usize = 0;
    let mut previous: u64 = 0;
    let mut index: usize = 0;
    while index < posting_list.len()
        invariant
            index <= vs.len(),
            n == vs.len(),
            vs == posting_list@,
            spec_increasing(vs),
            encoded@ == spec_delta_encode(vs),
            cursor as int == spec_delta_prefix(vs, index as int).len(),
            index > 0 ==> previous == vs[index - 1],
            points@ == spec_skip_upto(vs, index as int),
        decreases vs.len() - index,
    {
        proof {
            lemma_delta_prefix_extends(vs, index as int, n);
            lemma_delta_prefix_extends(vs, index + 1, n);
        }
        let byte_offset = cursor as u64;
        let granule_id = posting_list[index];
        if index > 0 && index % 128 == 0 {
            points.push(SkipPoint { entry_index: index as u64, granule_id, posting_byte_offset: byte_offset });
        }
        let ghost a = spec_delta_prefix(vs, index as int);
        let ghost d = spec_delta(vs, index as int);
        let ghost a2 = spec_delta_prefix(vs, index + 1);
        let ghost rest = encoded@.subrange(a2.len() as int, encoded@.len() as int);
        proof {
            if index > 0 {
                assert(vs[index - 1] < vs[index as int]);
            }
            assert(encoded@ =~= a + spec_varuint(d) + rest) by {
                assert(encoded@.subrange(0, a2.len() as int) == a2);
            }
            lemma_read_in_middle(a, d as u64, rest);
        }
        let (delta, next) = match read_varuint(encoded.as_slice(), cursor, QztError::ContainerCorrupt) {
            Ok(x) => x,
            Err(e) => {
                assert(false);
                return Err(e);
            }
        };
        let decoded = if index == 0 { delta } else { previous + delta };
        assert(decoded == granule_id);
        previous = decoded;
        cursor = next;
        index = index + 1;
    }
    Ok(points)
}

// ---------------------------------------------------------------------------
// Granule and term dictionary validation
// ---------------------------------------------------------------------------

/// The first failure among the first `n` granules, checked in order.
pub open spec fn spec_granules_error(size: u64, gs: Seq<SearchGranule>, n: int) -> Option<QztError>
    decreases n,
{
    if n <= 0 {
        None
    } else if spec_granules_error(size, gs, n - 1) is Some {
        spec_granules_error(size, gs, n - 1)
    } else {
        let g = gs[n - 1];
        if g.granule_id != n - 1 {
            Some(QztError::ContainerCorrupt)
        } else if g.logical_offset + g.byte_length > u64::MAX {
            Some(QztError::LogicalRangeOutOfBounds)
        } else if g.logical_offset + g.byte_length > size {
            Some(QztError::LogicalRangeOutOfBounds)
        } else if n - 1 > 0 && g.logical_offset < gs[n - 2].logical_offset {
            Some(QztError::ContainerCorrupt)
        } else if g.chunk_end < g.chunk_start {
            Some(QztError::ChunkTableInvalid)
        } else {
            None
        }
    }
}

proof fn lemma_granules_error_stable(size: u64, gs: Seq<SearchGranule>, n: int, m: int)
    requires
        0 <= n <= m,
        spec_granules_error(size, gs, n) is Some,
    ensures
        spec_granules_error(size, gs, m) == spec_granules_error(size, gs, n),
    decreases m - n,
{
    if n < m {
        lemma_granules_error_stable(size, gs, n, m - 1);
    }
}

/// Checks that granules have consecutive identifiers, lie inside the source,
/// start in non-decreasing order and have ordered chunk spans.
pub fn validate_granules(source_size_bytes: u64, granules: &Vec<SearchGranule>) -> (r: Result<()>)
    ensures
        match spec_granules_error(source_size_bytes, granules@, granules@.len() as int) {
            None => r is Ok,
            Some(e) => r == Err::<(), QztError>(e),
        },
{
    let mut i: usize = 0;
    while i < granules.len()
        invariant
            i <= granules@.len(),
            spec_granules_error(source_size_bytes, granules@, i as int) is None,
        decreases granules@.len() - i,
    {
        let g = granules[i];
        let bad = if g.granule_id != i as u64 {
            Some(QztError::ContainerCorrupt)
        } else if g.logical_offset > u64::MAX - g.byte_length {
            Some(QztError::LogicalRangeOutOfBounds)
        } else if g.logical_offset + g.byte_length > source_size_bytes {
            Some(QztError::LogicalRangeOutOfBounds)
        } else if i > 0 && g.logical_offset < granules[i - 1].logical_offset {
            Some(QztError::ContainerCorrupt)
        } else if g.chunk_end < g.chunk_start {
            Some(QztError::ChunkTableInvalid)
        } else {
            None
        };
        assert(spec_granules_error(source_size_bytes, granules@, i + 1) == bad);
        if let Some(e) = bad {
            proof {
                lemma_granules_error_stable(source_size_bytes, granules@, i + 1, granules@.len() as int);
            }
            return Err(e);
        }
        i = i + 1;
    }
    Ok(())
}

/// One entry of a term dictionary.
#[derive(Debug, Clone, PartialEq, Eq)]
pub struct TermDictionaryEntry {
    pub key: Vec<u8>,
    pub key_hash: [u8; 16],
    pub document_frequency: u64,
    pub granule_frequency: u64,
    pub posting_offset: u64,
    pub posting_size: u64,
    pub skip_offset: u64,
    pub skip_size: u64,
    pub flags: u64,
}

/// Term keys as plain byte sequences.
pub open spec fn term_keys(ts: Seq<TermDictionaryEntry>) -> Seq<Seq<u8>> {
    ts.map_values(|t: TermDictionaryEntry| t.key@)
}

/// Keys strictly increasing pair by adjacent pair.
pub open spec fn spec_adjacent_sorted(ks: Seq<Seq<u8>>) -> bool {
    forall|i: int| 1 <= i < ks.len() ==> spec_lex_lt(#[trigger] ks[i - 1], ks[i])
}

/// The failure of one term and its posting list, if any.
pub open spec fn spec_term_shape_error(t: TermDictionaryEntry, p: Seq<u64>, granule_count: usize) -> Option<QztError> {
    if t.flags != 0 {
        Some(QztError::InvalidFlags)
    } else if !spec_adjacent_increasing(p) {
        Some(QztError::ContainerCorrupt)
    } else if exists|j: int| 0 <= j < p.len() && #[trigger] p[j] >= granule_count {
        Some(QztError::ContainerCorrupt)
    } else {
        None
    }
}

/// The first failure among the first `n` terms.
pub open spec fn spec_terms_error(ts: Seq<TermDictionaryEntry>, ps: Seq<Vec<u64>>, granule_count: usize, n: int) -> Option<QztError>
    decreases n,
{
    if n <= 0 {
        None
    } else if spec_terms_error(ts, ps, granule_count, n - 1) is Some {
        spec_terms_error(ts, ps, granule_count, n - 1)
    } else {
        spec_term_shape_error(ts[n - 1], ps[n - 1]@, granule_count)
    }
}

/// The failure of a whole term dictionary, if any.
pub open spec fn spec_dictionary_shape_error(ts: Seq<TermDictionaryEntry>, ps: Seq<Vec<u64>>, granule_count: usize) -> Option<QztError> {
    if ts.len() != ps.len() {
        Some(QztError::ContainerCorrupt)
    } else if !spec_adjacent_sorted(term_keys(ts)) {
        Some(QztError::ContainerCorrupt)
    } else {
        spec_terms_error(ts, ps, granule_count, ts.len() as int)
    }
}

proof fn lemma_terms_error_stable(ts: Seq<TermDictionaryEntry>, ps: Seq<Vec<u64>>, granule_count: usize, n: int, m: int)
    requires
        0 <= n <= m,
        spec_terms_error(ts, ps, granule_count, n) is Some,
    ensures
        spec_terms_error(ts, ps, granule_count, m) == spec_terms_error(ts, ps, granule_count, n),
    decreases m - n,
{
    if n < m {
        lemma_terms_error_stable(ts, ps, granule_count, n, m - 1);
    }
}

/// A well-shaped dictionary: parallel posting lists, strictly sorted keys,
/// zero flags, and strictly increasing in-range postings.
pub open spec fn spec_dictionary_ok(ts: Seq<TermDictionaryEntry>, ps: Seq<Vec<u64>>, granule_count: usize) -> bool {
    &&& ts.len() == ps.len()
    &&& spec_strictly_sorted(term_keys(ts))
    &&& forall|i: int| 0 <= i < ts.len() ==> (#[trigger] ts[i]).flags == 0
    &&& forall|i: int| 0 <= i < ps.len() ==> spec_increasing(#[trigger] ps[i]@)
    &&& forall|i: int, j: int| 0 <= i < ps.len() && 0 <= j < ps[i]@.len() ==> #[trigger] ps[i]@[j] < granule_count
}

pub(crate) proof fn lemma_adjacent_sorted(ks: Seq<Seq<u8>>)
    requires
        spec_adjacent_sorted(ks),
    ensures
        spec_strictly_sorted(ks),
    decreases ks.len(),
{
    if ks.len() > 0 {
        let d = ks.drop_last();
        assert(spec_adjacent_sorted(d)) by {
            assert forall|i: int| 1 <= i < d.len() implies spec_lex_lt(#[trigger] d[i - 1], d[i]) by {
                assert(spec_lex_lt(ks[i - 1], ks[i]));
            }
        }
        lemma_adjacent_sorted(d);
        assert forall|i: int, j: int| 0 <= i < j < ks.len() implies spec_lex_lt(#[trigger] ks[i], #[trigger] ks[j]) by {
            if j < ks.len() - 1 {
                assert(spec_lex_lt(d[i], d[j]));
            } else if i < j - 1 {
                assert(spec_lex_lt(d[i], d[j - 1]));
                assert(spec_lex_lt(ks[j - 1], ks[j]));
                lemma_lex_transitive(ks[i], ks[j - 1], ks[j]);
            } else {
                assert(spec_lex_lt(ks[j - 1], ks[j]));
            }
        }
    }
}

proof fn lemma_terms_error_none(ts: Seq<TermDictionaryEntry>, ps: Seq<Vec<u64>>, granule_count: usize, n: int)
    requires
        0 <= n <= ts.len(),
        n <= ps.len(),
        spec_terms_error(ts, ps, granule_count, n) is None,
    ensures
        forall|i: int| 0 <= i < n ==> spec_term_shape_error(#[trigger] ts[i], ps[i]@, granule_count) is None,
    decreases n,
{
    if n > 0 {
        lemma_terms_error_none(ts, ps, granule_count, n - 1);
    }
}

/// A dictionary without a shape failure is well shaped.
pub proof fn lemma_dictionary_shape(ts: Seq<TermDictionaryEntry>, ps: Seq<Vec<u64>>, granule_count: usize)
    requires
        spec_dictionary_shape_error(ts, ps, granule_count) is None,
    ensures
        spec_dictionary_ok(ts, ps, granule_count),
{
    lemma_adjacent_sorted(term_keys(ts));
    lemma_terms_error_none(ts, ps, granule_count, ts.len() as int);
    assert forall|i: int| 0 <= i < ps.len() implies spec_increasing(#[trigger] ps[i]@) by {
        assert(spec_term_shape_error(ts[i], ps[i]@, granule_count) is None);
        lemma_adjacent_increasing(ps[i]@);
    }
    assert forall|i: int| 0 <= i < ts.len() implies (#[trigger] ts[i]).flags == 0 by {
        assert(spec_term_shape_error(ts[i], ps[i]@, granule_count) is None);
    }
    assert forall|i: int, j: int| 0 <= i < ps.len() && 0 <= j < ps[i]@.len() implies #[trigger] ps[i]@[j] < granule_count by {
        assert(spec_term_shape_error(ts[i], ps[i]@, granule_count) is None);
    }
}

/// Checks the shape of a term dictionary and its posting lists.
pub fn validate_term_dictionary_shape(
    terms: &Vec<TermDictionaryEntry>,
    postings: &Vec<Vec<u64>>,
    granule_count: usize,
) -> (r: Result<()>)
    ensures
        match spec_dictionary_shape_error(terms@, postings@, granule_count) {
            None => r is Ok,
            Some(e) => r == Err::<(), QztError>(e),
        },
{
    if terms.len() != postings.len() {
        return Err(QztError::ContainerCorrupt);
    }
    let mut i: usize = 1;
    while i < terms.len()
        invariant
            1 <= i,
            i <= terms@.len() || terms@.len() == 0,
            forall|j: int| 1 <= j < i && j < terms@.len() ==> spec_lex_lt(#[trigger] term_keys(terms@)[j - 1], term_keys(terms@)[j]),
        decreases terms@.len() - i,
    {
        if compare_bytes(terms[i - 1].key.as_slice(), terms[i].key.as_slice()) >= 0 {
            assert(!spec_adjacent_sorted(term_keys(terms@))) by {
                assert(term_keys(terms@)[i - 1] == terms@[i - 1].key@);
                if spec_lex_lt(terms@[i - 1].key@, terms@[i as int].key@) {
                    lemma_lex_asymmetric(terms@[i - 1].key@, terms@[i as int].key@);
                    lemma_lex_irreflexive(terms@[i as int].key@);
                }
            }
            return Err(QztError::ContainerCorrupt);
        }
        i = i + 1;
    }
    let mut t: usize = 0;
    while t < terms.len()
        invariant
            t <= terms@.len(),
            terms@.len() == postings@.len(),
            spec_adjacent_sorted(term_keys(terms@)),
            spec_terms_error(terms@, postings@, granule_count, t as int) is None,
        decreases terms@.len() - t,
    {
        let list = &postings[t];
        let ghost p = postings@[t as int]@;
        if terms[t].flags != 0 {
            proof {
                assert(spec_terms_error(terms@, postings@, granule_count, t + 1) == Some(QztError::InvalidFlags));
                lemma_terms_error_stable(terms@, postings@, granule_count, t + 1, terms@.len() as int);
            }
            return Err(QztError::InvalidFlags);
        }
        let mut j: usize = 1;
        while j < list.len()
            invariant
                1 <= j,
                list@ == p,
                t < terms@.len(),
                terms@.len() == postings@.len(),
                p == postings@[t as int]@,
                terms@[t as int].flags == 0,
                spec_terms_error(terms@, postings@, granule_count, t as int) is None,
                forall|k: int| 1 <= k < j && k < list@.len() ==> #[trigger] list@[k - 1] < list@[k],
            decreases list@.len() - j,
        {
            if list[j - 1] >= list[j] {
                proof {
                    assert(!spec_adjacent_increasing(p)) by {
                        assert(p[j - 1] >= p[j as int]);
                    }
                    assert(spec_terms_error(terms@, postings@, granule_count, t + 1) == Some(QztError::ContainerCorrupt));
                    lemma_terms_error_stable(terms@, postings@, granule_count, t + 1, terms@.len() as int);
                }
                return Err(QztError::ContainerCorrupt);
            }
            j = j + 1;
        }
        assert(spec_adjacent_increasing(p));
        let mut k: usize = 0;
        while k < list.len()
            invariant
                k <= list@.len(),
                list@ == p,
                t < terms@.len(),
                terms@.len() == postings@.len(),
                p == postings@[t as int]@,
                terms@[t as int].flags == 0,
                spec_adjacent_increasing(p),
                spec_terms_error(terms@, postings@, granule_count, t as int) is None,
                forall|m: int| 0 <= m < k ==> #[trigger] list@[m] < granule_count,
            decreases list@.len() - k,
        {
            if list[k] >= granule_count as u64 {
                proof {
                    assert(p[k as int] >= granule_count);
                    assert(spec_terms_error(terms@, postings@, granule_count, t + 1) == Some(QztError::ContainerCorrupt));
                    lemma_terms_error_stable(terms@, postings@, granule_count, t + 1, terms@.len() as int);
                }
                return Err(QztError::ContainerCorrupt);
            }
            k = k + 1;
        }
        assert(spec_terms_error(terms@, postings@, granule_count, t + 1) is None);
        t = t + 1;
    }
    Ok(())
}

/// The first sixteen bytes of the BLAKE3 digest of a key.
pub open spec fn spec_key_hash(key: Seq<u8>) -> Seq<u8> {
    blake3_digest(key).subrange(0, 16)
}

/// The first sixteen bytes of the BLAKE3 digest of `key`.
pub fn key_hash(key: &[u8]) -> (r: [u8; 16])
    ensures
        r@ == spec_key_hash(key@),
{
    let hash = blake3_hash(key);
    let out: [u8; 16] = crate::bytes_util::array_from_slice::<16>(crate::skeleton::slice_subrange(&hash, 0, 16));
    out
}

/// Index of the term whose key is `key`, by binary search over keys in
/// strictly increasing order.
pub fn term_index_for_key(terms: &Vec<TermDictionaryEntry>, key: &[u8]) -> (r: Option<usize>)
    requires
        spec_strictly_sorted(term_keys(terms@)),
    ensures
        match r {
            Some(i) => i < terms@.len() && terms@[i as int].key@ == key@,
            None => forall|i: int| 0 <= i < terms@.len() ==> (#[trigger] terms@[i]).key@ != key@,
        },
{
    let ghost ks = term_keys(terms@);
    let mut low: usize = 0;
    let mut high: usize = terms.len();
    while low < high
        invariant
            low <= high <= terms@.len(),
            ks == term_keys(terms@),
            spec_strictly_sorted(ks),
            forall|i: int| 0 <= i < low ==> spec_lex_lt(#[trigger] ks[i], key@),
            forall|i: int| high <= i < terms@.len() ==> spec_lex_lt(key@, #[trigger] ks[i]),
        decreases high - low,
    {
        let mid = low + (high - low) / 2;
        let c = compare_bytes(terms[mid].key.as_slice(), key);
        assert(ks[mid as int] == terms@[mid as int].key@);
        if c == 0 {
            return Some(mid);
        } else if c < 0 {
            proof {
                assert forall|i: int| 0 <= i < mid + 1 implies spec_lex_lt(#[trigger] ks[i], key@) by {
                    if i < mid {
                        lemma_lex_transitive(ks[i], ks[mid as int], key@);
                    }
                }
            }
            low = mid + 1;
        } else {
            proof {
                assert forall|i: int| mid <= i < terms@.len() implies spec_lex_lt(key@, #[trigger] ks[i]) by {
                    if i > mid {
                        lemma_lex_transitive(key@, ks[mid as int], ks[i]);
                    }
                }
            }
            high = mid;
        }
    }
    proof {
        assert forall|i: int| 0 <= i < terms@.len() implies (#[trigger] terms@[i]).key@ != key@ by {
            assert(ks[i] == terms@[i].key@);
            lemma_lex_irreflexive(key@);
        }
    }
    None
}

// ---------------------------------------------------------------------------
// Matching spans in decoded bytes
// ---------------------------------------------------------------------------

/// Occurrences of `q` starting before `k`.
pub open spec fn spec_substring_upto(s: Seq<u8>, q: Seq<u8>, k: int) -> Seq<(Seq<u8>, int, int)>
    decreases k,
{
    if k <= 0 {
        Seq::empty()
    } else if s.subrange(k - 1, k - 1 + q.len()) == q {
        spec_substring_upto(s, q, k - 1).push((q, k - 1, k - 1 + q.len()))
    } else {
        spec_substring_upto(s, q, k - 1)
    }
}

/// Every (possibly overlapping) occurrence of a nonempty `q` in `s`.
pub open spec fn spec_substring_spans(s: Seq<u8>, q: Seq<u8>) -> Seq<(Seq<u8>, int, int)> {
    if q.len() == 0 || q.len() > s.len() {
        Seq::empty()
    } else {
        spec_substring_upto(s, q, s.len() - q.len() + 1)
    }
}

/// Every occurrence of `query` in `bytes`, overlapping ones included.
pub fn substring_spans(bytes: &[u8], query: &[u8]) -> (r: Vec<TokenSpan>)
    ensures
        spans_view(r@) == spec_substring_spans(bytes@, query@),
{
    let mut spans: Vec<TokenSpan> = Vec::new();
    if query.len() == 0 || query.len() > bytes.len() {
        assert(spans_view(spans@) =~= spec_substring_spans(bytes@, query@));
        return spans;
    }
    let last = bytes.len() - query.len();
    let mut start: usize = 0;
    while start <= last
        invariant
            last == bytes@.len() - query@.len(),
            0 < query@.len() <= bytes@.len(),
            start <= last + 1,
            spans_view(spans@) == spec_substring_upto(bytes@, query@, start as int),
        decreases last + 1 - start,
    {
        assert(start + query.len() <= bytes.len());
        let end = start + query.len();
        let window = crate::skeleton::slice_subrange(bytes, start, end);
        if crate::bytes_util::bytes_equal(window, query) {
            let key = crate::bytes_util::slice_to_vec(query, 0, query.len());
            assert(key@ =~= query@);
            let ghost s0 = spans@;
            spans.push(TokenSpan { key, start, end });
            assert(spans_view(spans@) =~= spans_view(s0).push((query@, start as int, end as int)));
        }
        start = start + 1;
    }
    spans
}

/// Tokens of `ts` whose key is one of `keys`, in order.
pub open spec fn spec_filter_spans(ts: Seq<(Seq<u8>, int, int)>, keys: Seq<Seq<u8>>) -> Seq<(Seq<u8>, int, int)>
    decreases ts.len(),
{
    if ts.len() == 0 {
        Seq::empty()
    } else if keys.contains(ts.last().0) {
        spec_filter_spans(ts.drop_last(), keys).push(ts.last())
    } else {
        spec_filter_spans(ts.drop_last(), keys)
    }
}

/// Every key is the key of some token.
pub open spec fn spec_all_keys_occur(ts: Seq<(Seq<u8>, int, int)>, keys: Seq<Seq<u8>>) -> bool {
    forall|k: int| 0 <= k < keys.len() ==> spec_token_keys(ts).contains(#[trigger] keys[k])
}

/// The tokens of a line whose keys are query keys, when every query key occurs
/// among its tokens; none otherwise.
pub open spec fn spec_verified_spans(s: Seq<u8>, keys: Seq<Seq<u8>>) -> Seq<(Seq<u8>, int, int)> {
    let ts = spec_tokens(s);
    if spec_all_keys_occur(ts, keys) {
        spec_filter_spans(ts, keys)
    } else {
        Seq::empty()
    }
}

fn contains_key(keys: &Vec<Vec<u8>>, key: &[u8]) -> (r: bool)
    ensures
        r == keys_view(keys@).contains(key@),
{
    let mut i: usize = 0;
    while i < keys.len()
        invariant
            i <= keys@.len(),
            forall|j: int| 0 <= j < i ==> keys@[j]@ != key@,
        decreases keys@.len() - i,
    {
        if crate::bytes_util::bytes_equal(keys[i].as_slice(), key) {
            assert(keys_view(keys@)[i as int] == key@);
            return true;
        }
        i = i + 1;
    }
    assert(!keys_view(keys@).contains(key@)) by {
        if keys_view(keys@).contains(key@) {
            let w = choose|w: int| 0 <= w < keys_view(keys@).len() && keys_view(keys@)[w] == key@;
            assert(keys@[w]@ == key@);
        }
    }
    false
}

/// Token spans of `bytes` matching the query keys, when all of them occur.
pub fn verified_spans(bytes: &[u8], query_keys: &Vec<Vec<u8>>) -> (r: Vec<TokenSpan>)
    ensures
        spans_view(r@) == spec_verified_spans(bytes@, keys_view(query_keys@)),
{
    let tokens = tokenize_ascii_lower(bytes);
    let ghost ts = spec_tokens(bytes@);
    let ghost qk = keys_view(query_keys@);
    let mut k: usize = 0;
    while k < query_keys.len()
        invariant
            k <= query_keys@.len(),
            spans_view(tokens@) == ts,
            ts == spec_tokens(bytes@),
            qk == keys_view(query_keys@),
            forall|m: int| 0 <= m < k ==> spec_token_keys(ts).contains(#[trigger] qk[m]),
        decreases query_keys@.len() - k,
    {
        let mut found = false;
        let mut t: usize = 0;
        while t < tokens.len() && !found
            invariant
                t <= tokens@.len(),
                k < query_keys@.len(),
                spans_view(tokens@) == ts,
                ts == spec_tokens(bytes@),
                qk == keys_view(query_keys@),
                found ==> spec_token_keys(ts).contains(qk[k as int]),
                !found ==> forall|m: int| 0 <= m < t ==> (#[trigger] tokens@[m]).key@ != qk[k as int],
            decreases tokens@.len() - t,
        {
            if crate::bytes_util::bytes_equal(tokens[t].key.as_slice(), query_keys[k].as_slice()) {
                assert(spec_token_keys(ts)[t as int] == qk[k as int]);
                found = true;
            }
            t = t + 1;
        }
        if !found {
            proof {
                assert(!spec_token_keys(ts).contains(qk[k as int])) by {
                    if spec_token_keys(ts).contains(qk[k as int]) {
                        let w = choose|w: int| 0 <= w < spec_token_keys(ts).len() && spec_token_keys(ts)[w] == qk[k as int];
                        assert(spans_view(tokens@)[w].0 == tokens@[w].key@);
                        assert(tokens@[w].key@ == qk[k as int]);
                    }
                }
                assert(!spec_all_keys_occur(ts, qk));
            }
            let empty: Vec<TokenSpan> = Vec::new();
            assert(spans_view(empty@) =~= Seq::<(Seq<u8>, int, int)>::empty());
            assert(spec_verified_spans(bytes@, qk) == Seq::<(Seq<u8>, int, int)>::empty());
            return empty;
        }
        k = k + 1;
    }
    let mut out: Vec<TokenSpan> = Vec::new();
    let mut t: usize = 0;
    while t < tokens.len()
        invariant
            t <= tokens@.len(),
            spans_view(tokens@) == ts,
            ts == spec_tokens(bytes@),
            spec_all_keys_occur(ts, qk),
            qk == keys_view(query_keys@),
            spans_view(out@) == spec_filter_spans(ts.subrange(0, t as int), qk),
        decreases tokens@.len() - t,
    {
        assert(ts.subrange(0, t + 1).drop_last() =~= ts.subrange(0, t as int));
        if contains_key(query_keys, tokens[t].key.as_slice()) {
            let span = TokenSpan { key: tokens[t].key.clone(), start: tokens[t].start, end: tokens[t].end };
            assert(span.key@ =~= tokens@[t as int].key@);
            let ghost o0 = out@;
            out.push(span);
            assert(spans_view(out@) =~= spans_view(o0).push(ts[t as int]));
        }
        t = t + 1;
    }
    assert(ts.subrange(0, t as int) =~= ts);
    out
}

// ---------------------------------------------------------------------------
// Index configuration and reports
// ---------------------------------------------------------------------------

/// Search index source text model.
#[derive(Debug, Clone, Copy, PartialEq, Eq, Structural)]
#[non_exhaustive]
pub enum SearchIndexSource {
    /// The container's original UTF-8 bytes without Unicode normalization.
    RawUtf8,
    /// Reserved for indexes built from normalized UTF-8 text; builders reject it.
    NormalizedUtf8,
}

/// Posting target granularity: one posting per original-text line.
#[derive(Debug, Clone, Copy, PartialEq, Eq)]
pub enum PostingGranularity {
    Line,
}

/// Build options for the transient raw token index.
#[derive(Debug, Clone, Copy, PartialEq, Eq)]
pub struct TokenIndexBuildOptions {
    pub source: SearchIndexSource,
    pub posting_granularity: PostingGranularity,
}

impl Default for TokenIndexBuildOptions {
    fn default() -> (r: Self)
        ensures
            r.source == SearchIndexSource::RawUtf8,
            r.posting_granularity == PostingGranularity::Line,
    {
        TokenIndexBuildOptions { source: SearchIndexSource::RawUtf8, posting_granularity: PostingGranularity::Line }
    }
}

/// N-gram unit used by the raw n-gram index.
#[derive(Debug, Clone, Copy, PartialEq, Eq)]
pub enum NgramUnit {
    UnicodeScalar,
}

/// Build options for the transient raw n-gram index.
#[derive(Debug, Clone, Copy, PartialEq, Eq)]
pub struct NgramIndexBuildOptions {
    pub source: SearchIndexSource,
    pub posting_granularity: PostingGranularity,
    /// Number of Unicode scalar values in each indexed n-gram; must be nonzero.
    pub n: usize,
    /// Whether the dictionary contains every n-gram from the source.
    pub complete: bool,
    /// Granule-frequency threshold, per million granules, for a high-frequency term.
    pub high_df_per_million: u32,
}

impl Default for NgramIndexBuildOptions {
    fn default() -> (r: Self)
        ensures
            r.source == SearchIndexSource::RawUtf8,
            r.posting_granularity == PostingGranularity::Line,
            r.n == 3,
            r.complete,
            r.high_df_per_million == 200_000,
    {
        NgramIndexBuildOptions {
            source: SearchIndexSource::RawUtf8,
            posting_granularity: PostingGranularity::Line,
            n: 3,
            complete: true,
            high_df_per_million: 200_000,
        }
    }
}

/// Declared n-gram interpretation.
#[derive(Debug, Clone, PartialEq, Eq)]
pub struct NgramDeclaration {
    pub n: usize,
    pub unit: NgramUnit,
    pub normalization: &'static str,
    pub case_fold: bool,
    pub boundary_mode: &'static str,
    pub boundary_window_bytes: u64,
}

/// Planner configuration for candidate limits and high-frequency behavior.
#[derive(Debug, Clone, Copy, PartialEq, Eq)]
pub struct PlannerConfig {
    pub max_candidate_granules_default: u64,
    pub max_decoded_bytes_default: u64,
    pub high_df_per_million: u32,
}

impl Default for PlannerConfig {
    fn default() -> (r: Self)
        ensures
            r.max_candidate_granules_default == 10_000,
            r.max_decoded_bytes_default == 256 * 1024 * 1024,
            r.high_df_per_million == 200_000,
    {
        PlannerConfig {
            max_candidate_granules_default: 10_000,
            max_decoded_bytes_default: 256 * 1024 * 1024,
            high_df_per_million: 200_000,
        }
    }
}

/// Inspectable query planner decision.
#[derive(Debug, Clone, PartialEq, Eq)]
pub struct PlannerDecision {
    /// Every index key the query requires.
    pub required_keys: Vec<Vec<u8>>,
    /// Keys found in the index, in the order their postings were intersected.
    pub selected_keys: Vec<Vec<u8>>,
    /// Required keys absent from the index.
    pub missing_keys: Vec<Vec<u8>>,
    /// Selected keys whose frequency reaches the high-frequency threshold.
    pub high_df_keys: Vec<Vec<u8>>,
    /// Whether skip data was consulted.
    pub used_skip_data: bool,
}

impl PlannerDecision {
    /// A decision that requires `required_keys` and has selected nothing yet.
    pub fn new(required_keys: Vec<Vec<u8>>) -> (r: Self)
        ensures
            r.required_keys@ == required_keys@,
            r.selected_keys@.len() == 0,
            r.missing_keys@.len() == 0,
            r.high_df_keys@.len() == 0,
            !r.used_skip_data,
    {
        PlannerDecision {
            required_keys,
            selected_keys: Vec::new(),
            missing_keys: Vec::new(),
            high_df_keys: Vec::new(),
            used_skip_data: false,
        }
    }
}

/// Runtime search limits.
#[derive(Debug, Clone, Copy, PartialEq, Eq)]
pub struct SearchOptions {
    /// Candidates allowed before any is decoded; more gives a capped report.
    pub max_candidate_granules: u64,
    /// Largest sum of candidate-granule bytes verified for one query.
    pub max_decoded_bytes: u64,
    /// Largest number of hits returned; zero gives a capped report.
    pub max_search_results: u64,
}

impl Default for SearchOptions {
    fn default() -> (r: Self)
        ensures
            r.max_candidate_granules == 10_000,
            r.max_decoded_bytes == 256 * 1024 * 1024,
            r.max_search_results == u64::MAX,
    {
        SearchOptions {
            max_candidate_granules: 10_000,
            max_decoded_bytes: 256 * 1024 * 1024,
            max_search_results: u64::MAX,
        }
    }
}

/// One verified search hit.
#[derive(Debug, Clone, Copy, PartialEq, Eq)]
pub struct SearchHit {
    /// Byte offset of the match in the original text.
    pub logical_offset: u64,
    /// Length of the matched span in bytes.
    pub byte_length: u64,
    /// First chunk of the containing granule.
    pub chunk_start: u64,
    /// Exclusive end of the containing granule's chunk range.
    pub chunk_end: u64,
    /// Provenance: verified against the original decoded bytes.
    pub source: &'static str,
}

/// A hit as plain values.
pub open spec fn hit_view(h: SearchHit) -> (u64, u64, u64, u64) {
    (h.logical_offset, h.byte_length, h.chunk_start, h.chunk_end)
}

/// Hits as plain values.
pub open spec fn hits_view(hs: Seq<SearchHit>) -> Seq<(u64, u64, u64, u64)> {
    hs.map_values(|h: SearchHit| hit_view(h))
}

/// Search measurements: planner, I/O and verification counts.
#[derive(Debug, Clone, PartialEq, Eq)]
pub struct SearchMetrics {
    pub query: String,
    pub index_kind: &'static str,
    pub posting_granularity: &'static str,
    pub index_size_bytes: u64,
    pub source_size_bytes: u64,
    pub term_lookups: u64,
    pub posting_bytes_read: u64,
    pub candidate_granules: u64,
    pub candidate_chunks: u64,
    pub decoded_bytes: u64,
    pub physical_decoded_bytes: u64,
    pub verified_matches: u64,
}

/// Search result plus measurements; `capped` means a limit stopped verification.
#[derive(Debug, Clone, PartialEq, Eq)]
pub struct SearchReport {
    pub hits: Vec<SearchHit>,
    pub metrics: SearchMetrics,
    pub capped: bool,
    pub planner: PlannerDecision,
    pub incomplete_reason: Option<&'static str>,
}

/// Measurements before any lookup.
pub fn empty_search_metrics(query: &str, index_kind: &'static str, index_size_bytes: u64, source_size_bytes: u64) -> (r: SearchMetrics)
    ensures
        r.query@ == query@,
        r.index_kind == index_kind,
        r.index_size_bytes == index_size_bytes,
        r.source_size_bytes == source_size_bytes,
        r.term_lookups == 0,
        r.posting_bytes_read == 0,
        r.candidate_granules == 0,
        r.candidate_chunks == 0,
        r.decoded_bytes == 0,
        r.physical_decoded_bytes == 0,
        r.verified_matches == 0,
{
    SearchMetrics {
        query: query.to_owned(),
        index_kind,
        posting_granularity: "line",
        index_size_bytes,
        source_size_bytes,
        term_lookups: 0,
        posting_bytes_read: 0,
        candidate_granules: 0,
        candidate_chunks: 0,
        decoded_bytes: 0,
        physical_decoded_bytes: 0,
        verified_matches: 0,
    }
}

/// A report with no hits, stopped before verification.
pub fn early_exit_report(
    metrics: SearchMetrics,
    planner: PlannerDecision,
    capped: bool,
    incomplete_reason: Option<&'static str>,
) -> (r: SearchReport)
    ensures
        r.hits@.len() == 0,
        r.metrics == metrics,
        r.planner == planner,
        r.capped == capped,
        r.incomplete_reason == incomplete_reason,
{
    SearchReport { hits: Vec::new(), metrics, capped, planner, incomplete_reason }
}

// ---------------------------------------------------------------------------
// Posting list statistics
// ---------------------------------------------------------------------------

/// Bytes of the skip records of one list.
pub open spec fn spec_skip_bytes(p: Seq<u64>, with_skips: bool) -> nat {
    if with_skips { spec_skip_points(p).len() * 24 } else { 0 }
}

/// Sum of the encoded sizes of the first `n` lists.
pub open spec fn spec_posting_offset(ps: Seq<Vec<u64>>, n: int) -> nat
    decreases n,
{
    if n <= 0 { 0 } else { spec_posting_offset(ps, n - 1) + spec_delta_encode(ps[n - 1]@).len() }
}

/// Sum of the skip record sizes of the first `n` lists.
pub open spec fn spec_skip_offset(ps: Seq<Vec<u64>>, n: int, with_skips: bool) -> nat
    decreases n,
{
    if n <= 0 { 0 } else { spec_skip_offset(ps, n - 1, with_skips) + spec_skip_bytes(ps[n - 1]@, with_skips) }
}

/// A term with the statistics of list `i` of `ps`.
pub open spec fn spec_stat_term(t: TermDictionaryEntry, ps: Seq<Vec<u64>>, i: int, with_skips: bool, u: TermDictionaryEntry) -> bool {
    &&& u.key@ == t.key@
    &&& u.key_hash == t.key_hash
    &&& u.flags == t.flags
    &&& u.document_frequency == 0
    &&& u.granule_frequency == ps[i]@.len()
    &&& u.posting_offset == spec_posting_offset(ps, i)
    &&& u.posting_size == spec_delta_encode(ps[i]@).len()
    &&& u.skip_offset == spec_skip_offset(ps, i, with_skips)
    &&& u.skip_size == spec_skip_bytes(ps[i]@, with_skips)
}

proof fn lemma_offsets_monotone(ps: Seq<Vec<u64>>, i: int, j: int, with_skips: bool)
    requires
        0 <= i <= j,
    ensures
        spec_posting_offset(ps, i) <= spec_posting_offset(ps, j),
        spec_skip_offset(ps, i, with_skips) <= spec_skip_offset(ps, j, with_skips),
    decreases j - i,
{
    if i < j {
        lemma_offsets_monotone(ps, i, j - 1, with_skips);
    }
}

/// Encodes every posting list and recomputes the terms' statistics and offsets.
fn encode_posting_lists(
    terms: &Vec<TermDictionaryEntry>,
    postings: &Vec<Vec<u64>>,
    with_skips: bool,
) -> (r: Result<(Vec<TermDictionaryEntry>, Vec<Vec<u8>>, Vec<Vec<SkipPoint>>)>)
    requires
        terms@.len() == postings@.len(),
        forall|i: int| 0 <= i < postings@.len() ==> spec_increasing(#[trigger] postings@[i]@),
    ensures
        match r {
            Ok((ts, enc, skips)) => {
                &&& spec_posting_offset(postings@, postings@.len() as int) <= u64::MAX
                &&& spec_skip_offset(postings@, postings@.len() as int, with_skips) <= u64::MAX
                &&& ts@.len() == terms@.len()
                &&& enc@.len() == terms@.len()
                &&& (forall|i: int| 0 <= i < ts@.len() ==> spec_stat_term(terms@[i], postings@, i, with_skips, #[trigger] ts@[i]))
                &&& (forall|i: int| 0 <= i < enc@.len() ==> (#[trigger] enc@[i])@ == spec_delta_encode(postings@[i]@))
                &&& (with_skips ==> skips@.len() == terms@.len() && forall|i: int| 0 <= i < skips@.len() ==> (#[trigger] skips@[i])@ == spec_skip_points(postings@[i]@))
                &&& (!with_skips ==> skips@.len() == 0)
            },
            Err(e) => e == QztError::ResourceLimitExceeded && (spec_posting_offset(postings@, postings@.len() as int) > u64::MAX
                || spec_skip_offset(postings@, postings@.len() as int, with_skips) > u64::MAX),
        },
{
    let mut ts: Vec<TermDictionaryEntry> = Vec::new();
    let mut enc: Vec<Vec<u8>> = Vec::new();
    let mut skips: Vec<Vec<SkipPoint>> = Vec::new();
    let mut posting_offset: u64 = 0;
    let mut skip_offset: u64 = 0;
    let mut i: usize = 0;
    while i < terms.len()
        invariant
            i <= terms@.len(),
            terms@.len() == postings@.len(),
            forall|j: int| 0 <= j < postings@.len() ==> spec_increasing(#[trigger] postings@[j]@),
            posting_offset == spec_posting_offset(postings@, i as int),
            skip_offset == spec_skip_offset(postings@, i as int, with_skips),
            ts@.len() == i,
            enc@.len() == i,
            forall|j: int| 0 <= j < i ==> spec_stat_term(terms@[j], postings@, j, with_skips, #[trigger] ts@[j]),
            forall|j: int| 0 <= j < i ==> (#[trigger] enc@[j])@ == spec_delta_encode(postings@[j]@),
            with_skips ==> skips@.len() == i && forall|j: int| 0 <= j < i ==> (#[trigger] skips@[j])@ == spec_skip_points(postings@[j]@),
            !with_skips ==> skips@.len() == 0,
        decreases terms@.len() - i,
    {
        let list = &postings[i];
        proof {
            lemma_adjacent_from_increasing(list@);
        }
        let encoded = match encode_delta_varint_u64(list.as_slice()) {
            Ok(b) => b,
            Err(e) => {
                assert(false);
                return Err(e);
            },
        };
        let points = if with_skips {
            match build_skip_points(list, &encoded) {
                Ok(p) => p,
                Err(e) => {
                    assert(false);
                    return Err(e);
                },
            }
        } else {
            Vec::new()
        };
        proof {
            if list@.len() >= 1024 {
                lemma_skip_len(list@, list@.len() as int);
                assert((list@.len() - 1) / 128 * 24 <= list@.len()) by (nonlinear_arith)
                    requires
                        list@.len() >= 1,
                ;
            }
            if with_skips {
                assert(points@.len() * 24 <= list@.len());
                assert(list.len() == list@.len());
            }
        }
        let skip_size: u64 = if with_skips { points.len() as u64 * 24 } else { 0 };
        let posting_size = encoded.len() as u64;
        let t = &terms[i];
        let term = TermDictionaryEntry {
            key: t.key.clone(),
            key_hash: t.key_hash,
            document_frequency: 0,
            granule_frequency: list.len() as u64,
            posting_offset,
            posting_size,
            skip_offset,
            skip_size,
            flags: t.flags,
        };
        assert(term.key@ =~= t.key@);
        if posting_offset > u64::MAX - posting_size {
            proof {
                lemma_offsets_monotone(postings@, i + 1, postings@.len() as int, with_skips);
            }
            return Err(QztError::ResourceLimitExceeded);
        }
        if skip_offset > u64::MAX - skip_size {
            proof {
                lemma_offsets_monotone(postings@, i + 1, postings@.len() as int, with_skips);
            }
            return Err(QztError::ResourceLimitExceeded);
        }
        posting_offset = posting_offset + posting_size;
        skip_offset = skip_offset + skip_size;
        ts.push(term);
        enc.push(encoded);
        if with_skips {
            skips.push(points);
        }
        i = i + 1;
    }
    Ok((ts, enc, skips))
}

proof fn lemma_adjacent_from_increasing(vs: Seq<u64>)
    requires
        spec_increasing(vs),
    ensures
        spec_adjacent_increasing(vs),
{
    assert forall|i: int| 1 <= i < vs.len() implies #[trigger] vs[i - 1] < vs[i] by {
        assert(vs[i - 1] < vs[i]);
    }
}

// ---------------------------------------------------------------------------
// Index size estimate
// ---------------------------------------------------------------------------

/// `a + b`, saturating at `usize::MAX`.
pub open spec fn spec_sat_add(a: int, b: int) -> int {
    if a + b > usize::MAX { usize::MAX as int } else { a + b }
}

fn sat_add(a: usize, b: usize) -> (r: usize)
    ensures
        r == spec_sat_add(a as int, b as int),
{
    if a > usize::MAX - b { usize::MAX } else { a + b }
}

/// Whether granules fit the compact line record: consecutive identifiers equal
/// to their line numbers, one line each, and sizes that fit 32 bits.
pub open spec fn spec_compact_granules(gs: Seq<SearchGranule>) -> bool {
    forall|i: int| 0 <= i < gs.len() ==> {
        let g = #[trigger] gs[i];
        &&& g.granule_id == i
        &&& g.first_line == Some(i as u64)
        &&& g.line_count == Some(1u64)
        &&& g.byte_length <= u32::MAX
        &&& g.chunk_start <= u32::MAX
        &&& (if g.chunk_end >= g.chunk_start { g.chunk_end - g.chunk_start } else { 0 }) <= u32::MAX
    }
}

/// Whether granules fit the compact line record.
pub fn compact_line_granules_supported(granules: &Vec<SearchGranule>) -> (r: bool)
    ensures
        r == spec_compact_granules(granules@),
{
    let mut i: usize = 0;
    while i < granules.len()
        invariant
            i <= granules@.len(),
            forall|j: int| 0 <= j < i ==> {
                let g = #[trigger] granules@[j];
                &&& g.granule_id == j
                &&& g.first_line == Some(j as u64)
                &&& g.line_count == Some(1u64)
                &&& g.byte_length <= u32::MAX
                &&& g.chunk_start <= u32::MAX
                &&& (if g.chunk_end >= g.chunk_start { g.chunk_end - g.chunk_start } else { 0 }) <= u32::MAX
            },
        decreases granules@.len() - i,
    {
        let g = granules[i];
        let span = if g.chunk_end >= g.chunk_start { g.chunk_end - g.chunk_start } else { 0 };
        let ok = g.granule_id == i as u64 && g.first_line == Some(i as u64) && g.line_count == Some(1u64)
            && g.byte_length <= 0xffff_ffff && g.chunk_start <= 0xffff_ffff && span <= 0xffff_ffff;
        if !ok {
            assert(!spec_compact_granules(granules@)) by {
                let gg = granules@[i as int];
            }
            return false;
        }
        i = i + 1;
    }
    true
}

/// Serialized size of the granule section.
pub open spec fn spec_granule_bytes(gs: Seq<SearchGranule>) -> int {
    let record = if spec_compact_granules(gs) { 20int } else { 56int };
    spec_sat_add(8, if gs.len() * record > usize::MAX { usize::MAX as int } else { gs.len() * record })
}

/// Serialized size of one term's dictionary record.
pub open spec fn spec_term_record(t: TermDictionaryEntry) -> int {
    spec_sat_add(spec_sat_add(spec_sat_add(t.key@.len() as int, spec_varuint(t.key@.len()).len() as int),
        spec_varuint(t.granule_frequency as nat).len() as int), spec_varuint(t.posting_size as nat).len() as int)
}

/// Saturating sum of the first `n` term records.
pub open spec fn spec_term_records(ts: Seq<TermDictionaryEntry>, n: int) -> int
    decreases n,
{
    if n <= 0 { 0 } else { spec_sat_add(spec_term_records(ts, n - 1), spec_term_record(ts[n - 1])) }
}

/// Saturating sum of the first `n` encoded posting sizes.
pub open spec fn spec_encoded_bytes(ps: Seq<Vec<u8>>, n: int) -> int
    decreases n,
{
    if n <= 0 { 0 } else { spec_sat_add(spec_encoded_bytes(ps, n - 1), ps[n - 1]@.len() as int) }
}

/// Estimated serialized size of granules, term dictionary and postings.
pub open spec fn spec_index_size(gs: Seq<SearchGranule>, ts: Seq<TermDictionaryEntry>, ps: Seq<Vec<u8>>) -> u64 {
    let total = spec_sat_add(spec_sat_add(spec_granule_bytes(gs), spec_sat_add(8, spec_term_records(ts, ts.len() as int))),
        spec_encoded_bytes(ps, ps.len() as int));
    if total > u64::MAX { u64::MAX } else { total as u64 }
}

proof fn lemma_sat_sums_bounded(ts: Seq<TermDictionaryEntry>, ps: Seq<Vec<u8>>, n: int, m: int)
    requires
        0 <= n,
        0 <= m,
    ensures
        0 <= spec_term_records(ts, n) <= usize::MAX,
        0 <= spec_encoded_bytes(ps, m) <= usize::MAX,
    decreases n + m,
{
    if n > 0 {
        lemma_sat_sums_bounded(ts, ps, n - 1, m);
    }
    if m > 0 {
        lemma_sat_sums_bounded(ts, ps, n, m - 1);
    }
}

/// Estimated serialized bytes of the granules, terms and postings of an index.
pub fn index_size_bytes(granules: &Vec<SearchGranule>, terms: &Vec<TermDictionaryEntry>, encoded_postings: &Vec<Vec<u8>>) -> (r: u64)
    ensures
        r == spec_index_size(granules@, terms@, encoded_postings@),
{
    let record: usize = if compact_line_granules_supported(granules) { 20 } else { 56 };
    let count = granules.len();
    let records = if count > usize::MAX / record { usize::MAX } else { count * record };
    proof {
        if count <= usize::MAX / record {
            assert(count * record <= usize::MAX) by (nonlinear_arith)
                requires
                    count <= usize::MAX / record,
                    record > 0,
            ;
        } else {
            assert(count * record > usize::MAX) by (nonlinear_arith)
                requires
                    count > usize::MAX / record,
                    record > 0,
            ;
        }
    }
    let granule_bytes = sat_add(8, records);
    let mut term_bytes: usize = 0;
    let mut i: usize = 0;
    while i < terms.len()
        invariant
            i <= terms@.len(),
            term_bytes == spec_term_records(terms@, i as int),
        decreases terms@.len() - i,
    {
        let t = &terms[i];
        let key_len = t.key.len();
        let a = sat_add(key_len, varuint_len(key_len as u64));
        let b = sat_add(a, varuint_len(t.granule_frequency));
        let c = sat_add(b, varuint_len(t.posting_size));
        proof {
            lemma_sat_sums_bounded(terms@, encoded_postings@, i as int, 0);
        }
        term_bytes = sat_add(term_bytes, c);
        i = i + 1;
    }
    let mut posting_bytes: usize = 0;
    let mut j: usize = 0;
    while j < encoded_postings.len()
        invariant
            j <= encoded_postings@.len(),
            posting_bytes == spec_encoded_bytes(encoded_postings@, j as int),
        decreases encoded_postings@.len() - j,
    {
        posting_bytes = sat_add(posting_bytes, encoded_postings[j].len());
        j = j + 1;
    }
    let total = sat_add(sat_add(granule_bytes, sat_add(8, term_bytes)), posting_bytes);
    if total as u128 > u64::MAX as u128 { u64::MAX } else { total as u64 }
}

// ---------------------------------------------------------------------------
// Candidate verification
// ---------------------------------------------------------------------------

/// Spans of a decoded line: substring occurrences for n-gram search, token
/// matches for token search.
pub open spec fn spec_spans_for(ngram: bool, q: Seq<u8>, keys: Seq<Seq<u8>>, bytes: Seq<u8>) -> Seq<(Seq<u8>, int, int)> {
    if ngram { spec_substring_spans(bytes, q) } else { spec_verified_spans(bytes, keys) }
}

/// Hits of spans `j..` of granule `g` appended to `hits`, stopping once
/// `max` hits are held; whether that limit stopped it.
pub open spec fn spec_span_hits(
    g: SearchGranule,
    spans: Seq<(Seq<u8>, int, int)>,
    j: int,
    hits: Seq<(u64, u64, u64, u64)>,
    max: u64,
) -> Result<(Seq<(u64, u64, u64, u64)>, bool)>
    decreases spans.len() - j,
{
    if j < 0 || j >= spans.len() {
        Ok((hits, false))
    } else if g.logical_offset + spans[j].1 > u64::MAX {
        Err(QztError::LogicalRangeOutOfBounds)
    } else {
        let hs = hits.push(((g.logical_offset + spans[j].1) as u64, (spans[j].2 - spans[j].1) as u64, g.chunk_start, g.chunk_end));
        if hs.len() >= max {
            Ok((hs, true))
        } else {
            spec_span_hits(g, spans, j + 1, hs, max)
        }
    }
}

/// Verification of candidate granules `i..` against container `s` opened as
/// `d`: the hits, whether a limit stopped it, and the logical bytes decoded.
pub open spec fn spec_verify_from(
    s: Seq<u8>,
    d: SkeletonDetails,
    gs: Seq<SearchGranule>,
    i: int,
    hits: Seq<(u64, u64, u64, u64)>,
    decoded: u64,
    ngram: bool,
    q: Seq<u8>,
    keys: Seq<Seq<u8>>,
    options: SearchOptions,
) -> Result<(Seq<(u64, u64, u64, u64)>, bool, u64)>
    decreases gs.len() - i,
{
    if i < 0 || i >= gs.len() {
        Ok((hits, false, decoded))
    } else {
        let g = gs[i];
        if decoded + g.byte_length > u64::MAX {
            Err(QztError::ResourceLimitExceeded)
        } else if decoded + g.byte_length > options.max_decoded_bytes {
            Ok((hits, true, decoded))
        } else {
            match spec_read_range(s, d, g.logical_offset, g.byte_length) {
                Err(e) => Err(e),
                Ok(bytes) => match spec_span_hits(g, spec_spans_for(ngram, q, keys, bytes), 0, hits, options.max_search_results) {
                    Err(e) => Err(e),
                    Ok((hs, capped)) => if capped {
                        Ok((hs, true, (decoded + g.byte_length) as u64))
                    } else {
                        spec_verify_from(s, d, gs, i + 1, hs, (decoded + g.byte_length) as u64, ngram, q, keys, options)
                    },
                },
            }
        }
    }
}

/// Outcome of verifying candidate granules against original bytes.
pub struct CandidateVerification {
    pub hits: Vec<SearchHit>,
    pub capped: bool,
    pub decoded_bytes: u64,
    pub physical_decoded_bytes: u64,
}

proof fn lemma_tokens_ranges(s: Seq<u8>, pos: int, start: int)
    requires
        0 <= start <= pos <= s.len(),
    ensures
        forall|k: int| 0 <= k < spec_tokens_from(s, pos, start).len() ==> {
            let t = #[trigger] spec_tokens_from(s, pos, start)[k];
            0 <= t.1 <= t.2 <= s.len()
        },
    decreases s.len() - pos,
{
    let all = spec_tokens_from(s, pos, start);
    if pos >= s.len() {
        assert(all == spec_flush(s, start, pos));
    } else if spec_is_token_byte(s[pos]) {
        lemma_tokens_ranges(s, pos + 1, start);
        assert(all == spec_tokens_from(s, pos + 1, start));
    } else {
        lemma_tokens_ranges(s, pos + 1, pos + 1);
        let a = spec_flush(s, start, pos);
        let b = spec_tokens_from(s, pos + 1, pos + 1);
        assert(all == a + b);
        assert forall|k: int| 0 <= k < all.len() implies {
            let t = #[trigger] all[k];
            0 <= t.1 <= t.2 <= s.len()
        } by {
            if k >= a.len() {
                assert(all[k] == b[k - a.len()]);
            } else {
                assert(all[k] == a[k]);
            }
        }
    }
}

proof fn lemma_filter_ranges(ts: Seq<(Seq<u8>, int, int)>, keys: Seq<Seq<u8>>, len: int)
    requires
        forall|k: int| 0 <= k < ts.len() ==> 0 <= (#[trigger] ts[k]).1 <= ts[k].2 <= len,
    ensures
        forall|k: int| 0 <= k < spec_filter_spans(ts, keys).len() ==> 0 <= (#[trigger] spec_filter_spans(ts, keys)[k]).1
            <= spec_filter_spans(ts, keys)[k].2 <= len,
    decreases ts.len(),
{
    if ts.len() > 0 {
        let d = ts.drop_last();
        assert forall|k: int| 0 <= k < d.len() implies 0 <= (#[trigger] d[k]).1 <= d[k].2 <= len by {
            assert(d[k] == ts[k]);
        }
        lemma_filter_ranges(d, keys, len);
        let f = spec_filter_spans(ts, keys);
        let fd = spec_filter_spans(d, keys);
        assert(ts.last() == ts[ts.len() - 1]);
        if keys.contains(ts.last().0) {
            assert(f == fd.push(ts.last()));
        } else {
            assert(f == fd);
        }
    }
}

proof fn lemma_substring_ranges(s: Seq<u8>, q: Seq<u8>, k: int)
    requires
        0 <= k,
        k + q.len() <= s.len() + 1,
    ensures
        forall|j: int| 0 <= j < spec_substring_upto(s, q, k).len() ==> {
            let t = #[trigger] spec_substring_upto(s, q, k)[j];
            0 <= t.1 <= t.2 <= s.len()
        },
    decreases k,
{
    if k > 0 {
        lemma_substring_ranges(s, q, k - 1);
        let f = spec_substring_upto(s, q, k);
        let fd = spec_substring_upto(s, q, k - 1);
        if s.subrange(k - 1, k - 1 + q.len()) == q {
            assert(f == fd.push((q, k - 1, k - 1 + q.len())));
        } else {
            assert(f == fd);
        }
    }
}

/// Every span of a decoded line lies inside it.
proof fn lemma_spans_inside(ngram: bool, q: Seq<u8>, keys: Seq<Seq<u8>>, bytes: Seq<u8>)
    ensures
        forall|k: int| 0 <= k < spec_spans_for(ngram, q, keys, bytes).len() ==> {
            let t = #[trigger] spec_spans_for(ngram, q, keys, bytes)[k];
            0 <= t.1 <= t.2 <= bytes.len()
        },
{
    if ngram {
        if !(q.len() == 0 || q.len() > bytes.len()) {
            lemma_substring_ranges(bytes, q, bytes.len() - q.len() + 1);
        }
    } else {
        lemma_tokens_ranges(bytes, 0, 0);
        lemma_filter_ranges(spec_tokens(bytes), keys, bytes.len() as int);
    }
}

/// Decodes each candidate granule, in order, through one shared decode cache,
/// and turns the matches in it into hits, until a limit is reached.
pub(crate) fn verify_candidates<RR: CachedRangeRead>(
    reader: &RR,
    granules: &Vec<SearchGranule>,
    ngram: bool,
    query: &[u8],
    query_keys: &Vec<Vec<u8>>,
    options: SearchOptions,
) -> (r: Result<CandidateVerification>)
    ensures
        match (r, spec_verify_from(reader.range_bytes(), reader.range_details(), granules@, 0, Seq::empty(), 0, ngram, query@, keys_view(query_keys@), options)) {
            (Ok(v), Ok((hs, capped, db))) => hits_view(v.hits@) == hs && v.capped == capped && v.decoded_bytes == db,
            (Err(e), Err(se)) => e == se || (!reader.range_exact() && spec_io_failure(e)) || e == QztError::ResourceLimitExceeded,
            (Err(e), Ok(_)) => (!reader.range_exact() && spec_io_failure(e)) || e == QztError::ResourceLimitExceeded,
            _ => false,
        },
{
    let ghost s = reader.range_bytes();
    let ghost d = reader.range_details();
    let ghost qk = keys_view(query_keys@);
    let mut hits: Vec<SearchHit> = Vec::new();
    let mut decoded_bytes: u64 = 0;
    let mut cache = ChunkDecodeCache::new();
    let mut i: usize = 0;
    assert(hits_view(hits@) =~= Seq::<(u64, u64, u64, u64)>::empty());
    while i < granules.len()
        invariant
            i <= granules@.len(),
            cache.holds(s, d),
            s == reader.range_bytes(),
            d == reader.range_details(),
            qk == keys_view(query_keys@),
            spec_verify_from(s, d, granules@, 0, Seq::empty(), 0, ngram, query@, qk, options)
                == spec_verify_from(s, d, granules@, i as int, hits_view(hits@), decoded_bytes, ngram, query@, qk, options),
        decreases granules@.len() - i,
    {
        let g = granules[i];
        let ghost d0 = decoded_bytes;
        if decoded_bytes > u64::MAX - g.byte_length {
            return Err(QztError::ResourceLimitExceeded);
        }
        let next_decoded = decoded_bytes + g.byte_length;
        if next_decoded > options.max_decoded_bytes {
            return Ok(CandidateVerification {
                hits,
                capped: true,
                decoded_bytes,
                physical_decoded_bytes: cache.physical_decoded_bytes(),
            });
        }
        let decoded = reader.read_range_cached(g.logical_offset, g.byte_length, &mut cache)?;
        assert(spec_read_range(s, d, g.logical_offset, g.byte_length) == Ok::<Seq<u8>, QztError>(decoded@));
        decoded_bytes = next_decoded;
        let spans = if ngram { substring_spans(decoded.as_slice(), query) } else { verified_spans(decoded.as_slice(), query_keys) };
        let ghost sp = spec_spans_for(ngram, query@, qk, decoded@);
        proof {
            lemma_spans_inside(ngram, query@, qk, decoded@);
        }
        let ghost h0 = hits_view(hits@);
        let mut j: usize = 0;
        let mut capped = false;
        while j < spans.len() && !capped
            invariant
                j <= spans@.len(),
                spans_view(spans@) == sp,
                sp == spec_spans_for(ngram, query@, qk, decoded@),
                spec_read_range(s, d, g.logical_offset, g.byte_length) == Ok::<Seq<u8>, QztError>(decoded@),
                g == granules@[i as int],
                i < granules@.len(),
                d0 + g.byte_length <= u64::MAX,
                d0 + g.byte_length <= options.max_decoded_bytes,
                qk == keys_view(query_keys@),
                forall|k: int| 0 <= k < sp.len() ==> {
                    let t = #[trigger] sp[k];
                    0 <= t.1 <= t.2 <= decoded@.len()
                },
                spec_span_hits(g, sp, 0, h0, options.max_search_results) == (if capped {
                    Ok::<(Seq<(u64, u64, u64, u64)>, bool), QztError>((hits_view(hits@), true))
                } else {
                    spec_span_hits(g, sp, j as int, hits_view(hits@), options.max_search_results)
                }),
            decreases spans@.len() - j + (if capped { 0int } else { 1int }),
        {
            let span = &spans[j];
            assert(sp[j as int] == span_view(*span));
            let start = span.start as u64;
            let len = (span.end - span.start) as u64;
            if g.logical_offset > u64::MAX - start {
                proof {
                    assert(spec_span_hits(g, sp, j as int, hits_view(hits@), options.max_search_results)
                        == Err::<(Seq<(u64, u64, u64, u64)>, bool), QztError>(QztError::LogicalRangeOutOfBounds));
                    assert(spec_read_range(s, d, g.logical_offset, g.byte_length) == Ok::<Seq<u8>, QztError>(decoded@));
                    assert(spec_verify_from(s, d, granules@, i as int, h0, d0, ngram, query@, qk, options)
                        == Err::<(Seq<(u64, u64, u64, u64)>, bool, u64), QztError>(QztError::LogicalRangeOutOfBounds));
                }
                return Err(QztError::LogicalRangeOutOfBounds);
            }
            let ghost hv = hits_view(hits@);
            hits.push(SearchHit {
                logical_offset: g.logical_offset + start,
                byte_length: len,
                chunk_start: g.chunk_start,
                chunk_end: g.chunk_end,
                source: "verified_original_bytes",
            });
            assert(hits_view(hits@) =~= hv.push(((g.logical_offset + sp[j as int].1) as u64, (sp[j as int].2 - sp[j as int].1) as u64, g.chunk_start, g.chunk_end)));
            if hits.len() as u64 >= options.max_search_results {
                capped = true;
            }
            j = j + 1;
        }
        proof {
            assert(spec_read_range(s, d, g.logical_offset, g.byte_length) == Ok::<Seq<u8>, QztError>(decoded@));
            if !capped {
                assert(spec_span_hits(g, sp, j as int, hits_view(hits@), options.max_search_results)
                    == Ok::<(Seq<(u64, u64, u64, u64)>, bool), QztError>((hits_view(hits@), false)));
            }
        }
        if capped {
            return Ok(CandidateVerification {
                hits,
                capped: true,
                decoded_bytes,
                physical_decoded_bytes: cache.physical_decoded_bytes(),
            });
        }
        i = i + 1;
    }
    Ok(CandidateVerification { hits, capped: false, decoded_bytes, physical_decoded_bytes: cache.physical_decoded_bytes() })
}

// ---------------------------------------------------------------------------
// Query planning
// ---------------------------------------------------------------------------

/// Every key is the key of some term.
pub open spec fn spec_all_found(ts: Seq<TermDictionaryEntry>, keys: Seq<Seq<u8>>) -> bool {
    forall|k: int| 0 <= k < keys.len() ==> term_keys(ts).contains(#[trigger] keys[k])
}

/// Granule `x` is in the posting list of every term whose key is a query key.
pub open spec fn spec_in_all(ts: Seq<TermDictionaryEntry>, ps: Seq<Vec<u64>>, keys: Seq<Seq<u8>>, x: u64) -> bool {
    forall|t: int| 0 <= t < ts.len() && keys.contains(#[trigger] ts[t].key@) ==> ps[t]@.contains(x)
}

/// Granule identifiers below `n` that are in every queried posting list, in order.
pub open spec fn spec_ids_upto(ts: Seq<TermDictionaryEntry>, ps: Seq<Vec<u64>>, keys: Seq<Seq<u8>>, n: int) -> Seq<u64>
    decreases n,
{
    if n <= 0 {
        Seq::empty()
    } else if spec_in_all(ts, ps, keys, (n - 1) as u64) {
        spec_ids_upto(ts, ps, keys, n - 1).push((n - 1) as u64)
    } else {
        spec_ids_upto(ts, ps, keys, n - 1)
    }
}

/// The candidate granules of a query whose keys are all in the dictionary.
pub open spec fn spec_candidates(ts: Seq<TermDictionaryEntry>, ps: Seq<Vec<u64>>, granule_count: nat, keys: Seq<Seq<u8>>) -> Seq<u64> {
    spec_ids_upto(ts, ps, keys, granule_count as int)
}

/// The granules of candidate identifiers.
pub open spec fn spec_granules_of(gs: Seq<SearchGranule>, ids: Seq<u64>) -> Seq<SearchGranule> {
    ids.map_values(|id: u64| gs[id as int])
}

proof fn lemma_ids_upto(ts: Seq<TermDictionaryEntry>, ps: Seq<Vec<u64>>, keys: Seq<Seq<u8>>, n: int)
    requires
        0 <= n <= u64::MAX + 1,
    ensures
        spec_increasing(spec_ids_upto(ts, ps, keys, n)),
        forall|x: u64| #[trigger] spec_ids_upto(ts, ps, keys, n).contains(x) <==> (x < n && spec_in_all(ts, ps, keys, x)),
    decreases n,
{
    if n > 0 {
        lemma_ids_upto(ts, ps, keys, n - 1);
        let a = spec_ids_upto(ts, ps, keys, n - 1);
        let v = (n - 1) as u64;
        assert(v == n - 1);
        if spec_in_all(ts, ps, keys, v) {
            let b = a.push(v);
            assert(spec_ids_upto(ts, ps, keys, n) == b);
            lemma_push_contains(a, v);
            assert forall|i: int, j: int| 0 <= i < j < b.len() implies #[trigger] b[i] < #[trigger] b[j] by {
                assert(b[i] == a[i]);
                if j == a.len() {
                    assert(b[j] == v);
                    assert(a.contains(a[i]));
                } else {
                    assert(b[j] == a[j]);
                }
            }
            assert forall|x: u64| b.contains(x) <==> (x < n && spec_in_all(ts, ps, keys, x)) by {
                assert(b.contains(x) == (a.contains(x) || x == v));
            }
        } else {
            assert(spec_ids_upto(ts, ps, keys, n) == a);
            assert forall|x: u64| a.contains(x) <==> (x < n && spec_in_all(ts, ps, keys, x)) by {
                if x == v {
                }
            }
        }
    }
}

/// Two strictly increasing lists with the same elements are equal.
pub proof fn lemma_increasing_unique(a: Seq<u64>, b: Seq<u64>)
    requires
        spec_increasing(a),
        spec_increasing(b),
        forall|x: u64| a.contains(x) <==> b.contains(x),
    ensures
        a == b,
    decreases a.len(),
{
    if a.len() == 0 {
        if b.len() > 0 {
            assert(b.contains(b[0]));
        }
        assert(a =~= b);
    } else {
        assert(a.contains(a[0]));
        assert(b.len() > 0);
        assert(b.contains(b[0]));
        let p = choose|p: int| 0 <= p < b.len() && b[p] == a[0];
        let q = choose|q: int| 0 <= q < a.len() && a[q] == b[0];
        if p > 0 {
            assert(b[0] < b[p]);
            assert(a[0] <= a[q]);
        }
        assert(a[0] == b[0]);
        let a2 = a.drop_first();
        let b2 = b.drop_first();
        assert forall|x: u64| a2.contains(x) <==> b2.contains(x) by {
            if a2.contains(x) {
                let i = choose|i: int| 0 <= i < a2.len() && a2[i] == x;
                assert(a[i + 1] == x);
                assert(a[0] < a[i + 1]);
                assert(b.contains(x));
                let j = choose|j: int| 0 <= j < b.len() && b[j] == x;
                assert(j != 0);
                assert(b2[j - 1] == x);
            }
            if b2.contains(x) {
                let i = choose|i: int| 0 <= i < b2.len() && b2[i] == x;
                assert(b[i + 1] == x);
                assert(b[0] < b[i + 1]);
                assert(a.contains(x));
                let j = choose|j: int| 0 <= j < a.len() && a[j] == x;
                assert(j != 0);
                assert(a2[j - 1] == x);
            }
        }
        lemma_increasing_unique(a2, b2);
        assert(a =~= seq![a[0]] + a2);
        assert(b =~= seq![b[0]] + b2);
    }
}

pub(crate) fn clone_keys(ks: &Vec<Vec<u8>>) -> (r: Vec<Vec<u8>>)
    ensures
        keys_view(r@) == keys_view(ks@),
{
    let mut out: Vec<Vec<u8>> = Vec::new();
    let mut i: usize = 0;
    while i < ks.len()
        invariant
            i <= ks@.len(),
            keys_view(out@) == keys_view(ks@).subrange(0, i as int),
        decreases ks@.len() - i,
    {
        let k = ks[i].clone();
        assert(k@ =~= ks@[i as int]@);
        let ghost o0 = out@;
        out.push(k);
        assert(keys_view(out@) =~= keys_view(o0).push(ks@[i as int]@));
        assert(keys_view(out@) =~= keys_view(ks@).subrange(0, i + 1));
        i = i + 1;
    }
    assert(keys_view(ks@).subrange(0, i as int) =~= keys_view(ks@));
    out
}

/// Rank order of `(class, weight, term index)` triples.
pub open spec fn spec_rank_lt(a: (u64, u64, usize), b: (u64, u64, usize)) -> bool {
    a.0 < b.0 || (a.0 == b.0 && (a.1 < b.1 || (a.1 == b.1 && a.2 < b.2)))
}

/// Strictly increasing in rank order.
pub open spec fn spec_rank_sorted(s: Seq<(u64, u64, usize)>) -> bool {
    forall|i: int, j: int| 0 <= i < j < s.len() ==> spec_rank_lt(#[trigger] s[i], #[trigger] s[j])
}

/// Sorts ranked triples with distinct term indexes into rank order.
pub(crate) fn sort_ranked(items: &Vec<(u64, u64, usize)>) -> (r: Vec<(u64, u64, usize)>)
    requires
        forall|i: int, j: int| 0 <= i < j < items@.len() ==> (#[trigger] items@[i]).2 != (#[trigger] items@[j]).2,
    ensures
        spec_rank_sorted(r@),
        r@.len() == items@.len(),
        forall|x: (u64, u64, usize)| r@.contains(x) <==> items@.contains(x),
{
    let mut out: Vec<(u64, u64, usize)> = Vec::new();
    let mut i: usize = 0;
    while i < items.len()
        invariant
            i <= items@.len(),
            forall|a: int, b: int| 0 <= a < b < items@.len() ==> (#[trigger] items@[a]).2 != (#[trigger] items@[b]).2,
            spec_rank_sorted(out@),
            out@.len() == i,
            forall|x: (u64, u64, usize)| out@.contains(x) <==> items@.subrange(0, i as int).contains(x),
        decreases items@.len() - i,
    {
        let x = items[i];
        let ghost o = out@;
        let mut p: usize = 0;
        while p < out.len() && (out[p].0 < x.0 || (out[p].0 == x.0 && (out[p].1 < x.1 || (out[p].1 == x.1 && out[p].2 < x.2))))
            invariant
                p <= out@.len(),
                out@ == o,
                forall|k: int| 0 <= k < p ==> spec_rank_lt(#[trigger] o[k], x),
            decreases out@.len() - p,
        {
            p = p + 1;
        }
        proof {
            if p < o.len() {
                assert(o.contains(o[p as int]));
                assert(items@.subrange(0, i as int).contains(o[p as int]));
                let w = choose|w: int| 0 <= w < i && items@.subrange(0, i as int)[w] == o[p as int];
                assert(items@[w] == o[p as int]);
                assert(o[p as int].2 != x.2);
            }
        }
        out.insert(p, x);
        proof {
            let n = out@;
            assert(n =~= o.insert(p as int, x));
            assert forall|a: int, b: int| 0 <= a < b < n.len() implies spec_rank_lt(#[trigger] n[a], #[trigger] n[b]) by {
                if b > p && a < p {
                    assert(spec_rank_lt(o[a], x));
                    assert(spec_rank_lt(x, o[p as int]));
                    if b - 1 > p {
                        assert(spec_rank_lt(o[p as int], o[b - 1]));
                    }
                } else if b > p && a == p {
                    if b - 1 > p {
                        assert(spec_rank_lt(o[p as int], o[b - 1]));
                    }
                }
            }
            lemma_push_contains(items@.subrange(0, i as int), x);
            assert(items@.subrange(0, i + 1) =~= items@.subrange(0, i as int).push(x));
            assert forall|y: (u64, u64, usize)| n.contains(y) <==> (o.contains(y) || y == x) by {
                if n.contains(y) {
                    let w = choose|w: int| 0 <= w < n.len() && n[w] == y;
                    if w < p {
                        assert(o[w] == y);
                    } else if w > p {
                        assert(o[w - 1] == y);
                    }
                }
                if o.contains(y) {
                    let w = choose|w: int| 0 <= w < o.len() && o[w] == y;
                    if w < p {
                        assert(n[w] == y);
                    } else {
                        assert(n[w + 1] == y);
                    }
                }
                if y == x {
                    assert(n[p as int] == y);
                }
            }
            assert forall|y: (u64, u64, usize)| n.contains(y) <==> items@.subrange(0, i + 1).contains(y) by {
                assert(n.contains(y) == (o.contains(y) || y == x));
                assert(o.contains(y) == items@.subrange(0, i as int).contains(y));
                assert(items@.subrange(0, i + 1).contains(y) == (items@.subrange(0, i as int).contains(y) || y == x));
            }
        }
        i = i + 1;
    }
    assert(items@.subrange(0, i as int) =~= items@);
    out
}

// ---------------------------------------------------------------------------
// Raw token index
// ---------------------------------------------------------------------------

/// Granules and a dictionary that search can rely on.
pub open spec fn spec_index_ok(size: u64, gs: Seq<SearchGranule>, ts: Seq<TermDictionaryEntry>, ps: Seq<Vec<u64>>) -> bool {
    &&& spec_granules_error(size, gs, gs.len() as int) is None
    &&& spec_dictionary_ok(ts, ps, gs.len() as usize)
}

/// Transient raw token index over line granules.
#[derive(Debug, Clone, PartialEq, Eq)]
pub struct RawTokenIndex {
    /// Identifier of the container the index was built from.
    pub container_id: [u8; 16],
    /// Original logical source size in bytes.
    pub source_size_bytes: u64,
    /// Source text model used to derive keys and offsets.
    pub source: SearchIndexSource,
    /// Posting unit represented by each granule.
    pub posting_granularity: PostingGranularity,
    /// Whether the dictionary covers every token of the source.
    pub complete: bool,
    /// Ordered line granules addressed by posting identifiers.
    pub granules: Vec<SearchGranule>,
    /// Bytewise-sorted token dictionary.
    pub terms: Vec<TermDictionaryEntry>,
    /// Strictly increasing granule identifiers, parallel to `terms`.
    pub postings: Vec<Vec<u64>>,
    /// Delta varint encoding of each posting list.
    pub encoded_postings: Vec<Vec<u8>>,
}

proof fn lemma_stat_terms_keep_shape(
    terms: Seq<TermDictionaryEntry>,
    ts: Seq<TermDictionaryEntry>,
    ps: Seq<Vec<u64>>,
    granule_count: usize,
    with_skips: bool,
)
    requires
        spec_dictionary_ok(terms, ps, granule_count),
        ts.len() == terms.len(),
        forall|i: int| 0 <= i < ts.len() ==> spec_stat_term(terms[i], ps, i, with_skips, #[trigger] ts[i]),
    ensures
        spec_dictionary_ok(ts, ps, granule_count),
{
    assert(term_keys(ts) =~= term_keys(terms)) by {
        assert forall|i: int| 0 <= i < ts.len() implies term_keys(ts)[i] == term_keys(terms)[i] by {
            assert(spec_stat_term(terms[i], ps, i, with_skips, ts[i]));
        }
    }
    assert forall|i: int| 0 <= i < ts.len() implies (#[trigger] ts[i]).flags == 0 by {
        assert(spec_stat_term(terms[i], ps, i, with_skips, ts[i]));
        assert(terms[i].flags == 0);
    }
}

/// Distinct keys in a strictly sorted dictionary name distinct terms.
pub(crate) proof fn lemma_sorted_keys_distinct(ts: Seq<TermDictionaryEntry>, i: int, j: int)
    requires
        spec_strictly_sorted(term_keys(ts)),
        0 <= i < ts.len(),
        0 <= j < ts.len(),
        ts[i].key@ == ts[j].key@,
    ensures
        i == j,
{
    if i < j {
        assert(spec_lex_lt(term_keys(ts)[i], term_keys(ts)[j]));
        lemma_lex_irreflexive(ts[i].key@);
    } else if j < i {
        assert(spec_lex_lt(term_keys(ts)[j], term_keys(ts)[i]));
        lemma_lex_irreflexive(ts[i].key@);
    }
}

impl RawTokenIndex {
    /// Whether the granules and dictionary have the shape search relies on.
    pub open spec fn wf(&self) -> bool {
        spec_index_ok(self.source_size_bytes, self.granules@, self.terms@, self.postings@)
    }

    /// Builds an index from materialized line granules and postings,
    /// recomputing term statistics and encoded posting offsets.
    pub fn from_parts(
        container_id: [u8; 16],
        source_size_bytes: u64,
        granules: Vec<SearchGranule>,
        terms: Vec<TermDictionaryEntry>,
        postings: Vec<Vec<u64>>,
    ) -> (r: Result<Self>)
        ensures
            match spec_granules_error(source_size_bytes, granules@, granules@.len() as int) {
                Some(e) => r == Err::<Self, QztError>(e),
                None => match spec_dictionary_shape_error(terms@, postings@, granules@.len() as usize) {
                    Some(e) => r == Err::<Self, QztError>(e),
                    None => match r {
                        Ok(idx) => {
                            &&& idx.wf()
                            &&& idx.container_id == container_id
                            &&& idx.source_size_bytes == source_size_bytes
                            &&& idx.source == SearchIndexSource::RawUtf8
                            &&& idx.posting_granularity == PostingGranularity::Line
                            &&& idx.complete
                            &&& idx.granules@ == granules@
                            &&& idx.postings@ == postings@
                            &&& idx.terms@.len() == terms@.len()
                            &&& forall|i: int| 0 <= i < terms@.len() ==> spec_stat_term(terms@[i], postings@, i, false, #[trigger] idx.terms@[i])
                        },
                        Err(e) => e == QztError::ResourceLimitExceeded
                            && spec_posting_offset(postings@, postings@.len() as int) > u64::MAX,
                    },
                },
            },
    {
        validate_granules(source_size_bytes, &granules)?;
        validate_term_dictionary_shape(&terms, &postings, granules.len())?;
        proof {
            lemma_dictionary_shape(terms@, postings@, granules@.len() as usize);
        }
        let (ts, enc, _skips) = match encode_posting_lists(&terms, &postings, false) {
            Ok(x) => x,
            Err(e) => {
                proof {
                    assert(spec_skip_offset(postings@, postings@.len() as int, false) == 0) by {
                        lemma_no_skip_offset(postings@, postings@.len() as int);
                    }
                }
                return Err(e);
            },
        };
        proof {
            lemma_stat_terms_keep_shape(terms@, ts@, postings@, granules@.len() as usize, false);
        }
        Ok(RawTokenIndex {
            container_id,
            source_size_bytes,
            source: SearchIndexSource::RawUtf8,
            posting_granularity: PostingGranularity::Line,
            complete: true,
            granules,
            terms: ts,
            postings,
            encoded_postings: enc,
        })
    }

    /// The posting list of an exact, already normalized token key.
    pub fn posting_list_for_key(&self, key: &[u8]) -> (r: Option<&Vec<u64>>)
        requires
            self.wf(),
        ensures
            match r {
                Some(p) => exists|i: int| 0 <= i < self.terms@.len() && #[trigger] self.terms@[i].key@ == key@ && *p == self.postings@[i],
                None => forall|i: int| 0 <= i < self.terms@.len() ==> (#[trigger] self.terms@[i]).key@ != key@,
            },
    {
        match term_index_for_key(&self.terms, key) {
            Some(i) => Some(&self.postings[i]),
            None => None,
        }
    }

    /// Estimated serialized bytes of this index's granules, terms and postings.
    pub fn size_bytes(&self) -> (r: u64)
        ensures
            r == spec_index_size(self.granules@, self.terms@, self.encoded_postings@),
    {
        index_size_bytes(&self.granules, &self.terms, &self.encoded_postings)
    }

    /// Searches an in-memory container for lines holding every query token.
    pub fn search(&self, reader: &QztReader, query: &str, options: SearchOptions) -> (r: Result<SearchReport>)
        requires
            self.wf(),
        ensures
            spec_token_search_outcome(self.terms@, self.postings@, self.granules@, reader.spec_bytes(), reader.spec_details(), true, query.spec_bytes(), options, r),
    {
        token_search(self, reader, query, options)
    }

    /// Searches a positioned container, decoding only candidate chunks.
    pub fn search_file<R: ReadAt>(&self, reader: &QztFileReader<R>, query: &str, options: SearchOptions) -> (r: Result<SearchReport>)
        requires
            self.wf(),
        ensures
            spec_token_search_outcome(self.terms@, self.postings@, self.granules@, reader.spec_bytes(), reader.spec_details(), false, query.spec_bytes(), options, r),
    {
        token_search(self, reader, query, options)
    }
}

proof fn lemma_no_skip_offset(ps: Seq<Vec<u64>>, n: int)
    ensures
        spec_skip_offset(ps, n, false) == 0,
    decreases n,
{
    if n > 0 {
        lemma_no_skip_offset(ps, n - 1);
    }
}

/// The outcome of a search over dictionary `ts`, postings `ps` and granules
/// `gs` for the query keys `keys`, hit spans chosen by `ngram`, `q`: no hits
/// when a key is missing; otherwise the candidates verified in order.
pub open spec fn spec_planned_outcome(
    ts: Seq<TermDictionaryEntry>,
    ps: Seq<Vec<u64>>,
    gs: Seq<SearchGranule>,
    s: Seq<u8>,
    d: SkeletonDetails,
    exact: bool,
    keys: Seq<Seq<u8>>,
    ngram: bool,
    q: Seq<u8>,
    options: SearchOptions,
    r: Result<SearchReport>,
) -> bool {
    match r {
        Ok(rep) => {
            &&& keys_view(rep.planner.required_keys@) == keys
            &&& rep.metrics.term_lookups == keys.len()
            &&& if !spec_all_found(ts, keys) {
                &&& rep.hits@.len() == 0
                &&& !rep.capped
                &&& rep.planner.missing_keys@.len() == 1
                &&& keys.contains(rep.planner.missing_keys@[0]@)
                &&& !term_keys(ts).contains(rep.planner.missing_keys@[0]@)
            } else {
                let c = spec_candidates(ts, ps, gs.len(), keys);
                &&& rep.incomplete_reason is None
                &&& forall|k: Seq<u8>| keys_view(rep.planner.selected_keys@).contains(k) <==> keys.contains(k)
                &&& rep.metrics.candidate_granules == c.len()
                &&& if c.len() > options.max_candidate_granules || options.max_search_results == 0 {
                    rep.hits@.len() == 0 && rep.capped
                } else {
                    &&& rep.metrics.candidate_chunks == spec_chunk_ids(spec_granules_of(gs, c)).len() as u64
                    &&& spec_verify_from(s, d, spec_granules_of(gs, c), 0, Seq::empty(), 0, ngram, q, keys, options)
                        == Ok::<(Seq<(u64, u64, u64, u64)>, bool, u64), QztError>((hits_view(rep.hits@), rep.capped, rep.metrics.decoded_bytes))
                    &&& rep.metrics.verified_matches == rep.hits@.len()
                }
            }
        },
        Err(e) => e == QztError::ResourceLimitExceeded || (!exact && spec_io_failure(e)) || (
            spec_all_found(ts, keys) && spec_verify_from(s, d, spec_granules_of(gs, spec_candidates(ts, ps, gs.len(), keys)), 0, Seq::empty(), 0, ngram, q, keys, options)
                == Err::<(Seq<(u64, u64, u64, u64)>, bool, u64), QztError>(e)),
    }
}

/// Verifying the candidates of the token keys of `query` fails with `e`.
pub open spec fn spec_token_verify_error(
    ts: Seq<TermDictionaryEntry>,
    ps: Seq<Vec<u64>>,
    gs: Seq<SearchGranule>,
    s: Seq<u8>,
    d: SkeletonDetails,
    query: Seq<u8>,
    options: SearchOptions,
    e: QztError,
) -> bool {
    exists|keys: Seq<Seq<u8>>| #[trigger] spec_strictly_sorted(keys)
        && (forall|k: Seq<u8>| keys.contains(k) <==> spec_token_keys(spec_tokens(query)).contains(k))
        && spec_all_found(ts, keys)
        && spec_verify_from(s, d, spec_granules_of(gs, spec_candidates(ts, ps, gs.len(), keys)), 0, Seq::empty(), 0, false, Seq::empty(), keys, options)
            == Err::<(Seq<(u64, u64, u64, u64)>, bool, u64), QztError>(e)
}

/// The outcome of a token search for the query bytes `query`.
pub open spec fn spec_token_search_outcome(
    ts: Seq<TermDictionaryEntry>,
    ps: Seq<Vec<u64>>,
    gs: Seq<SearchGranule>,
    s: Seq<u8>,
    d: SkeletonDetails,
    exact: bool,
    query: Seq<u8>,
    options: SearchOptions,
    r: Result<SearchReport>,
) -> bool {
    match r {
        Ok(rep) => {
            let keys = keys_view(rep.planner.required_keys@);
            &&& spec_strictly_sorted(keys)
            &&& (forall|k: Seq<u8>| keys.contains(k) <==> spec_token_keys(spec_tokens(query)).contains(k))
            &&& (keys.len() == 0 ==> rep.hits@.len() == 0 && !rep.capped && rep.incomplete_reason == Some("query_has_no_indexable_tokens"))
            &&& (keys.len() > 0 ==> spec_planned_outcome(ts, ps, gs, s, d, exact, keys, false, Seq::empty(), options, r)
                && (!spec_all_found(ts, keys) ==> rep.incomplete_reason is None))
        },
        Err(e) => e == QztError::ResourceLimitExceeded || (!exact && spec_io_failure(e)) || spec_token_verify_error(ts, ps, gs, s, d, query, options, e),
    }
}

/// Whether a term in `granule_frequency` of `granule_count` granules reaches
/// `threshold` per million granules.
pub open spec fn spec_is_high_df(granule_count: usize, granule_frequency: u64, threshold: u32) -> bool {
    let count = if granule_count == 0 { 1 } else { granule_count as int };
    (granule_frequency as int * 1_000_000) / count >= threshold
}

pub(crate) fn is_high_df(granule_count: usize, granule_frequency: u64, threshold: u32) -> (r: bool)
    ensures
        r == spec_is_high_df(granule_count, granule_frequency, threshold),
{
    let count: u128 = if granule_count == 0 { 1 } else { granule_count as u128 };
    let frequency = granule_frequency as u128;
    assert(frequency * 1_000_000 <= u128::MAX) by (nonlinear_arith)
        requires
            frequency <= u64::MAX,
    ;
    let per_million = frequency * 1_000_000 / count;
    per_million >= threshold as u128
}

/// Looks every key up; the term indexes, ranked, or the first missing key.
fn rank_terms(
    terms: &Vec<TermDictionaryEntry>,
    postings: &Vec<Vec<u64>>,
    keys: &Vec<Vec<u8>>,
    ngram: bool,
    granule_count: usize,
    threshold: u32,
) -> (r: core::result::Result<Vec<(u64, u64, usize)>, usize>)
    requires
        spec_strictly_sorted(term_keys(terms@)),
        spec_strictly_sorted(keys_view(keys@)),
        terms@.len() == postings@.len(),
    ensures
        match r {
            Ok(ranked) => {
                &&& spec_all_found(terms@, keys_view(keys@))
                &&& ranked@.len() == keys@.len()
                &&& forall|m: int| 0 <= m < ranked@.len() ==> {
                    let x = #[trigger] ranked@[m];
                    &&& x.2 < terms@.len()
                    &&& terms@[x.2 as int].key@ == keys@[m]@
                }
                &&& forall|a: int, b: int| 0 <= a < b < ranked@.len() ==> (#[trigger] ranked@[a]).2 != (#[trigger] ranked@[b]).2
            },
            Err(m) => m < keys@.len() && !term_keys(terms@).contains(keys@[m as int]@) && !spec_all_found(terms@, keys_view(keys@)),
        },
{
    let mut ranked: Vec<(u64, u64, usize)> = Vec::new();
    let mut k: usize = 0;
    while k < keys.len()
        invariant
            k <= keys@.len(),
            spec_strictly_sorted(term_keys(terms@)),
            spec_strictly_sorted(keys_view(keys@)),
            terms@.len() == postings@.len(),
            ranked@.len() == k,
            forall|m: int| 0 <= m < k ==> {
                let x = #[trigger] ranked@[m];
                &&& x.2 < terms@.len()
                &&& terms@[x.2 as int].key@ == keys@[m]@
            },
            forall|m: int| 0 <= m < k ==> term_keys(terms@).contains(#[trigger] keys_view(keys@)[m]),
        decreases keys@.len() - k,
    {
        match term_index_for_key(terms, keys[k].as_slice()) {
            None => {
                proof {
                    assert(!term_keys(terms@).contains(keys@[k as int]@)) by {
                        if term_keys(terms@).contains(keys@[k as int]@) {
                            let w = choose|w: int| 0 <= w < term_keys(terms@).len() && term_keys(terms@)[w] == keys@[k as int]@;
                            assert(terms@[w].key@ == keys@[k as int]@);
                        }
                    }
                    assert(keys_view(keys@)[k as int] == keys@[k as int]@);
                }
                return Err(k);
            },
            Some(ti) => {
                assert(term_keys(terms@)[ti as int] == keys@[k as int]@);
                assert(keys_view(keys@)[k as int] == keys@[k as int]@);
                if ngram {
                    let high: u64 = if is_high_df(granule_count, terms[ti].granule_frequency, threshold) { 1 } else { 0 };
                    ranked.push((high, terms[ti].granule_frequency, ti));
                } else {
                    ranked.push((0, postings[ti].len() as u64, ti));
                }
            },
        }
        k = k + 1;
    }
    proof {
        assert forall|a: int, b: int| 0 <= a < b < ranked@.len() implies (#[trigger] ranked@[a]).2 != (#[trigger] ranked@[b]).2 by {
            if ranked@[a].2 == ranked@[b].2 {
                assert(keys_view(keys@)[a] == keys@[a]@);
                assert(keys_view(keys@)[b] == keys@[b]@);
                assert(spec_lex_lt(keys_view(keys@)[a], keys_view(keys@)[b]));
                lemma_lex_irreflexive(keys@[a]@);
            }
        }
    }
    Ok(ranked)
}

/// Intersects the postings of ranked terms and gathers the candidates' granules.
fn gather_candidates(
    terms: &Vec<TermDictionaryEntry>,
    postings: &Vec<Vec<u64>>,
    granules: &Vec<SearchGranule>,
    keys: &Vec<Vec<u8>>,
    sorted: &Vec<(u64, u64, usize)>,
) -> (r: (Vec<u64>, Vec<SearchGranule>))
    requires
        spec_dictionary_ok(terms@, postings@, granules@.len() as usize),
        spec_all_found(terms@, keys_view(keys@)),
        keys@.len() > 0,
        sorted@.len() == keys@.len(),
        forall|m: int| 0 <= m < sorted@.len() ==> (#[trigger] sorted@[m]).2 < terms@.len()
            && keys_view(keys@).contains(terms@[sorted@[m].2 as int].key@),
        forall|t: int| 0 <= t < terms@.len() && keys_view(keys@).contains(#[trigger] terms@[t].key@)
            ==> exists|m: int| 0 <= m < sorted@.len() && (#[trigger] sorted@[m]).2 == t,
    ensures
        r.0@ == spec_candidates(terms@, postings@, granules@.len(), keys_view(keys@)),
        r.1@ == spec_granules_of(granules@, r.0@),
{
    let mut order: Vec<usize> = Vec::new();
    let mut i: usize = 0;
    while i < sorted.len()
        invariant
            i <= sorted@.len(),
            order@.len() == i,
            forall|m: int| 0 <= m < i ==> #[trigger] order@[m] == sorted@[m].2,
        decreases sorted@.len() - i,
    {
        order.push(sorted[i].2);
        i = i + 1;
    }
    let ghost keys_v = keys_view(keys@);
    proof {
        assert forall|k: int| 0 <= k < order@.len() implies #[trigger] order@[k] < postings@.len() by {
            assert(order@[k] == sorted@[k].2);
        }
        assert forall|k: int| 0 <= k < order@.len() implies spec_increasing(#[trigger] postings@[order@[k] as int]@) by {
            assert(order@[k] == sorted@[k].2);
        }
    }
    let candidates = intersect_postings(postings, &order);
    let ghost spec_c = spec_candidates(terms@, postings@, granules@.len(), keys_v);
    proof {
        assert(granules.len() == granules@.len());
        lemma_ids_upto(terms@, postings@, keys_v, granules@.len() as int);
        assert forall|x: u64| candidates@.contains(x) <==> spec_c.contains(x) by {
            if candidates@.contains(x) {
                assert(postings@[order@[0] as int]@.contains(x));
                let j = choose|j: int| 0 <= j < postings@[order@[0] as int]@.len() && postings@[order@[0] as int]@[j] == x;
                assert(postings@[order@[0] as int]@[j] < granules@.len());
                assert forall|t: int| 0 <= t < terms@.len() && keys_v.contains(#[trigger] terms@[t].key@) implies postings@[t]@.contains(x) by {
                    let m = choose|m: int| 0 <= m < sorted@.len() && (#[trigger] sorted@[m]).2 == t;
                    assert(order@[m] == t);
                }
            }
            if spec_c.contains(x) {
                assert forall|k: int| 0 <= k < order@.len() implies (#[trigger] postings@[order@[k] as int])@.contains(x) by {
                    assert(order@[k] == sorted@[k].2);
                    assert(keys_v.contains(terms@[sorted@[k].2 as int].key@));
                }
            }
        }
        lemma_increasing_unique(candidates@, spec_c);
        assert forall|x: u64| #[trigger] spec_c.contains(x) implies x < granules@.len() by {}
    }
    let mut cands: Vec<SearchGranule> = Vec::new();
    let mut j: usize = 0;
    while j < candidates.len()
        invariant
            j <= candidates@.len(),
            candidates@ == spec_c,
            granules@.len() <= usize::MAX,
            forall|x: u64| #[trigger] spec_c.contains(x) ==> x < granules@.len(),
            cands@ == spec_granules_of(granules@, candidates@).subrange(0, j as int),
        decreases candidates@.len() - j,
    {
        assert(spec_c.contains(spec_c[j as int]));
        let id = candidates[j] as usize;
        assert(spec_granules_of(granules@, candidates@)[j as int] == granules@[id as int]);
        cands.push(granules[id]);
        assert(cands@ =~= spec_granules_of(granules@, candidates@).subrange(0, j + 1));
        j = j + 1;
    }
    assert(spec_granules_of(granules@, candidates@).subrange(0, j as int) =~= spec_granules_of(granules@, candidates@));
    (candidates, cands)
}

/// Token search over any reader of the indexed container.
fn token_search<RR: CachedRangeRead>(index: &RawTokenIndex, reader: &RR, query: &str, options: SearchOptions) -> (r: Result<SearchReport>)
    requires
        index.wf(),
    ensures
        spec_token_search_outcome(index.terms@, index.postings@, index.granules@, reader.range_bytes(), reader.range_details(), reader.range_exact(), query.spec_bytes(), options, r),
{
    let keys = unique_query_keys(query.as_bytes());
    let ghost kv = keys_view(keys@);
    let mut planner = PlannerDecision::new(clone_keys(&keys));
    let size = index_size_bytes(&index.granules, &index.terms, &index.encoded_postings);
    let mut metrics = empty_search_metrics(query, "token", size, index.source_size_bytes);
    metrics.term_lookups = keys.len() as u64;
    if keys.len() == 0 {
        return Ok(early_exit_report(metrics, planner, false, Some("query_has_no_indexable_tokens")));
    }
    let ranked = match rank_terms(&index.terms, &index.postings, &keys, false, 0, 0) {
        Ok(x) => x,
        Err(m) => {
            planner.missing_keys.push(keys[m].clone());
            let rep = early_exit_report(metrics, planner, false, None);
            assert(rep.planner.missing_keys@[0]@ =~= keys@[m as int]@);
            assert(kv[m as int] == keys@[m as int]@);
            return Ok(rep);
        },
    };
    let mut k: usize = 0;
    while k < ranked.len()
        invariant
            k <= ranked@.len(),
            ranked@.len() == keys@.len(),
            metrics.term_lookups == keys@.len(),
            index.terms@.len() == index.postings@.len(),
            forall|m: int| 0 <= m < ranked@.len() ==> (#[trigger] ranked@[m]).2 < index.terms@.len(),
        decreases ranked@.len() - k,
    {
        let ti = ranked[k].2;
        if metrics.posting_bytes_read > u64::MAX - index.terms[ti].posting_size {
            return Err(QztError::ResourceLimitExceeded);
        }
        metrics.posting_bytes_read = metrics.posting_bytes_read + index.terms[ti].posting_size;
        k = k + 1;
    }
    let sorted = sort_ranked(&ranked);
    proof {
        assert forall|m: int| 0 <= m < sorted@.len() implies (#[trigger] sorted@[m]).2 < index.terms@.len()
            && kv.contains(index.terms@[sorted@[m].2 as int].key@) by {
            assert(ranked@.contains(sorted@[m]));
            let w = choose|w: int| 0 <= w < ranked@.len() && ranked@[w] == sorted@[m];
            assert(kv[w] == keys@[w]@);
        }
        assert forall|t: int| 0 <= t < index.terms@.len() && kv.contains(#[trigger] index.terms@[t].key@)
            implies exists|m: int| 0 <= m < sorted@.len() && (#[trigger] sorted@[m]).2 == t by {
            let w = choose|w: int| 0 <= w < kv.len() && kv[w] == index.terms@[t].key@;
            assert(kv[w] == keys@[w]@);
            let x = ranked@[w];
            lemma_sorted_keys_distinct(index.terms@, x.2 as int, t);
            assert(ranked@.contains(x));
            assert(sorted@.contains(x));
            let m = choose|m: int| 0 <= m < sorted@.len() && sorted@[m] == x;
            assert(sorted@[m].2 == t);
        }
    }
    let mut selected: Vec<Vec<u8>> = Vec::new();
    let mut j: usize = 0;
    while j < sorted.len()
        invariant
            j <= sorted@.len(),
            forall|m: int| 0 <= m < sorted@.len() ==> (#[trigger] sorted@[m]).2 < index.terms@.len(),
            keys_view(selected@) == sorted@.subrange(0, j as int).map_values(|x: (u64, u64, usize)| index.terms@[x.2 as int].key@),
        decreases sorted@.len() - j,
    {
        let key = index.terms[sorted[j].2].key.clone();
        assert(key@ =~= index.terms@[sorted@[j as int].2 as int].key@);
        let ghost s0 = selected@;
        selected.push(key);
        assert(keys_view(selected@) =~= keys_view(s0).push(index.terms@[sorted@[j as int].2 as int].key@));
        assert(keys_view(selected@) =~= sorted@.subrange(0, j + 1).map_values(|x: (u64, u64, usize)| index.terms@[x.2 as int].key@));
        j = j + 1;
    }
    proof {
        let sv = keys_view(selected@);
        assert(sorted@.subrange(0, j as int) =~= sorted@);
        assert forall|key: Seq<u8>| sv.contains(key) <==> kv.contains(key) by {
            if sv.contains(key) {
                let w = choose|w: int| 0 <= w < sv.len() && sv[w] == key;
                assert(sv[w] == index.terms@[sorted@[w].2 as int].key@);
            }
            if kv.contains(key) {
                let w = choose|w: int| 0 <= w < kv.len() && kv[w] == key;
                assert(kv[w] == keys@[w]@);
                let x = ranked@[w];
                assert(ranked@.contains(x));
                assert(sorted@.contains(x));
                let m = choose|m: int| 0 <= m < sorted@.len() && sorted@[m] == x;
                assert(sv[m] == key);
            }
        }
    }
    planner.selected_keys = selected;
    let (candidates, cands) = gather_candidates(&index.terms, &index.postings, &index.granules, &keys, &sorted);
    metrics.candidate_granules = candidates.len() as u64;
    if metrics.candidate_granules > options.max_candidate_granules || options.max_search_results == 0 {
        return Ok(early_exit_report(metrics, planner, true, None));
    }
    metrics.candidate_chunks = count_chunks(&cands)?;
    let empty: [u8; 0] = [];
    assert(empty@ =~= Seq::<u8>::empty());
    let verification = verify_candidates(reader, &cands, false, empty.as_slice(), &keys, options)?;
    metrics.decoded_bytes = verification.decoded_bytes;
    metrics.physical_decoded_bytes = verification.physical_decoded_bytes;
    metrics.verified_matches = verification.hits.len() as u64;
    Ok(SearchReport { hits: verification.hits, metrics, capped: verification.capped, planner, incomplete_reason: None })
}

// ---------------------------------------------------------------------------
// Raw n-gram index
// ---------------------------------------------------------------------------

/// Transient raw Unicode-scalar n-gram index over line granules.
#[derive(Debug, Clone, PartialEq, Eq)]
pub struct RawNgramIndex {
    /// Identifier of the container the index was built from.
    pub container_id: [u8; 16],
    /// Original logical source size in bytes.
    pub source_size_bytes: u64,
    /// Source text model used to derive keys and offsets.
    pub source: SearchIndexSource,
    /// Posting unit represented by each granule.
    pub posting_granularity: PostingGranularity,
    /// Whether the dictionary contains every n-gram of the source.
    pub complete: bool,
    /// Exact n-gram interpretation required to query this index.
    pub declaration: NgramDeclaration,
    /// Frequency threshold and default limits recorded for planning.
    pub planner_config: PlannerConfig,
    /// Ordered line granules addressed by posting identifiers.
    pub granules: Vec<SearchGranule>,
    /// Bytewise-sorted raw UTF-8 n-gram dictionary.
    pub terms: Vec<TermDictionaryEntry>,
    /// Strictly increasing granule identifiers, parallel to `terms`.
    pub postings: Vec<Vec<u64>>,
    /// Periodic seek records for long posting lists, parallel to `terms`.
    pub skip_data: Vec<Vec<SkipPoint>>,
    /// Delta varint encoding of each posting list.
    pub encoded_postings: Vec<Vec<u8>>,
}

/// Bytes of posting data that a lookup of a term reads: its whole list, or
/// only its skip records and a small probe when it has skip records.
pub open spec fn spec_reported_posting_bytes(t: TermDictionaryEntry, skips: nat) -> Option<u64> {
    if skips == 0 {
        Some(t.posting_size)
    } else {
        let probe: int = if skips * 24 > usize::MAX { usize::MAX as int } else { (skips * 24) as int };
        if probe + 16 > u64::MAX {
            None
        } else if probe + 16 < t.posting_size {
            Some((probe + 16) as u64)
        } else {
            Some(t.posting_size)
        }
    }
}

fn reported_posting_bytes_read(term: &TermDictionaryEntry, skips: usize) -> (r: Result<u64>)
    ensures
        match spec_reported_posting_bytes(*term, skips as nat) {
            Some(v) => r == Ok::<u64, QztError>(v),
            None => r == Err::<u64, QztError>(QztError::ResourceLimitExceeded),
        },
{
    if skips == 0 {
        return Ok(term.posting_size);
    }
    let probe: usize = if skips > usize::MAX / 24 { usize::MAX } else { skips * 24 };
    proof {
        if skips <= usize::MAX / 24 {
            assert(skips * 24 <= usize::MAX) by (nonlinear_arith)
                requires
                    skips <= usize::MAX / 24,
            ;
        } else {
            assert(skips * 24 > usize::MAX) by (nonlinear_arith)
                requires
                    skips > usize::MAX / 24,
            ;
        }
    }
    let probe64 = probe as u64;
    if probe64 > u64::MAX - 16 {
        return Err(QztError::ResourceLimitExceeded);
    }
    let bytes = probe64 + 16;
    if bytes < term.posting_size { Ok(bytes) } else { Ok(term.posting_size) }
}

impl RawNgramIndex {
    /// Whether the granules, dictionary and skip records have the shape search relies on.
    pub open spec fn wf(&self) -> bool {
        &&& spec_index_ok(self.source_size_bytes, self.granules@, self.terms@, self.postings@)
        &&& self.skip_data@.len() == self.terms@.len()
    }

    /// Builds an n-gram index from materialized line granules and postings,
    /// recomputing term statistics, encoded offsets and skip records.
    pub fn from_parts(
        container_id: [u8; 16],
        source_size_bytes: u64,
        granules: Vec<SearchGranule>,
        terms: Vec<TermDictionaryEntry>,
        postings: Vec<Vec<u64>>,
        options: NgramIndexBuildOptions,
    ) -> (r: Result<Self>)
        ensures
            match spec_granules_error(source_size_bytes, granules@, granules@.len() as int) {
                Some(e) => r == Err::<Self, QztError>(e),
                None => match spec_dictionary_shape_error(terms@, postings@, granules@.len() as usize) {
                    Some(e) => r == Err::<Self, QztError>(e),
                    None => match r {
                        Ok(idx) => {
                            &&& idx.wf()
                            &&& idx.container_id == container_id
                            &&& idx.source_size_bytes == source_size_bytes
                            &&& idx.source == SearchIndexSource::RawUtf8
                            &&& idx.posting_granularity == PostingGranularity::Line
                            &&& idx.complete == options.complete
                            &&& idx.declaration.n == options.n
                            &&& idx.planner_config.high_df_per_million == options.high_df_per_million
                            &&& idx.granules@ == granules@
                            &&& idx.postings@ == postings@
                            &&& idx.terms@.len() == terms@.len()
                            &&& forall|i: int| 0 <= i < terms@.len() ==> spec_stat_term(terms@[i], postings@, i, true, #[trigger] idx.terms@[i])
                            &&& forall|i: int| 0 <= i < terms@.len() ==> (#[trigger] idx.skip_data@[i])@ == spec_skip_points(postings@[i]@)
                        },
                        Err(e) => e == QztError::ResourceLimitExceeded
                            && (spec_posting_offset(postings@, postings@.len() as int) > u64::MAX
                                || spec_skip_offset(postings@, postings@.len() as int, true) > u64::MAX),
                    },
                },
            },
    {
        validate_granules(source_size_bytes, &granules)?;
        validate_term_dictionary_shape(&terms, &postings, granules.len())?;
        proof {
            lemma_dictionary_shape(terms@, postings@, granules@.len() as usize);
        }
        let (ts, enc, skips) = encode_posting_lists(&terms, &postings, true)?;
        proof {
            lemma_stat_terms_keep_shape(terms@, ts@, postings@, granules@.len() as usize, true);
        }
        let defaults = PlannerConfig::default();
        Ok(RawNgramIndex {
            container_id,
            source_size_bytes,
            source: SearchIndexSource::RawUtf8,
            posting_granularity: PostingGranularity::Line,
            complete: options.complete,
            declaration: NgramDeclaration {
                n: options.n,
                unit: NgramUnit::UnicodeScalar,
                normalization: "none",
                case_fold: false,
                boundary_mode: "adjacent_decode",
                boundary_window_bytes: 4096,
            },
            planner_config: PlannerConfig {
                max_candidate_granules_default: defaults.max_candidate_granules_default,
                max_decoded_bytes_default: defaults.max_decoded_bytes_default,
                high_df_per_million: options.high_df_per_million,
            },
            granules,
            terms: ts,
            postings,
            skip_data: skips,
            encoded_postings: enc,
        })
    }

    /// Dictionary entry of an exact raw UTF-8 n-gram key.
    pub fn term_for_key(&self, key: &[u8]) -> (r: Option<&TermDictionaryEntry>)
        requires
            self.wf(),
        ensures
            match r {
                Some(t) => exists|i: int| 0 <= i < self.terms@.len() && *t == #[trigger] self.terms@[i] && t.key@ == key@,
                None => forall|i: int| 0 <= i < self.terms@.len() ==> (#[trigger] self.terms@[i]).key@ != key@,
            },
    {
        match term_index_for_key(&self.terms, key) {
            Some(i) => Some(&self.terms[i]),
            None => None,
        }
    }

    /// Estimated serialized bytes of this index's granules, terms and postings.
    pub fn size_bytes(&self) -> (r: u64)
        ensures
            r == spec_index_size(self.granules@, self.terms@, self.encoded_postings@),
    {
        index_size_bytes(&self.granules, &self.terms, &self.encoded_postings)
    }

    /// Searches an in-memory container for an exact substring.
    pub fn search(&self, reader: &QztReader, query: &str, options: SearchOptions) -> (r: Result<SearchReport>)
        requires
            self.wf(),
        ensures
            spec_ngram_search_outcome(self.terms@, self.postings@, self.granules@, self.declaration.n, self.complete,
                reader.spec_bytes(), reader.spec_details(), true, query.spec_bytes(), options, r),
    {
        ngram_search(self, reader, query, options)
    }

    /// Searches a positioned container for an exact substring, decoding only candidate chunks.
    pub fn search_file<R: ReadAt>(&self, reader: &QztFileReader<R>, query: &str, options: SearchOptions) -> (r: Result<SearchReport>)
        requires
            self.wf(),
        ensures
            spec_ngram_search_outcome(self.terms@, self.postings@, self.granules@, self.declaration.n, self.complete,
                reader.spec_bytes(), reader.spec_details(), false, query.spec_bytes(), options, r),
    {
        ngram_search(self, reader, query, options)
    }
}

/// Verifying the candidates of the n-gram keys of `query` fails with `e`.
pub open spec fn spec_ngram_verify_error(
    ts: Seq<TermDictionaryEntry>,
    ps: Seq<Vec<u64>>,
    gs: Seq<SearchGranule>,
    n: usize,
    s: Seq<u8>,
    d: SkeletonDetails,
    query: Seq<u8>,
    options: SearchOptions,
    e: QztError,
) -> bool {
    exists|keys: Seq<Seq<u8>>| #[trigger] spec_strictly_sorted(keys)
        && (forall|k: Seq<u8>| keys.contains(k) <==> spec_ngram_keys(query, n as nat).contains(k))
        && spec_all_found(ts, keys)
        && spec_verify_from(s, d, spec_granules_of(gs, spec_candidates(ts, ps, gs.len(), keys)), 0, Seq::empty(), 0, true, query, keys, options)
            == Err::<(Seq<(u64, u64, u64, u64)>, bool, u64), QztError>(e)
}

/// The outcome of an n-gram search for the query bytes `query`.
pub open spec fn spec_ngram_search_outcome(
    ts: Seq<TermDictionaryEntry>,
    ps: Seq<Vec<u64>>,
    gs: Seq<SearchGranule>,
    n: usize,
    complete: bool,
    s: Seq<u8>,
    d: SkeletonDetails,
    exact: bool,
    query: Seq<u8>,
    options: SearchOptions,
    r: Result<SearchReport>,
) -> bool {
    match r {
        Ok(rep) => {
            let keys = keys_view(rep.planner.required_keys@);
            &&& n > 0
            &&& spec_strictly_sorted(keys)
            &&& (forall|k: Seq<u8>| keys.contains(k) <==> spec_ngram_keys(query, n as nat).contains(k))
            &&& (keys.len() == 0 ==> rep.hits@.len() == 0 && !rep.capped && rep.incomplete_reason == Some("query_shorter_than_ngram_n"))
            &&& (keys.len() > 0 ==> spec_planned_outcome(ts, ps, gs, s, d, exact, keys, true, query, options, r)
                && (!spec_all_found(ts, keys) ==> rep.incomplete_reason == (if complete { None } else { Some("missing_required_key_in_incomplete_index") })))
        },
        Err(e) => e == QztError::ResourceLimitExceeded || (!exact && spec_io_failure(e))
            || spec_ngram_verify_error(ts, ps, gs, n, s, d, query, options, e),
    }
}

/// N-gram search over any reader of the indexed container.
fn ngram_search<RR: CachedRangeRead>(index: &RawNgramIndex, reader: &RR, query: &str, options: SearchOptions) -> (r: Result<SearchReport>)
    requires
        index.wf(),
    ensures
        spec_ngram_search_outcome(index.terms@, index.postings@, index.granules@, index.declaration.n, index.complete,
            reader.range_bytes(), reader.range_details(), reader.range_exact(), query.spec_bytes(), options, r),
{
    let keys = ngram_keys_for_query(query, index.declaration.n)?;
    let ghost kv = keys_view(keys@);
    let mut planner = PlannerDecision::new(clone_keys(&keys));
    let size = index_size_bytes(&index.granules, &index.terms, &index.encoded_postings);
    let mut metrics = empty_search_metrics(query, "ngram", size, index.source_size_bytes);
    metrics.term_lookups = keys.len() as u64;
    if keys.len() == 0 {
        return Ok(early_exit_report(metrics, planner, false, Some("query_shorter_than_ngram_n")));
    }
    let ranked = match rank_terms(&index.terms, &index.postings, &keys, true, index.granules.len(), index.planner_config.high_df_per_million) {
        Ok(x) => x,
        Err(m) => {
            planner.missing_keys.push(keys[m].clone());
            let reason: Option<&'static str> = if index.complete { None } else { Some("missing_required_key_in_incomplete_index") };
            let rep = early_exit_report(metrics, planner, false, reason);
            assert(rep.planner.missing_keys@[0]@ =~= keys@[m as int]@);
            assert(kv[m as int] == keys@[m as int]@);
            return Ok(rep);
        },
    };
    let sorted = sort_ranked(&ranked);
    proof {
        assert forall|m: int| 0 <= m < sorted@.len() implies (#[trigger] sorted@[m]).2 < index.terms@.len()
            && kv.contains(index.terms@[sorted@[m].2 as int].key@) by {
            assert(ranked@.contains(sorted@[m]));
            let w = choose|w: int| 0 <= w < ranked@.len() && ranked@[w] == sorted@[m];
            assert(kv[w] == keys@[w]@);
        }
        assert forall|t: int| 0 <= t < index.terms@.len() && kv.contains(#[trigger] index.terms@[t].key@)
            implies exists|m: int| 0 <= m < sorted@.len() && (#[trigger] sorted@[m]).2 == t by {
            let w = choose|w: int| 0 <= w < kv.len() && kv[w] == index.terms@[t].key@;
            assert(kv[w] == keys@[w]@);
            let x = ranked@[w];
            lemma_sorted_keys_distinct(index.terms@, x.2 as int, t);
            assert(ranked@.contains(x));
            assert(sorted@.contains(x));
            let m = choose|m: int| 0 <= m < sorted@.len() && sorted@[m] == x;
            assert(sorted@[m].2 == t);
        }
    }
    let mut selected: Vec<Vec<u8>> = Vec::new();
    let mut j: usize = 0;
    while j < sorted.len()
        invariant
            j <= sorted@.len(),
            metrics.term_lookups == keys@.len(),
            keys_view(planner.required_keys@) == kv,
            kv == keys_view(keys@),
            index.wf(),
            forall|m: int| 0 <= m < sorted@.len() ==> (#[trigger] sorted@[m]).2 < index.terms@.len(),
            keys_view(selected@) == sorted@.subrange(0, j as int).map_values(|x: (u64, u64, usize)| index.terms@[x.2 as int].key@),
        decreases sorted@.len() - j,
    {
        let ti = sorted[j].2;
        let key = index.terms[ti].key.clone();
        assert(key@ =~= index.terms@[ti as int].key@);
        if is_high_df(index.granules.len(), index.terms[ti].granule_frequency, index.planner_config.high_df_per_million) {
            planner.high_df_keys.push(index.terms[ti].key.clone());
        }
        if index.skip_data[ti].len() > 0 {
            planner.used_skip_data = true;
        }
        let reported = reported_posting_bytes_read(&index.terms[ti], index.skip_data[ti].len())?;
        if metrics.posting_bytes_read > u64::MAX - reported {
            return Err(QztError::ResourceLimitExceeded);
        }
        metrics.posting_bytes_read = metrics.posting_bytes_read + reported;
        let ghost s0 = selected@;
        selected.push(key);
        assert(keys_view(selected@) =~= keys_view(s0).push(index.terms@[ti as int].key@));
        assert(keys_view(selected@) =~= sorted@.subrange(0, j + 1).map_values(|x: (u64, u64, usize)| index.terms@[x.2 as int].key@));
        j = j + 1;
    }
    proof {
        let sv = keys_view(selected@);
        assert(sorted@.subrange(0, j as int) =~= sorted@);
        assert forall|key: Seq<u8>| sv.contains(key) <==> kv.contains(key) by {
            if sv.contains(key) {
                let w = choose|w: int| 0 <= w < sv.len() && sv[w] == key;
                assert(sv[w] == index.terms@[sorted@[w].2 as int].key@);
            }
            if kv.contains(key) {
                let w = choose|w: int| 0 <= w < kv.len() && kv[w] == key;
                assert(kv[w] == keys@[w]@);
                let x = ranked@[w];
                assert(ranked@.contains(x));
                assert(sorted@.contains(x));
                let m = choose|m: int| 0 <= m < sorted@.len() && sorted@[m] == x;
                assert(sv[m] == key);
            }
        }
    }
    planner.selected_keys = selected;
    let (candidates, cands) = gather_candidates(&index.terms, &index.postings, &index.granules, &keys, &sorted);
    metrics.candidate_granules = candidates.len() as u64;
    if metrics.candidate_granules > options.max_candidate_granules || options.max_search_results == 0 {
        return Ok(early_exit_report(metrics, planner, true, None));
    }
    metrics.candidate_chunks = count_chunks(&cands)?;
    let verification = verify_candidates(reader, &cands, true, query.as_bytes(), &keys, options)?;
    metrics.decoded_bytes = verification.decoded_bytes;
    metrics.physical_decoded_bytes = verification.physical_decoded_bytes;
    metrics.verified_matches = verification.hits.len() as u64;
    Ok(SearchReport { hits: verification.hits, metrics, capped: verification.capped, planner, incomplete_reason: None })
}

// ---------------------------------------------------------------------------
// Building line indexes
// ---------------------------------------------------------------------------

/// Complete lines among the first `p` bytes of `t` as byte ranges, and where
/// the current line starts.
pub open spec fn spec_line_state(t: Seq<u8>, p: int) -> (Seq<(int, int)>, int)
    decreases p,
{
    if p <= 0 {
        (Seq::empty(), 0)
    } else {
        let prev = spec_line_state(t, p - 1);
        if t[p - 1] == 10 {
            (prev.0.push((prev.1, p)), p)
        } else {
            prev
        }
    }
}

/// The lines of `t` as byte ranges: each ends after a line feed, and a last
/// line without one ends at the end of the text.
pub open spec fn spec_lines(t: Seq<u8>) -> Seq<(int, int)> {
    let st = spec_line_state(t, t.len() as int);
    if st.1 < t.len() { st.0.push((st.1, t.len() as int)) } else { st.0 }
}

/// The chunk holding logical offset `x`.
pub open spec fn spec_chunk_containing(es: Seq<ChunkEntry>, x: int) -> int {
    choose|k: int| 0 <= k < es.len() && (#[trigger] es[k]).logical_offset <= x < es[k].logical_offset + es[k].uncompressed_size
}

/// The granule of line `i`, bytes `a..b`.
pub open spec fn spec_line_granule(es: Seq<ChunkEntry>, i: int, a: int, b: int) -> SearchGranule {
    SearchGranule {
        granule_id: i as u64,
        logical_offset: a as u64,
        byte_length: (b - a) as u64,
        chunk_start: spec_chunk_containing(es, a) as u64,
        chunk_end: (spec_chunk_containing(es, b - 1) + 1) as u64,
        first_line: Some(i as u64),
        line_count: Some(1u64),
    }
}

/// Granules of the given line ranges.
pub open spec fn spec_granules_of_lines(es: Seq<ChunkEntry>, ls: Seq<(int, int)>) -> Seq<SearchGranule> {
    Seq::new(ls.len(), |i: int| spec_line_granule(es, i, ls[i].0, ls[i].1))
}

/// The keys of one line: its token keys, or its n-gram keys.
pub open spec fn spec_line_keys(ngram: bool, n: usize, line: Seq<u8>) -> Seq<Seq<u8>> {
    if ngram { spec_ngram_keys(line, n as nat) } else { spec_token_keys(spec_tokens(line)) }
}

/// The keys of each of the given lines of `t`.
pub open spec fn spec_keys_of_lines(ngram: bool, n: usize, t: Seq<u8>, ls: Seq<(int, int)>) -> Seq<Seq<Seq<u8>>> {
    Seq::new(ls.len(), |i: int| spec_line_keys(ngram, n, t.subrange(ls[i].0, ls[i].1)))
}

/// Sorted keys and posting lists of lines whose keys are `lk`: every key of a
/// line appears once, and its list names exactly the lines that hold it.
pub open spec fn spec_postings_of(lk: Seq<Seq<Seq<u8>>>, keys: Seq<Seq<u8>>, lists: Seq<Seq<u64>>) -> bool {
    &&& spec_strictly_sorted(keys)
    &&& keys.len() == lists.len()
    &&& forall|k: Seq<u8>| keys.contains(k) <==> exists|x: int| 0 <= x < lk.len() && #[trigger] lk[x].contains(k)
    &&& forall|i: int| 0 <= i < lists.len() ==> spec_increasing(#[trigger] lists[i])
    &&& forall|i: int, x: u64| 0 <= i < lists.len() ==> (#[trigger] lists[i].contains(x) <==> (x < lk.len() && lk[x as int].contains(keys[i])))
}

/// The line index of text `t` split into chunks `es`: one granule per line,
/// keys in bytewise order, and for each key the lines that hold it.
pub open spec fn spec_line_index(
    es: Seq<ChunkEntry>,
    t: Seq<u8>,
    ngram: bool,
    n: usize,
    gs: Seq<SearchGranule>,
    keys: Seq<Seq<u8>>,
    lists: Seq<Seq<u64>>,
) -> bool {
    &&& gs == spec_granules_of_lines(es, spec_lines(t))
    &&& spec_postings_of(spec_keys_of_lines(ngram, n, t, spec_lines(t)), keys, lists)
}

proof fn lemma_line_state_prefix(a: Seq<u8>, b: Seq<u8>, p: int)
    requires
        0 <= p <= a.len(),
        p <= b.len(),
        a.subrange(0, p) == b.subrange(0, p),
    ensures
        spec_line_state(a, p) == spec_line_state(b, p),
    decreases p,
{
    if p > 0 {
        assert(a.subrange(0, p - 1) =~= a.subrange(0, p).subrange(0, p - 1));
        assert(b.subrange(0, p - 1) =~= b.subrange(0, p).subrange(0, p - 1));
        assert(a[p - 1] == a.subrange(0, p)[p - 1]);
        assert(b[p - 1] == b.subrange(0, p)[p - 1]);
        lemma_line_state_prefix(a, b, p - 1);
    }
}

proof fn lemma_line_state_bounds(t: Seq<u8>, p: int)
    requires
        0 <= p <= t.len(),
    ensures
        0 <= spec_line_state(t, p).1 <= p,
        forall|i: int| 0 <= i < spec_line_state(t, p).0.len() ==> {
            let l = #[trigger] spec_line_state(t, p).0[i];
            0 <= l.0 < l.1 <= spec_line_state(t, p).1
        },
        forall|i: int, j: int| 0 <= i < j < spec_line_state(t, p).0.len() ==>
            (#[trigger] spec_line_state(t, p).0[i]).1 <= (#[trigger] spec_line_state(t, p).0[j]).0,
        spec_line_state(t, p).0.len() > 0 ==> spec_line_state(t, p).0.last().1 == spec_line_state(t, p).1,
    decreases p,
{
    if p > 0 {
        lemma_line_state_bounds(t, p - 1);
    }
}

/// Where the posting lists stand while line `l` adds its keys `cur[..j]`.
pub open spec fn spec_postings_partial(
    lk: Seq<Seq<Seq<u8>>>,
    cur: Seq<Seq<u8>>,
    j: int,
    keys: Seq<Seq<u8>>,
    lists: Seq<Seq<u64>>,
) -> bool {
    let l = lk.len();
    &&& spec_strictly_sorted(keys)
    &&& keys.len() == lists.len()
    &&& forall|k: Seq<u8>| keys.contains(k) <==> ((exists|x: int| 0 <= x < l && #[trigger] lk[x].contains(k)) || cur.subrange(0, j).contains(k))
    &&& forall|i: int| 0 <= i < lists.len() ==> spec_increasing(#[trigger] lists[i])
    &&& forall|i: int, x: u64| 0 <= i < lists.len() ==> (#[trigger] lists[i].contains(x) <==>
        ((x < l && lk[x as int].contains(keys[i])) || (x == l && cur.subrange(0, j).contains(keys[i]))))
}

/// Lists as plain sequences.
pub open spec fn lists_view(ls: Seq<Vec<u64>>) -> Seq<Seq<u64>> {
    ls.map_values(|l: Vec<u64>| l@)
}

/// Adds key `cur[j]` of line `l` to the sorted keys and posting lists.
fn add_line_key(
    keys: &mut Vec<Vec<u8>>,
    lists: &mut Vec<Vec<u64>>,
    key: Vec<u8>,
    id: u64,
    Ghost(lk): Ghost<Seq<Seq<Seq<u8>>>>,
    Ghost(cur): Ghost<Seq<Seq<u8>>>,
    Ghost(j): Ghost<int>,
)
    requires
        0 <= j < cur.len(),
        key@ == cur[j],
        id == lk.len(),
        spec_postings_partial(lk, cur, j, keys_view(old(keys)@), lists_view(old(lists)@)),
    ensures
        spec_postings_partial(lk, cur, j + 1, keys_view(final(keys)@), lists_view(final(lists)@)),
{
    let ghost kv = keys_view(keys@);
    let ghost lv = lists_view(lists@);
    let ghost l = lk.len();
    proof {
        lemma_push_contains(cur.subrange(0, j), cur[j]);
        assert(cur.subrange(0, j + 1) =~= cur.subrange(0, j).push(cur[j]));
    }
    let mut low: usize = 0;
    let mut high: usize = keys.len();
    while low < high
        invariant
            low <= high <= kv.len(),
            keys@ == old(keys)@,
            lists@ == old(lists)@,
            kv == keys_view(keys@),
            lv == lists_view(lists@),
            id == lk.len(),
            l == lk.len(),
            0 <= j < cur.len(),
            key@ == cur[j],
            spec_postings_partial(lk, cur, j, kv, lv),
            cur.subrange(0, j + 1) == cur.subrange(0, j).push(cur[j]),
            forall|x: Seq<u8>| #[trigger] cur.subrange(0, j).push(cur[j]).contains(x) <==> (cur.subrange(0, j).contains(x) || x == cur[j]),
            spec_strictly_sorted(kv),
            forall|i: int| 0 <= i < low ==> spec_lex_lt(#[trigger] kv[i], key@),
            forall|i: int| high <= i < kv.len() ==> spec_lex_lt(key@, #[trigger] kv[i]),
        decreases high - low,
    {
        let mid = low + (high - low) / 2;
        let c = compare_bytes(keys[mid].as_slice(), key.as_slice());
        assert(kv[mid as int] == keys@[mid as int]@);
        if c == 0 {
            // The key already has a list: this line joins it unless it already did.
            let last_is_id = lists[mid].len() > 0 && lists[mid][lists[mid].len() - 1] == id;
            if !last_is_id {
                proof {
                    assert(lv[mid as int] == lists@[mid as int]@);
                    assert forall|y: u64| #[trigger] lv[mid as int].contains(y) implies y < id by {
                        if lv[mid as int].contains(y) && y >= id {
                            assert(y == l);
                            let w = choose|w: int| 0 <= w < lv[mid as int].len() && lv[mid as int][w] == y;
                            if w < lv[mid as int].len() - 1 {
                                assert(lv[mid as int][w] < lv[mid as int][lv[mid as int].len() - 1]);
                                assert(lv[mid as int].contains(lv[mid as int][lv[mid as int].len() - 1]));
                            }
                        }
                    }
                }
                lists[mid].push(id);
                proof {
                    let nl = lists_view(lists@);
                    assert(nl =~= lv.update(mid as int, lv[mid as int].push(id)));
                    lemma_push_contains(lv[mid as int], id);
                    let p = lv[mid as int];
                    assert forall|a: int, b: int| 0 <= a < b < p.push(id).len() implies #[trigger] p.push(id)[a] < #[trigger] p.push(id)[b] by {
                        assert(p.contains(p[a]));
                        if b < p.len() {
                            assert(p[a] < p[b]);
                        }
                    }
                }
            } else {
                proof {
                    assert(lv[mid as int].contains(id)) by {
                        assert(lv[mid as int][lv[mid as int].len() - 1] == id);
                    }
                }
            }
            return;
        } else if c < 0 {
            proof {
                assert forall|i: int| 0 <= i < mid + 1 implies spec_lex_lt(#[trigger] kv[i], key@) by {
                    if i < mid {
                        lemma_lex_transitive(kv[i], kv[mid as int], key@);
                    }
                }
            }
            low = mid + 1;
        } else {
            proof {
                assert forall|i: int| mid <= i < kv.len() implies spec_lex_lt(key@, #[trigger] kv[i]) by {
                    if i > mid {
                        lemma_lex_transitive(key@, kv[mid as int], kv[i]);
                    }
                }
            }
            high = mid;
        }
    }
    // A new key: no list holds it yet.
    proof {
        assert(!kv.contains(key@)) by {
            if kv.contains(key@) {
                let w = choose|w: int| 0 <= w < kv.len() && kv[w] == key@;
                lemma_lex_irreflexive(key@);
            }
        }
    }
    let mut list: Vec<u64> = Vec::new();
    list.push(id);
    keys.insert(low, key);
    lists.insert(low, list);
    proof {
        let p = low as int;
        let nk = keys_view(keys@);
        let nl = lists_view(lists@);
        assert(nk =~= kv.insert(p, cur[j]));
        assert(nl =~= lv.insert(p, seq![id]));
        assert forall|a: int, b: int| 0 <= a < b < nk.len() implies spec_lex_lt(#[trigger] nk[a], #[trigger] nk[b]) by {
            if b > p && a < p {
                lemma_lex_transitive(kv[a], cur[j], kv[b - 1]);
            }
        }
        assert forall|k: Seq<u8>| nk.contains(k) <==> (kv.contains(k) || k == cur[j]) by {
            if nk.contains(k) {
                let w = choose|w: int| 0 <= w < nk.len() && nk[w] == k;
                if w < p {
                    assert(kv[w] == k);
                } else if w > p {
                    assert(kv[w - 1] == k);
                }
            }
            if kv.contains(k) {
                let w = choose|w: int| 0 <= w < kv.len() && kv[w] == k;
                if w < p {
                    assert(nk[w] == k);
                } else {
                    assert(nk[w + 1] == k);
                }
            }
            if k == cur[j] {
                assert(nk[p] == k);
            }
        }
        assert forall|i: int, x: u64| 0 <= i < nl.len() implies (#[trigger] nl[i].contains(x) <==>
            ((x < l && lk[x as int].contains(nk[i])) || (x == l && cur.subrange(0, j + 1).contains(nk[i])))) by {
            if i == p {
                assert(nl[i] == seq![id]);
                assert(seq![id].contains(x) <==> x == id) by {
                    if seq![id].contains(x) {
                        let w = choose|w: int| 0 <= w < 1 && seq![id][w] == x;
                    }
                    if x == id {
                        assert(seq![id][0] == x);
                    }
                }
                if x < l && lk[x as int].contains(nk[i]) {
                    assert(kv.contains(cur[j]));
                }
            } else if i < p {
                assert(nl[i] == lv[i] && nk[i] == kv[i]);
            } else {
                assert(nl[i] == lv[i - 1] && nk[i] == kv[i - 1]);
            }
        }
        assert forall|i: int| 0 <= i < nl.len() implies spec_increasing(#[trigger] nl[i]) by {
            if i < p {
                assert(nl[i] == lv[i]);
            } else if i > p {
                assert(nl[i] == lv[i - 1]);
            }
        }
    }
}


/// Index of the chunk holding logical offset `x` of a valid table.
fn chunk_containing(entries: &Vec<ChunkEntry>, x: u64, Ghost(original_size): Ghost<u64>, Ghost(line_count): Ghost<u64>) -> (r: usize)
    requires
        spec_table_consistent(entries@, original_size, line_count),
        x < original_size,
    ensures
        r < entries@.len(),
        r == spec_chunk_containing(entries@, x as int),
        entries@[r as int].chunk_id == r,
{
    let ghost es = entries@;
    let r = range_start_chunk_index(entries, x, Ghost(original_size), Ghost(line_count));
    proof {
        if r == es.len() {
            if es.len() == 0 {
                assert(spec_sum_sizes(es, 0) == 0);
            } else {
                crate::chunk_table::lemma_consistent_entry_bounds(es, original_size, line_count, es.len() - 1);
                assert(es[es.len() - 1].logical_offset + es[es.len() - 1].uncompressed_size <= x);
            }
            assert(false);
        }
        crate::chunk_table::lemma_consistent_entry_bounds(es, original_size, line_count, r as int);
        if r > 0 {
            crate::chunk_table::lemma_consistent_entry_bounds(es, original_size, line_count, r - 1);
            assert(es[r - 1].logical_offset + es[r - 1].uncompressed_size <= x);
        }
        assert(es[r as int].logical_offset <= x < es[r as int].logical_offset + es[r as int].uncompressed_size);
        let c = spec_chunk_containing(es, x as int);
        assert(0 <= c < es.len() && es[c].logical_offset <= x < es[c].logical_offset + es[c].uncompressed_size);
        if c < r {
            crate::chunk_table::lemma_consistent_order(es, original_size, line_count, c, r as int);
        } else if c > r {
            crate::chunk_table::lemma_consistent_order(es, original_size, line_count, r as int, c);
        }
    }
    r
}

/// Keys of one line: its lowercased token keys, or the n-gram keys of a UTF-8 line.
fn line_keys(line: &Vec<u8>, ngram: bool, n: usize) -> (r: Result<Vec<Vec<u8>>>)
    ensures
        match r {
            Ok(ks) => keys_view(ks@) == spec_line_keys(ngram, n, line@),
            Err(e) => e == QztError::InvalidUtf8 && ngram && !vstd::utf8::valid_utf8(line@),
        },
{
    if ngram {
        if text_from_utf8(line.as_slice()).is_none() {
            return Err(QztError::InvalidUtf8);
        }
        Ok(ngram_keys(line.as_slice(), n))
    } else {
        let tokens = tokenize_ascii_lower(line.as_slice());
        let mut ks: Vec<Vec<u8>> = Vec::new();
        let mut i: usize = 0;
        while i < tokens.len()
            invariant
                i <= tokens@.len(),
                spans_view(tokens@) == spec_tokens(line@),
                keys_view(ks@) == spec_token_keys(spec_tokens(line@)).subrange(0, i as int),
            decreases tokens@.len() - i,
        {
            let k = tokens[i].key.clone();
            assert(k@ =~= tokens@[i as int].key@);
            assert(spec_token_keys(spec_tokens(line@))[i as int] == spans_view(tokens@)[i as int].0);
            let ghost k0 = ks@;
            ks.push(k);
            assert(keys_view(ks@) =~= keys_view(k0).push(tokens@[i as int].key@));
            assert(keys_view(ks@) =~= spec_token_keys(spec_tokens(line@)).subrange(0, i + 1));
            i = i + 1;
        }
        assert(spec_token_keys(spec_tokens(line@)).subrange(0, i as int) =~= spec_token_keys(spec_tokens(line@)));
        Ok(ks)
    }
}

/// Records the line `start..end`, whose bytes are `line`, as the next granule
/// and adds its keys to the posting lists.
fn emit_line(
    entries: &Vec<ChunkEntry>,
    Ghost(original_size): Ghost<u64>,
    Ghost(line_count): Ghost<u64>,
    line: &Vec<u8>,
    start: u64,
    end: u64,
    granules: &mut Vec<SearchGranule>,
    keys: &mut Vec<Vec<u8>>,
    lists: &mut Vec<Vec<u64>>,
    ngram: bool,
    n: usize,
    Ghost(lk): Ghost<Seq<Seq<Seq<u8>>>>,
) -> (r: Result<()>)
    requires
        spec_table_consistent(entries@, original_size, line_count),
        start < end <= original_size,
        old(granules)@.len() == lk.len(),
        spec_postings_partial(lk, Seq::empty(), 0, keys_view(old(keys)@), lists_view(old(lists)@)),
    ensures
        r is Ok ==> final(granules)@ == old(granules)@.push(spec_line_granule(entries@, lk.len() as int, start as int, end as int)),
        r is Ok ==> spec_postings_partial(lk.push(spec_line_keys(ngram, n, line@)), Seq::empty(), 0, keys_view(final(keys)@), lists_view(final(lists)@)),
        r matches Err(e) ==> e == QztError::InvalidUtf8 || e == QztError::ResourceLimitExceeded || e == QztError::ChunkTableInvalid,
{
    if granules.len() as u128 >= u64::MAX as u128 {
        return Err(QztError::ResourceLimitExceeded);
    }
    let id = granules.len() as u64;
    let first = chunk_containing(entries, start, Ghost(original_size), Ghost(line_count));
    let last = chunk_containing(entries, end - 1, Ghost(original_size), Ghost(line_count));
    if last as u128 >= u64::MAX as u128 {
        return Err(QztError::ChunkTableInvalid);
    }
    let cur = line_keys(line, ngram, n)?;
    let ghost cv = keys_view(cur@);
    let mut j: usize = 0;
    proof {
        assert(cv.subrange(0, 0) =~= Seq::<Seq<u8>>::empty());
        assert(Seq::<Seq<u8>>::empty().subrange(0, 0) =~= Seq::<Seq<u8>>::empty());
    }
    while j < cur.len()
        invariant
            j <= cur@.len(),
            cv == keys_view(cur@),
            id == lk.len(),
            spec_postings_partial(lk, cv, j as int, keys_view(keys@), lists_view(lists@)),
        decreases cur@.len() - j,
    {
        let key = cur[j].clone();
        assert(key@ =~= cv[j as int]);
        add_line_key(keys, lists, key, id, Ghost(lk), Ghost(cv), Ghost(j as int));
        j = j + 1;
    }
    granules.push(SearchGranule {
        granule_id: id,
        logical_offset: start,
        byte_length: end - start,
        chunk_start: entries[first].chunk_id,
        chunk_end: entries[last].chunk_id + 1,
        first_line: Some(id),
        line_count: Some(1u64),
    });
    proof {
        let lk2 = lk.push(cv);
        assert(cv == spec_line_keys(ngram, n, line@));
        let kv = keys_view(keys@);
        let lv = lists_view(lists@);
        assert(cv.subrange(0, j as int) =~= cv);
        assert forall|k: Seq<u8>| kv.contains(k) <==> ((exists|x: int| 0 <= x < lk2.len() && #[trigger] lk2[x].contains(k)) || Seq::<Seq<u8>>::empty().subrange(0, 0).contains(k)) by {
            assert(Seq::<Seq<u8>>::empty().subrange(0, 0) =~= Seq::<Seq<u8>>::empty());
            if exists|x: int| 0 <= x < lk2.len() && #[trigger] lk2[x].contains(k) {
                let x = choose|x: int| 0 <= x < lk2.len() && #[trigger] lk2[x].contains(k);
                if x < lk.len() {
                    assert(lk[x] == lk2[x]);
                }
            }
            if exists|x: int| 0 <= x < lk.len() && #[trigger] lk[x].contains(k) {
                let x = choose|x: int| 0 <= x < lk.len() && #[trigger] lk[x].contains(k);
                assert(lk2[x] == lk[x]);
            }
            if cv.contains(k) {
                assert(lk2[lk.len() as int] == cv);
            }
        }
        assert forall|i: int, x: u64| 0 <= i < lv.len() implies (#[trigger] lv[i].contains(x) <==>
            ((x < lk2.len() && lk2[x as int].contains(kv[i])) || (x == lk2.len() && Seq::<Seq<u8>>::empty().subrange(0, 0).contains(kv[i])))) by {
            assert(Seq::<Seq<u8>>::empty().subrange(0, 0) =~= Seq::<Seq<u8>>::empty());
            if x < lk.len() {
                assert(lk2[x as int] == lk[x as int]);
            }
        }
    }
    Ok(())
}


/// Where streaming line indexing stands after the decoded bytes `acc`.
pub open spec fn spec_build_state(
    es: Seq<ChunkEntry>,
    ngram: bool,
    n: usize,
    acc: Seq<u8>,
    line_start: u64,
    carry: Seq<u8>,
    gs: Seq<SearchGranule>,
    lk: Seq<Seq<Seq<u8>>>,
    kv: Seq<Seq<u8>>,
    lv: Seq<Seq<u64>>,
) -> bool {
    let st = spec_line_state(acc, acc.len() as int);
    &&& line_start == st.1
    &&& carry == acc.subrange(st.1, acc.len() as int)
    &&& gs == spec_granules_of_lines(es, st.0)
    &&& lk == spec_keys_of_lines(ngram, n, acc, st.0)
    &&& spec_postings_partial(lk, Seq::empty(), 0, kv, lv)
}

proof fn lemma_keys_of_lines_extend(ngram: bool, n: usize, acc: Seq<u8>, b: u8, ls: Seq<(int, int)>)
    requires
        forall|i: int| 0 <= i < ls.len() ==> 0 <= (#[trigger] ls[i]).0 <= ls[i].1 <= acc.len(),
    ensures
        spec_keys_of_lines(ngram, n, acc.push(b), ls) == spec_keys_of_lines(ngram, n, acc, ls),
{
    assert forall|i: int| 0 <= i < ls.len() implies acc.push(b).subrange(ls[i].0, ls[i].1) == acc.subrange(ls[i].0, ls[i].1) by {
        assert(acc.push(b).subrange(ls[i].0, ls[i].1) =~= acc.subrange(ls[i].0, ls[i].1));
    }
    assert(spec_keys_of_lines(ngram, n, acc.push(b), ls) =~= spec_keys_of_lines(ngram, n, acc, ls));
}

proof fn lemma_postings_done(lk: Seq<Seq<Seq<u8>>>, kv: Seq<Seq<u8>>, lv: Seq<Seq<u64>>)
    requires
        spec_postings_partial(lk, Seq::empty(), 0, kv, lv),
    ensures
        spec_postings_of(lk, kv, lv),
{
    assert(Seq::<Seq<u8>>::empty().subrange(0, 0) =~= Seq::<Seq<u8>>::empty());
}

/// One step of streaming: byte `b` follows the decoded bytes `acc`.
proof fn lemma_build_step(
    es: Seq<ChunkEntry>,
    ngram: bool,
    n: usize,
    acc: Seq<u8>,
    b: u8,
)
    ensures
        ({
            let st = spec_line_state(acc, acc.len() as int);
            let acc2 = acc.push(b);
            let st2 = spec_line_state(acc2, acc2.len() as int);
            &&& b == 10 ==> st2 == (st.0.push((st.1, acc2.len() as int)), acc2.len() as int)
            &&& b != 10 ==> st2 == st
            &&& spec_keys_of_lines(ngram, n, acc2, st.0) == spec_keys_of_lines(ngram, n, acc, st.0)
        }),
{
    let acc2 = acc.push(b);
    assert(acc2.subrange(0, acc.len() as int) =~= acc.subrange(0, acc.len() as int));
    lemma_line_state_prefix(acc2, acc, acc.len() as int);
    lemma_line_state_bounds(acc, acc.len() as int);
    lemma_keys_of_lines_extend(ngram, n, acc, b, spec_line_state(acc, acc.len() as int).0);
}

/// Builds line granules and the sorted keys with their posting lists in one
/// pass over the chunks: only the decoded chunk and the unfinished line are
/// held at a time.
fn build_line_index<R: ReadAt>(reader: &QztFileReader<R>, ngram: bool, n: usize)
    -> (r: Result<(Vec<SearchGranule>, Vec<Vec<u8>>, Vec<Vec<u64>>)>)
    ensures
        r matches Ok((gs, keys, lists)) ==> (spec_export(reader.spec_bytes(), reader.spec_details()) matches Ok(t)
            && spec_line_index(reader.spec_details().chunk_entries@, t, ngram, n, gs@, keys_view(keys@), lists_view(lists@))),
        reader.spec_details().chunk_entries@.len() == 0 ==> (r matches Ok((gs, keys, lists))
            && gs@.len() == 0 && keys@.len() == 0 && lists@.len() == 0),
{
    let details = reader.skeleton_details();
    let entries = &details.chunk_entries;
    let ghost es = entries@;
    let ghost s = reader.spec_bytes();
    let ghost dicts = details.dictionaries@;
    let ghost original_size = details.summary.original_size;
    let ghost line_count = details.summary.line_count;
    let mut keys: Vec<Vec<u8>> = Vec::new();
    let mut lists: Vec<Vec<u64>> = Vec::new();
    let mut granules: Vec<SearchGranule> = Vec::new();
    let mut carry: Vec<u8> = Vec::new();
    let mut line_start: u64 = 0;
    let mut pos: u64 = 0;
    let ghost mut acc: Seq<u8> = Seq::empty();
    let ghost mut lk: Seq<Seq<Seq<u8>>> = Seq::empty();
    proof {
        assert(keys_view(keys@) =~= Seq::<Seq<u8>>::empty());
        assert(lists_view(lists@) =~= Seq::<Seq<u64>>::empty());
        assert(spec_granules_of_lines(es, Seq::<(int, int)>::empty()) =~= Seq::<SearchGranule>::empty());
        assert(spec_keys_of_lines(ngram, n, acc, Seq::<(int, int)>::empty()) =~= Seq::<Seq<Seq<u8>>>::empty());
        assert(acc.subrange(0, 0) =~= carry@);
        assert(Seq::<Seq<u8>>::empty().subrange(0, 0) =~= Seq::<Seq<u8>>::empty());
    }
    let mut k: usize = 0;
    while k < entries.len()
        invariant
            k <= es.len(),
            es == entries@,
            es == reader.spec_details().chunk_entries@,
            s == reader.spec_bytes(),
            dicts == reader.spec_details().dictionaries@,
            original_size == details.summary.original_size,
            spec_table_consistent(es, original_size, line_count),
            spec_export_chunks(s, dicts, es, 0) == match spec_export_chunks(s, dicts, es, k as int) {
                Ok(rest) => Ok(acc + rest),
                Err(x) => Err::<Seq<u8>, QztError>(x),
            },
            acc.len() == spec_sum_sizes(es, k as int),
            pos == acc.len(),
            granules@.len() == lk.len(),
            spec_build_state(es, ngram, n, acc, line_start, carry@, granules@, lk, keys_view(keys@), lists_view(lists@)),
            k == 0 ==> granules@.len() == 0 && keys@.len() == 0 && lists@.len() == 0,
        decreases es.len() - k,
    {
        let decoded = match reader.decode_chunk(k) {
            Ok(d) => d,
            Err(e) => {
                return Err(e);
            },
        };
        if text_from_utf8(decoded.as_slice()).is_none() {
            return Err(QztError::InvalidUtf8);
        }
        let ghost acc0 = acc;
        proof {
            crate::chunk_table::lemma_consistent_inside(es, original_size, line_count, k as int);
            crate::chunk_table::lemma_consistent_entry_bounds(es, original_size, line_count, k as int);
            assert(decoded@.len() == es[k as int].uncompressed_size);
            crate::chunk_table::lemma_sums_monotone(es, k + 1, es.len() as int);
        }
        let mut idx: usize = 0;
        while idx < decoded.len()
            invariant
                idx <= decoded@.len(),
                acc == acc0 + decoded@.subrange(0, idx as int),
                acc0.len() + decoded@.len() <= original_size,
                pos == acc.len(),
                granules@.len() == lk.len(),
                es == entries@,
                k < es.len(),
                es == reader.spec_details().chunk_entries@,
                spec_table_consistent(es, original_size, line_count),
                spec_build_state(es, ngram, n, acc, line_start, carry@, granules@, lk, keys_view(keys@), lists_view(lists@)),
            decreases decoded@.len() - idx,
        {
            let b = decoded[idx];
            let ghost st = spec_line_state(acc, acc.len() as int);
            proof {
                lemma_build_step(es, ngram, n, acc, b);
                lemma_line_state_bounds(acc, acc.len() as int);
            }
            carry.push(b);
            proof {
                acc = acc.push(b);
                assert(acc0 + decoded@.subrange(0, idx + 1) =~= acc);
                assert(carry@ =~= acc.subrange(st.1, acc.len() as int));
            }
            pos = pos + 1;
            if b == 10 {
                match emit_line(entries, Ghost(original_size), Ghost(line_count), &carry, line_start, pos,
                    &mut granules, &mut keys, &mut lists, ngram, n, Ghost(lk)) {
                    Ok(()) => {},
                    Err(e) => {
                        return Err(e);
                    },
                }
                proof {
                    let st2 = spec_line_state(acc, acc.len() as int);
                    let ls2 = st2.0;
                    assert(ls2 == st.0.push((st.1, acc.len() as int)));
                    assert(granules@ =~= spec_granules_of_lines(es, ls2));
                    lk = lk.push(spec_line_keys(ngram, n, carry@));
                    assert(lk =~= spec_keys_of_lines(ngram, n, acc, ls2));
                }
                carry = Vec::new();
                line_start = pos;
                proof {
                    assert(carry@ =~= acc.subrange(acc.len() as int, acc.len() as int));
                }
            }
            idx = idx + 1;
        }
        proof {
            assert(decoded@.subrange(0, idx as int) =~= decoded@);
            assert(spec_export_chunks(s, dicts, es, k as int) == match spec_export_chunks(s, dicts, es, k + 1) {
                Ok(rest) => Ok(decoded@ + rest),
                Err(x) => Err::<Seq<u8>, QztError>(x),
            });
            match spec_export_chunks(s, dicts, es, k + 1) {
                Ok(rest) => {
                    assert(acc0 + (decoded@ + rest) =~= acc + rest);
                },
                Err(x) => {},
            }
        }
        k = k + 1;
    }
    proof {
        assert(spec_export_chunks(s, dicts, es, k as int) == Ok::<Seq<u8>, QztError>(Seq::empty()));
        assert(acc + Seq::<u8>::empty() =~= acc);
        lemma_line_state_bounds(acc, acc.len() as int);
        crate::chunk_table::lemma_sums_monotone(es, k as int, es.len() as int);
    }
    let ghost st = spec_line_state(acc, acc.len() as int);
    if carry.len() > 0 {
        match emit_line(entries, Ghost(original_size), Ghost(line_count), &carry, line_start, pos,
            &mut granules, &mut keys, &mut lists, ngram, n, Ghost(lk)) {
            Ok(()) => {},
            Err(e) => {
                return Err(e);
            },
        }
        proof {
            let ls2 = spec_lines(acc);
            assert(ls2 == st.0.push((st.1, acc.len() as int)));
            assert(granules@ =~= spec_granules_of_lines(es, ls2));
            lk = lk.push(spec_line_keys(ngram, n, carry@));
            assert(lk =~= spec_keys_of_lines(ngram, n, acc, ls2));
        }
    } else {
        proof {
            assert(spec_lines(acc) == st.0);
        }
    }
    proof {
        lemma_postings_done(lk, keys_view(keys@), lists_view(lists@));
    }
    Ok((granules, keys, lists))
}


/// Fresh dictionary entries for sorted keys: hashes set, statistics zero.
fn terms_for_keys(keys: &Vec<Vec<u8>>) -> (r: Vec<TermDictionaryEntry>)
    ensures
        term_keys(r@) == keys_view(keys@),
        forall|i: int| 0 <= i < r@.len() ==> (#[trigger] r@[i]).flags == 0 && r@[i].key_hash@ == spec_key_hash(r@[i].key@),
{
    let mut terms: Vec<TermDictionaryEntry> = Vec::new();
    let mut i: usize = 0;
    while i < keys.len()
        invariant
            i <= keys@.len(),
            term_keys(terms@) == keys_view(keys@).subrange(0, i as int),
            forall|m: int| 0 <= m < terms@.len() ==> (#[trigger] terms@[m]).flags == 0 && terms@[m].key_hash@ == spec_key_hash(terms@[m].key@),
        decreases keys@.len() - i,
    {
        let key = keys[i].clone();
        assert(key@ =~= keys@[i as int]@);
        let hash = key_hash(key.as_slice());
        let ghost t0 = terms@;
        terms.push(TermDictionaryEntry {
            key,
            key_hash: hash,
            document_frequency: 0,
            granule_frequency: 0,
            posting_offset: 0,
            posting_size: 0,
            skip_offset: 0,
            skip_size: 0,
            flags: 0,
        });
        assert(term_keys(terms@) =~= term_keys(t0).push(keys@[i as int]@));
        assert(term_keys(terms@) =~= keys_view(keys@).subrange(0, i + 1));
        i = i + 1;
    }
    assert(keys_view(keys@).subrange(0, i as int) =~= keys_view(keys@));
    terms
}

/// A built index holds the line index of the whole original text.
pub open spec fn spec_built_from(
    s: Seq<u8>,
    d: SkeletonDetails,
    ngram: bool,
    n: usize,
    gs: Seq<SearchGranule>,
    ts: Seq<TermDictionaryEntry>,
    ps: Seq<Vec<u64>>,
) -> bool {
    &&& spec_export(s, d) is Ok
    &&& spec_line_index(d.chunk_entries@, spec_export(s, d)->Ok_0, ngram, n, gs, term_keys(ts), lists_view(ps))
    &&& forall|i: int| 0 <= i < ts.len() ==> (#[trigger] ts[i]).key_hash@ == spec_key_hash(ts[i].key@)
}

impl RawTokenIndex {
    /// Builds a token index from a positioned container, one chunk at a time.
    pub fn build_from_file<R: ReadAt>(reader: &QztFileReader<R>, options: TokenIndexBuildOptions) -> (r: Result<Self>)
        ensures
            options.source == SearchIndexSource::NormalizedUtf8
                ==> r == Err::<Self, QztError>(QztError::UnsupportedIndexMode("normalized_utf8 token index")),
            r matches Ok(idx) ==> {
                &&& idx.wf()
                &&& options.source == SearchIndexSource::RawUtf8
                &&& idx.complete
                &&& idx.container_id == reader.spec_details().summary.container_id
                &&& idx.source_size_bytes == reader.spec_details().summary.original_size
                &&& spec_built_from(reader.spec_bytes(), reader.spec_details(), false, 0, idx.granules@, idx.terms@, idx.postings@)
            },
            options.source == SearchIndexSource::RawUtf8 && reader.spec_details().chunk_entries@.len() == 0 ==> r is Ok,
    {
        if options.source == SearchIndexSource::NormalizedUtf8 {
            return Err(QztError::UnsupportedIndexMode("normalized_utf8 token index"));
        }
        let details = reader.skeleton_details();
        let (granules, keys, lists) = build_line_index(reader, false, 0)?;
        let terms = terms_for_keys(&keys);
        let ghost gv = granules@;
        let ghost lv = lists@;
        let ghost tv = terms@;
        let idx = Self::from_parts(details.summary.container_id, details.summary.original_size, granules, terms, lists)?;
        proof {
            assert(term_keys(idx.terms@) =~= term_keys(tv)) by {
                assert forall|i: int| 0 <= i < idx.terms@.len() implies term_keys(idx.terms@)[i] == term_keys(tv)[i] by {
                    assert(spec_stat_term(tv[i], lv, i, false, idx.terms@[i]));
                }
            }
            assert forall|i: int| 0 <= i < idx.terms@.len() implies (#[trigger] idx.terms@[i]).key_hash@ == spec_key_hash(idx.terms@[i].key@) by {
                assert(spec_stat_term(tv[i], lv, i, false, idx.terms@[i]));
                assert(term_keys(tv)[i] == tv[i].key@);
            }
        }
        Ok(idx)
    }

    /// Builds a token index from an in-memory container.
    pub fn build_from_container(bytes: &[u8], options: TokenIndexBuildOptions) -> (r: Result<Self>)
        ensures
            r matches Ok(idx) ==> idx.wf() && exists|d: SkeletonDetails| spec_skeleton_holds(bytes@, spec_default_resource_limits(), d)
                && idx.container_id == d.summary.container_id
                && spec_built_from(bytes@, d, false, 0, idx.granules@, idx.terms@, idx.postings@),
            options.source == SearchIndexSource::RawUtf8 && spec_chunkless_container(bytes@) ==> r is Ok,
    {
        let len = usize_to_u64(bytes.len())?;
        proof {
            assert(spec_file_bytes(bytes@, len) =~= bytes@);
        }
        let reader = match QztFileReader::open_read_at(bytes, len) {
            Ok(rd) => rd,
            Err(e) => {
                return Err(e);
            },
        };
        let ghost d = reader.spec_details();
        let r = Self::build_from_file(&reader, options);
        proof {
            if r is Ok {
                assert(spec_skeleton_holds(bytes@, spec_default_resource_limits(), d));
            }
        }
        r
    }
}

/// `s` is a container that opens under the default limits, has no chunks
/// and no dense line index: opening and indexing it decode nothing.
pub open spec fn spec_chunkless_container(s: Seq<u8>) -> bool {
    &&& spec_skeleton_error(s, spec_default_resource_limits()) is None
    &&& crate::skeleton::spec_no_dense_block(s)
    &&& forall|d: SkeletonDetails| #[trigger] spec_skeleton_holds(s, spec_default_resource_limits(), d) ==> d.chunk_entries@.len() == 0
}

impl RawNgramIndex {
    /// Builds an n-gram index from a positioned container, one chunk at a time.
    pub fn build_from_file<R: ReadAt>(reader: &QztFileReader<R>, options: NgramIndexBuildOptions) -> (r: Result<Self>)
        ensures
            options.source == SearchIndexSource::NormalizedUtf8
                ==> r == Err::<Self, QztError>(QztError::UnsupportedIndexMode("normalized_utf8 ngram index")),
            options.source == SearchIndexSource::RawUtf8 && options.n == 0 ==> r == Err::<Self, QztError>(QztError::ResourceLimitExceeded),
            r matches Ok(idx) ==> {
                &&& idx.wf()
                &&& options.source == SearchIndexSource::RawUtf8
                &&& idx.declaration.n == options.n
                &&& idx.complete == options.complete
                &&& idx.planner_config.high_df_per_million == options.high_df_per_million
                &&& idx.container_id == reader.spec_details().summary.container_id
                &&& idx.source_size_bytes == reader.spec_details().summary.original_size
                &&& spec_built_from(reader.spec_bytes(), reader.spec_details(), true, options.n, idx.granules@, idx.terms@, idx.postings@)
            },
            options.source == SearchIndexSource::RawUtf8 && options.n > 0 && reader.spec_details().chunk_entries@.len() == 0 ==> r is Ok,
    {
        if options.source == SearchIndexSource::NormalizedUtf8 {
            return Err(QztError::UnsupportedIndexMode("normalized_utf8 ngram index"));
        }
        if options.n == 0 {
            return Err(QztError::ResourceLimitExceeded);
        }
        let details = reader.skeleton_details();
        let (granules, keys, lists) = build_line_index(reader, true, options.n)?;
        let terms = terms_for_keys(&keys);
        let ghost lv = lists@;
        let ghost tv = terms@;
        let idx = Self::from_parts(details.summary.container_id, details.summary.original_size, granules, terms, lists, options)?;
        proof {
            assert(term_keys(idx.terms@) =~= term_keys(tv)) by {
                assert forall|i: int| 0 <= i < idx.terms@.len() implies term_keys(idx.terms@)[i] == term_keys(tv)[i] by {
                    assert(spec_stat_term(tv[i], lv, i, true, idx.terms@[i]));
                }
            }
            assert forall|i: int| 0 <= i < idx.terms@.len() implies (#[trigger] idx.terms@[i]).key_hash@ == spec_key_hash(idx.terms@[i].key@) by {
                assert(spec_stat_term(tv[i], lv, i, true, idx.terms@[i]));
                assert(term_keys(tv)[i] == tv[i].key@);
            }
        }
        Ok(idx)
    }

    /// Builds an n-gram index from an in-memory container.
    pub fn build_from_container(bytes: &[u8], options: NgramIndexBuildOptions) -> (r: Result<Self>)
        ensures
            r matches Ok(idx) ==> idx.wf() && idx.declaration.n == options.n && exists|d: SkeletonDetails| spec_skeleton_holds(bytes@, spec_default_resource_limits(), d)
                && idx.container_id == d.summary.container_id
                && spec_built_from(bytes@, d, true, options.n, idx.granules@, idx.terms@, idx.postings@),
            options.source == SearchIndexSource::RawUtf8 && options.n > 0 && spec_chunkless_container(bytes@) ==> r is Ok,
    {
        let len = usize_to_u64(bytes.len())?;
        proof {
            assert(spec_file_bytes(bytes@, len) =~= bytes@);
        }
        let reader = match QztFileReader::open_read_at(bytes, len) {
            Ok(rd) => rd,
            Err(e) => {
                return Err(e);
            },
        };
        let ghost d = reader.spec_details();
        let r = Self::build_from_file(&reader, options);
        proof {
            if r is Ok {
                assert(spec_skeleton_holds(bytes@, spec_default_resource_limits(), d));
            }
        }
        r
    }
}

// ---------------------------------------------------------------------------
// Hits are matches in the original
// ---------------------------------------------------------------------------

/// Hit `h` covers bytes of `x` equal to `q`.
pub open spec fn spec_hit_matches(x: Seq<u8>, h: (u64, u64, u64, u64), q: Seq<u8>) -> bool {
    h.0 + h.1 <= x.len() && x.subrange(h.0 as int, h.0 + h.1) == q
}

/// Hit `h` covers bytes of `x` whose ASCII lowercase is one of `keys`.
pub open spec fn spec_hit_is_key(x: Seq<u8>, h: (u64, u64, u64, u64), keys: Seq<Seq<u8>>) -> bool {
    h.0 + h.1 <= x.len() && keys.contains(spec_lower_bytes(x.subrange(h.0 as int, h.0 + h.1)))
}

/// What a verified hit covers: the query for n-grams, a query key for tokens.
pub open spec fn spec_hit_verified(x: Seq<u8>, h: (u64, u64, u64, u64), ngram: bool, q: Seq<u8>, keys: Seq<Seq<u8>>) -> bool {
    if ngram { spec_hit_matches(x, h, q) } else { spec_hit_is_key(x, h, keys) }
}

/// Bytes a verified span covers.
pub open spec fn spec_span_verified(b: Seq<u8>, ngram: bool, q: Seq<u8>, keys: Seq<Seq<u8>>) -> bool {
    if ngram { b == q } else { keys.contains(spec_lower_bytes(b)) }
}

proof fn lemma_substring_upto_matches(s: Seq<u8>, q: Seq<u8>, k: int)
    requires
        0 <= k,
        k + q.len() <= s.len() + 1,
    ensures
        forall|j: int| 0 <= j < spec_substring_upto(s, q, k).len() ==> {
            let t = #[trigger] spec_substring_upto(s, q, k)[j];
            0 <= t.1 && t.2 == t.1 + q.len() && t.2 <= s.len() && s.subrange(t.1, t.2) == q
        },
    decreases k,
{
    if k > 0 {
        lemma_substring_upto_matches(s, q, k - 1);
        let f = spec_substring_upto(s, q, k);
        let fd = spec_substring_upto(s, q, k - 1);
        if s.subrange(k - 1, k - 1 + q.len()) == q {
            assert(f == fd.push((q, k - 1, k - 1 + q.len())));
            assert forall|j: int| 0 <= j < f.len() implies {
                let t = #[trigger] f[j];
                0 <= t.1 && t.2 == t.1 + q.len() && t.2 <= s.len() && s.subrange(t.1, t.2) == q
            } by {
                if j < fd.len() {
                    assert(f[j] == fd[j]);
                }
            }
        } else {
            assert(f == fd);
        }
    }
}

proof fn lemma_tokens_keys(s: Seq<u8>, pos: int, start: int)
    requires
        0 <= start <= pos <= s.len(),
    ensures
        forall|k: int| 0 <= k < spec_tokens_from(s, pos, start).len() ==> {
            let t = #[trigger] spec_tokens_from(s, pos, start)[k];
            0 <= t.1 <= t.2 <= s.len() && t.0 == spec_lower_bytes(s.subrange(t.1, t.2))
        },
    decreases s.len() - pos,
{
    let all = spec_tokens_from(s, pos, start);
    if pos >= s.len() {
        assert(all == spec_flush(s, start, pos));
    } else if spec_is_token_byte(s[pos]) {
        lemma_tokens_keys(s, pos + 1, start);
        assert(all == spec_tokens_from(s, pos + 1, start));
    } else {
        lemma_tokens_keys(s, pos + 1, pos + 1);
        let a = spec_flush(s, start, pos);
        let b = spec_tokens_from(s, pos + 1, pos + 1);
        assert(all == a + b);
        assert forall|k: int| 0 <= k < all.len() implies {
            let t = #[trigger] all[k];
            0 <= t.1 <= t.2 <= s.len() && t.0 == spec_lower_bytes(s.subrange(t.1, t.2))
        } by {
            if k >= a.len() {
                assert(all[k] == b[k - a.len()]);
            }
        }
    }
}

proof fn lemma_filter_keeps(ts: Seq<(Seq<u8>, int, int)>, keys: Seq<Seq<u8>>, s: Seq<u8>)
    requires
        forall|k: int| 0 <= k < ts.len() ==> {
            let t = #[trigger] ts[k];
            0 <= t.1 <= t.2 <= s.len() && t.0 == spec_lower_bytes(s.subrange(t.1, t.2))
        },
    ensures
        forall|k: int| 0 <= k < spec_filter_spans(ts, keys).len() ==> {
            let t = #[trigger] spec_filter_spans(ts, keys)[k];
            0 <= t.1 <= t.2 <= s.len() && keys.contains(spec_lower_bytes(s.subrange(t.1, t.2)))
        },
    decreases ts.len(),
{
    if ts.len() > 0 {
        let d = ts.drop_last();
        assert forall|k: int| 0 <= k < d.len() implies {
            let t = #[trigger] d[k];
            0 <= t.1 <= t.2 <= s.len() && t.0 == spec_lower_bytes(s.subrange(t.1, t.2))
        } by {
            assert(d[k] == ts[k]);
        }
        lemma_filter_keeps(d, keys, s);
        let f = spec_filter_spans(ts, keys);
        let fd = spec_filter_spans(d, keys);
        assert(ts.last() == ts[ts.len() - 1]);
        if keys.contains(ts.last().0) {
            assert(f == fd.push(ts.last()));
            assert forall|k: int| 0 <= k < f.len() implies {
                let t = #[trigger] f[k];
                0 <= t.1 <= t.2 <= s.len() && keys.contains(spec_lower_bytes(s.subrange(t.1, t.2)))
            } by {
                if k < fd.len() {
                    assert(f[k] == fd[k]);
                }
            }
        } else {
            assert(f == fd);
        }
    }
}

/// Every span verification finds covers bytes it verified.
proof fn lemma_spans_verified(ngram: bool, q: Seq<u8>, keys: Seq<Seq<u8>>, bytes: Seq<u8>)
    ensures
        forall|k: int| 0 <= k < spec_spans_for(ngram, q, keys, bytes).len() ==> {
            let t = #[trigger] spec_spans_for(ngram, q, keys, bytes)[k];
            0 <= t.1 <= t.2 <= bytes.len() && spec_span_verified(bytes.subrange(t.1, t.2), ngram, q, keys)
        },
{
    if ngram {
        if !(q.len() == 0 || q.len() > bytes.len()) {
            lemma_substring_upto_matches(bytes, q, bytes.len() - q.len() + 1);
        }
    } else {
        lemma_tokens_keys(bytes, 0, 0);
        lemma_filter_keeps(spec_tokens(bytes), keys, bytes);
    }
}

proof fn lemma_span_hits_verified(
    g: SearchGranule,
    spans: Seq<(Seq<u8>, int, int)>,
    j: int,
    hits: Seq<(u64, u64, u64, u64)>,
    max: u64,
    x: Seq<u8>,
    ngram: bool,
    q: Seq<u8>,
    keys: Seq<Seq<u8>>,
    bytes: Seq<u8>,
)
    requires
        0 <= j,
        g.logical_offset + g.byte_length <= x.len(),
        bytes == x.subrange(g.logical_offset as int, g.logical_offset + g.byte_length),
        forall|k: int| 0 <= k < spans.len() ==> {
            let t = #[trigger] spans[k];
            0 <= t.1 <= t.2 <= bytes.len() && spec_span_verified(bytes.subrange(t.1, t.2), ngram, q, keys)
        },
        forall|k: int| 0 <= k < hits.len() ==> spec_hit_verified(x, #[trigger] hits[k], ngram, q, keys),
    ensures
        spec_span_hits(g, spans, j, hits, max) matches Ok((hs, _)) ==> forall|k: int| 0 <= k < hs.len() ==> spec_hit_verified(x, #[trigger] hs[k], ngram, q, keys),
    decreases spans.len() - j,
{
    if j < spans.len() && g.logical_offset + spans[j].1 <= u64::MAX {
        let t = spans[j];
        let h = ((g.logical_offset + t.1) as u64, (t.2 - t.1) as u64, g.chunk_start, g.chunk_end);
        assert(x.subrange(h.0 as int, h.0 + h.1) =~= bytes.subrange(t.1, t.2));
        let hs = hits.push(h);
        assert forall|k: int| 0 <= k < hs.len() implies spec_hit_verified(x, #[trigger] hs[k], ngram, q, keys) by {
            if k < hits.len() {
                assert(hs[k] == hits[k]);
            }
        }
        if hs.len() < max {
            lemma_span_hits_verified(g, spans, j + 1, hs, max, x, ngram, q, keys, bytes);
        }
    }
}

proof fn lemma_verify_from_hits_verified(
    s: Seq<u8>,
    limits: ResourceLimits,
    d: SkeletonDetails,
    x: Seq<u8>,
    gs: Seq<SearchGranule>,
    i: int,
    hits: Seq<(u64, u64, u64, u64)>,
    decoded: u64,
    ngram: bool,
    q: Seq<u8>,
    keys: Seq<Seq<u8>>,
    options: SearchOptions,
    out: (Seq<(u64, u64, u64, u64)>, bool, u64),
)
    requires
        0 <= i,
        spec_skeleton_error(s, limits) is None,
        spec_skeleton_holds(s, limits, d),
        spec_export(s, d) == Ok::<Seq<u8>, QztError>(x),
        forall|k: int| 0 <= k < hits.len() ==> spec_hit_verified(x, #[trigger] hits[k], ngram, q, keys),
        spec_verify_from(s, d, gs, i, hits, decoded, ngram, q, keys, options) == Ok::<(Seq<(u64, u64, u64, u64)>, bool, u64), QztError>(out),
    ensures
        forall|k: int| 0 <= k < out.0.len() ==> spec_hit_verified(x, #[trigger] out.0[k], ngram, q, keys),
    decreases gs.len() - i,
{
    if i < gs.len() {
        let g = gs[i];
        if decoded + g.byte_length <= u64::MAX && decoded + g.byte_length <= options.max_decoded_bytes {
            let bytes = spec_read_range(s, d, g.logical_offset, g.byte_length)->Ok_0;
            crate::reader::lemma_read_range_is_export_slice(s, limits, d, g.logical_offset, g.byte_length, x);
            let spans = spec_spans_for(ngram, q, keys, bytes);
            lemma_spans_verified(ngram, q, keys, bytes);
            lemma_span_hits_verified(g, spans, 0, hits, options.max_search_results, x, ngram, q, keys, bytes);
            let (hs, capped) = spec_span_hits(g, spans, 0, hits, options.max_search_results)->Ok_0;
            if !capped {
                lemma_verify_from_hits_verified(s, limits, d, x, gs, i + 1, hs, (decoded + g.byte_length) as u64, ngram, q, keys, options, out);
            }
        }
    }
}

#[verifier::rlimit(100)]
#[verifier::spinoff_prover]
proof fn lemma_planned_hits_verified(
    s: Seq<u8>,
    limits: ResourceLimits,
    d: SkeletonDetails,
    x: Seq<u8>,
    ts: Seq<TermDictionaryEntry>,
    ps: Seq<Vec<u64>>,
    gs: Seq<SearchGranule>,
    exact: bool,
    keys: Seq<Seq<u8>>,
    ngram: bool,
    query: Seq<u8>,
    options: SearchOptions,
    rep: SearchReport,
)
    requires
        spec_skeleton_error(s, limits) is None,
        spec_skeleton_holds(s, limits, d),
        spec_export(s, d) == Ok::<Seq<u8>, QztError>(x),
        spec_planned_outcome(ts, ps, gs, s, d, exact, keys, ngram, query, options, Ok::<SearchReport, QztError>(rep)),
    ensures
        forall|k: int| 0 <= k < rep.hits@.len() ==> spec_hit_verified(x, #[trigger] hits_view(rep.hits@)[k], ngram, query, keys),
{
    if spec_all_found(ts, keys) {
        let c = spec_candidates(ts, ps, gs.len(), keys);
        if !(c.len() > options.max_candidate_granules || options.max_search_results == 0) {
            let out = (hits_view(rep.hits@), rep.capped, rep.metrics.decoded_bytes);
            assert(spec_verify_from(s, d, spec_granules_of(gs, c), 0, Seq::empty(), 0, ngram, query, keys, options)
                == Ok::<(Seq<(u64, u64, u64, u64)>, bool, u64), QztError>(out));
            lemma_verify_from_hits_verified(s, limits, d, x, spec_granules_of(gs, c), 0, Seq::empty(), 0, ngram, query, keys, options, out);
            assert(hits_view(rep.hits@).len() == rep.hits@.len());
            assert forall|k: int| 0 <= k < rep.hits@.len() implies spec_hit_verified(x, #[trigger] hits_view(rep.hits@)[k], ngram, query, keys) by {
                assert(spec_hit_verified(x, out.0[k], ngram, query, keys));
            }
        } else {
            assert(rep.hits@.len() == 0);
        }
    } else {
        assert(rep.hits@.len() == 0);
    }
}

/// Every hit an n-gram search reports covers original bytes equal to the
/// query: whatever the index holds, a hit is only reported once the query has
/// been found in the container's decoded bytes.
pub proof fn lemma_ngram_hits_are_matches(
    s: Seq<u8>,
    limits: ResourceLimits,
    d: SkeletonDetails,
    x: Seq<u8>,
    ts: Seq<TermDictionaryEntry>,
    ps: Seq<Vec<u64>>,
    gs: Seq<SearchGranule>,
    n: usize,
    complete: bool,
    exact: bool,
    query: Seq<u8>,
    options: SearchOptions,
    rep: SearchReport,
)
    requires
        spec_skeleton_error(s, limits) is None,
        spec_skeleton_holds(s, limits, d),
        spec_export(s, d) == Ok::<Seq<u8>, QztError>(x),
        spec_ngram_search_outcome(ts, ps, gs, n, complete, s, d, exact, query, options, Ok::<SearchReport, QztError>(rep)),
    ensures
        forall|k: int| 0 <= k < rep.hits@.len() ==> spec_hit_matches(x, #[trigger] hits_view(rep.hits@)[k], query),
{
    let keys = keys_view(rep.planner.required_keys@);
    if keys.len() > 0 {
        lemma_planned_hits_verified(s, limits, d, x, ts, ps, gs, exact, keys, true, query, options, rep);
        assert forall|k: int| 0 <= k < rep.hits@.len() implies spec_hit_matches(x, #[trigger] hits_view(rep.hits@)[k], query) by {
            assert(spec_hit_verified(x, hits_view(rep.hits@)[k], true, query, keys));
        }
    }
}

/// Every hit a token search reports covers original bytes whose ASCII
/// lowercase is one of the query's tokens: hits are only reported for tokens
/// found in the container's decoded bytes.
pub proof fn lemma_token_hits_are_query_tokens(
    s: Seq<u8>,
    limits: ResourceLimits,
    d: SkeletonDetails,
    x: Seq<u8>,
    ts: Seq<TermDictionaryEntry>,
    ps: Seq<Vec<u64>>,
    gs: Seq<SearchGranule>,
    exact: bool,
    query: Seq<u8>,
    options: SearchOptions,
    rep: SearchReport,
)
    requires
        spec_skeleton_error(s, limits) is None,
        spec_skeleton_holds(s, limits, d),
        spec_export(s, d) == Ok::<Seq<u8>, QztError>(x),
        spec_token_search_outcome(ts, ps, gs, s, d, exact, query, options, Ok::<SearchReport, QztError>(rep)),
    ensures
        forall|k: int| 0 <= k < rep.hits@.len() ==> spec_hit_is_key(x, #[trigger] hits_view(rep.hits@)[k], spec_token_keys(spec_tokens(query))),
{
    let keys = keys_view(rep.planner.required_keys@);
    if keys.len() > 0 {
        lemma_planned_hits_verified(s, limits, d, x, ts, ps, gs, exact, keys, false, Seq::empty(), options, rep);
        assert forall|k: int| 0 <= k < rep.hits@.len() implies spec_hit_is_key(x, #[trigger] hits_view(rep.hits@)[k], spec_token_keys(spec_tokens(query))) by {
            assert(spec_hit_verified(x, hits_view(rep.hits@)[k], false, Seq::empty(), keys));
            let h = hits_view(rep.hits@)[k];
            assert(keys.contains(spec_lower_bytes(x.subrange(h.0 as int, h.0 + h.1))));
        }
    }
}

// ---------------------------------------------------------------------------
// What tokens, n-gram hits and line granules are
// ---------------------------------------------------------------------------

/// A byte is a token byte exactly when it is an ASCII digit, an ASCII letter,
/// an underscore or a hyphen.
pub proof fn lemma_token_byte_class(b: u8)
    ensures
        spec_is_token_byte(b) <==> (('0' as u8) <= b <= ('9' as u8) || ('a' as u8) <= b <= ('z' as u8)
            || ('A' as u8) <= b <= ('Z' as u8) || b == ('_' as u8) || b == ('-' as u8)),
{
}

proof fn lemma_tokens_of_run(s: Seq<u8>, pos: int)
    requires
        0 <= pos <= s.len(),
        forall|i: int| 0 <= i < s.len() ==> spec_is_token_byte(#[trigger] s[i]),
    ensures
        spec_tokens_from(s, pos, 0) == spec_flush(s, 0, s.len() as int),
    decreases s.len() - pos,
{
    if pos < s.len() {
        lemma_tokens_of_run(s, pos + 1);
    }
}

/// A nonempty run of ASCII letters, digits, underscores and hyphens is a
/// single token spanning all of it, lowercased: the digits of `404` make the
/// token `404`.
pub proof fn lemma_token_run_is_one_token(s: Seq<u8>)
    requires
        s.len() > 0,
        forall|i: int| 0 <= i < s.len() ==> ('0' as u8) <= #[trigger] s[i] <= ('9' as u8) || ('a' as u8) <= s[i] <= ('z' as u8)
            || ('A' as u8) <= s[i] <= ('Z' as u8) || s[i] == ('_' as u8) || s[i] == ('-' as u8),
    ensures
        spec_tokens(s) == seq![(spec_lower_bytes(s), 0int, s.len() as int)],
{
    assert forall|i: int| 0 <= i < s.len() implies spec_is_token_byte(#[trigger] s[i]) by {
        lemma_token_byte_class(s[i]);
    }
    lemma_tokens_of_run(s, 0);
    assert(s.subrange(0, s.len() as int) =~= s);
}

proof fn lemma_substring_upto_facts(s: Seq<u8>, q: Seq<u8>, k: int)
    requires
        q.len() > 0,
        0 <= k <= s.len() - q.len() + 1,
    ensures
        ({
            let sp = spec_substring_upto(s, q, k);
            &&& forall|i: int| 0 <= i < sp.len() ==> (#[trigger] sp[i]).0 == q && 0 <= sp[i].1 < k
                && sp[i].2 == sp[i].1 + q.len() && s.subrange(sp[i].1, sp[i].2) == q
            &&& forall|i: int, j: int| 0 <= i < j < sp.len() ==> (#[trigger] sp[i]).1 < (#[trigger] sp[j]).1
            &&& forall|p: int| 0 <= p < k && #[trigger] s.subrange(p, p + q.len()) == q
                ==> exists|i: int| 0 <= i < sp.len() && (#[trigger] sp[i]).1 == p
        }),
    decreases k,
{
    if k > 0 {
        lemma_substring_upto_facts(s, q, k - 1);
        let pre = spec_substring_upto(s, q, k - 1);
        let sp = spec_substring_upto(s, q, k);
        if s.subrange(k - 1, k - 1 + q.len()) == q {
            assert(sp == pre.push((q, k - 1, k - 1 + q.len())));
            assert forall|p: int| 0 <= p < k && #[trigger] s.subrange(p, p + q.len()) == q
                implies exists|i: int| 0 <= i < sp.len() && (#[trigger] sp[i]).1 == p by {
                if p < k - 1 {
                    let i = choose|i: int| 0 <= i < pre.len() && (#[trigger] pre[i]).1 == p;
                    assert(sp[i] == pre[i]);
                } else {
                    assert(sp[pre.len() as int].1 == p);
                }
            }
            assert forall|i: int| 0 <= i < sp.len() implies (#[trigger] sp[i]).0 == q && 0 <= sp[i].1 < k
                && sp[i].2 == sp[i].1 + q.len() && s.subrange(sp[i].1, sp[i].2) == q by {
                if i < pre.len() {
                    assert(sp[i] == pre[i]);
                }
            }
            assert forall|i: int, j: int| 0 <= i < j < sp.len() implies (#[trigger] sp[i]).1 < (#[trigger] sp[j]).1 by {
                assert(sp[i] == pre[i]);
                if j < pre.len() {
                    assert(sp[j] == pre[j]);
                }
            }
        } else {
            assert(sp == pre);
        }
    }
}

/// N-gram verification of a line reports every occurrence of the query in
/// it, overlapping occurrences included, each exactly once and in order, and
/// nothing that is not an occurrence.
pub proof fn lemma_ngram_spans_are_all_occurrences(q: Seq<u8>, keys: Seq<Seq<u8>>, bytes: Seq<u8>)
    requires
        q.len() > 0,
    ensures
        ({
            let sp = spec_spans_for(true, q, keys, bytes);
            &&& forall|i: int| 0 <= i < sp.len() ==> (#[trigger] sp[i]).0 == q && 0 <= sp[i].1
                && sp[i].2 == sp[i].1 + q.len() && sp[i].2 <= bytes.len() && bytes.subrange(sp[i].1, sp[i].2) == q
            &&& forall|i: int, j: int| 0 <= i < j < sp.len() ==> (#[trigger] sp[i]).1 < (#[trigger] sp[j]).1
            &&& forall|p: int| 0 <= p && p + q.len() <= bytes.len() && #[trigger] bytes.subrange(p, p + q.len()) == q
                ==> exists|i: int| 0 <= i < sp.len() && (#[trigger] sp[i]).1 == p
        }),
{
    let sp = spec_spans_for(true, q, keys, bytes);
    if q.len() <= bytes.len() {
        let k = bytes.len() - q.len() + 1;
        lemma_substring_upto_facts(bytes, q, k);
        assert(sp == spec_substring_upto(bytes, q, k));
        assert forall|p: int| 0 <= p && p + q.len() <= bytes.len() && #[trigger] bytes.subrange(p, p + q.len()) == q
            implies exists|i: int| 0 <= i < sp.len() && (#[trigger] sp[i]).1 == p by {
            assert(0 <= p < k);
        }
    } else {
        assert(sp.len() == 0);
    }
}

/// What the line scan has built after `p` bytes: consecutive lines from 0
/// to the current line start, each ending with its only LF, and no LF
/// between the current line start and `p`.
proof fn lemma_line_state_facts(t: Seq<u8>, p: int)
    requires
        0 <= p <= t.len(),
    ensures
        ({
            let st = spec_line_state(t, p);
            let ls = st.0;
            &&& 0 <= st.1 <= p
            &&& ls.len() == 0 ==> st.1 == 0
            &&& ls.len() > 0 ==> ls[0].0 == 0 && ls.last().1 == st.1
            &&& forall|i: int| 0 <= i < ls.len() - 1 ==> (#[trigger] ls[i]).1 == ls[i + 1].0
            &&& forall|i: int| 0 <= i < ls.len() ==> (#[trigger] ls[i]).0 < ls[i].1 && t[ls[i].1 - 1] == 10
                && forall|x: int| ls[i].0 <= x < ls[i].1 - 1 ==> t[x] != 10
            &&& forall|x: int| st.1 <= x < p ==> t[x] != 10
        }),
    decreases p,
{
    if p > 0 {
        lemma_line_state_facts(t, p - 1);
        let prev = spec_line_state(t, p - 1);
        let st = spec_line_state(t, p);
        if t[p - 1] == 10 {
            let ls = st.0;
            assert(ls == prev.0.push((prev.1, p)));
            assert forall|i: int| 0 <= i < ls.len() - 1 implies (#[trigger] ls[i]).1 == ls[i + 1].0 by {
                assert(ls[i] == prev.0[i]);
                if i + 1 < prev.0.len() {
                    assert(ls[i + 1] == prev.0[i + 1]);
                }
            }
            assert forall|i: int| 0 <= i < ls.len() implies (#[trigger] ls[i]).0 < ls[i].1 && t[ls[i].1 - 1] == 10
                && forall|x: int| ls[i].0 <= x < ls[i].1 - 1 ==> t[x] != 10 by {
                if i < prev.0.len() {
                    assert(ls[i] == prev.0[i]);
                }
            }
        }
    }
}

/// The lines of a text cover it exactly: they are nonempty, consecutive,
/// start at 0 and end at the end of the text (a last line without an LF
/// included), every line but the last ends with an LF, and no line holds an
/// LF before its last byte.
pub proof fn lemma_lines_cover_text(t: Seq<u8>)
    ensures
        ({
            let ls = spec_lines(t);
            &&& t.len() == 0 ==> ls.len() == 0
            &&& t.len() > 0 ==> ls.len() > 0 && ls[0].0 == 0 && ls.last().1 == t.len()
            &&& forall|i: int| 0 <= i < ls.len() - 1 ==> (#[trigger] ls[i]).1 == ls[i + 1].0
            &&& forall|i: int| 0 <= i < ls.len() ==> (#[trigger] ls[i]).0 < ls[i].1
                && forall|x: int| ls[i].0 <= x < ls[i].1 - 1 ==> t[x] != 10
            &&& forall|i: int| 0 <= i < ls.len() - 1 ==> t[(#[trigger] ls[i]).1 - 1] == 10
        }),
{
    lemma_line_state_facts(t, t.len() as int);
    let st = spec_line_state(t, t.len() as int);
    let ls = spec_lines(t);
    if st.1 < t.len() {
        assert(ls == st.0.push((st.1, t.len() as int)));
        assert forall|i: int| 0 <= i < ls.len() - 1 implies (#[trigger] ls[i]).1 == ls[i + 1].0 by {
            assert(ls[i] == st.0[i]);
            if i + 1 < st.0.len() {
                assert(ls[i + 1] == st.0[i + 1]);
            }
        }
        assert forall|i: int| 0 <= i < ls.len() implies (#[trigger] ls[i]).0 < ls[i].1
            && forall|x: int| ls[i].0 <= x < ls[i].1 - 1 ==> t[x] != 10 by {
            if i < st.0.len() {
                assert(ls[i] == st.0[i]);
            }
        }
        assert forall|i: int| 0 <= i < ls.len() - 1 implies t[(#[trigger] ls[i]).1 - 1] == 10 by {
            assert(ls[i] == st.0[i]);
        }
    } else {
        if t.len() > 0 && st.0.len() == 0 {
            assert(st.1 == 0);
        }
    }
}

} // verus!
