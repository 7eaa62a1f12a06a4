//! Unsigned LEB128 varints: seven payload bits per byte, least significant
//! group first, the high bit marking continuation; only minimal encodings of
//! 64-bit values are accepted.

use vstd::prelude::*;
use crate::error::{QztError, Result};

verus! {

/// `128` raised to `i`.
pub open spec fn pow128(i: nat) -> nat
    decreases i,
{
    if i == 0 {
        1
    } else {
        128 * pow128((i - 1) as nat)
    }
}

/// The minimal encoding of `value`.
pub open spec fn spec_varuint(value: nat) -> Seq<u8>
    decreases value,
{
    if value < 128 {
        seq![value as u8]
    } else {
        seq![(value % 128 + 128) as u8] + spec_varuint(value / 128)
    }
}

/// Reads the byte of index `i` of a varint at `pos`, with `acc` the value of
/// the bytes before it; `invalid` is the error for a non-minimal or oversized
/// encoding.
pub open spec fn spec_read_varuint_from(
    s: Seq<u8>,
    pos: int,
    i: nat,
    acc: nat,
    invalid: QztError,
) -> Result<(u64, int)>
    decreases 10 - i,
{
    if pos < 0 || pos + i >= s.len() {
        Err(QztError::UnexpectedEof)
    } else {
        let byte = s[pos + i];
        let payload = (byte % 128) as nat;
        if i >= 9 && payload > 1 {
            Err(invalid)
        } else {
            let acc2 = acc + payload * pow128(i);
            if byte < 128 {
                if i > 0 && byte == 0 {
                    Err(invalid)
                } else {
                    Ok((acc2 as u64, pos + i + 1))
                }
            } else if i >= 9 {
                Err(invalid)
            } else {
                spec_read_varuint_from(s, pos, i + 1, acc2, invalid)
            }
        }
    }
}

/// Reads one varint at `pos`: its value and the position after it.
pub open spec fn spec_read_varuint(s: Seq<u8>, pos: int, invalid: QztError) -> Result<(u64, int)> {
    spec_read_varuint_from(s, pos, 0, 0, invalid)
}

/// Appends the minimal encoding of `value`.
pub fn write_varuint(value: u64, out: &mut Vec<u8>)
    ensures
        final(out)@ == old(out)@ + spec_varuint(value as nat),
{
    let mut v = value;
    while v >= 128
        invariant
            old(out)@ + spec_varuint(value as nat) == out@ + spec_varuint(v as nat),
        decreases v,
    {
        let ghost before = out@;
        out.push((v % 128 + 128) as u8);
        assert(spec_varuint(v as nat) == seq![(v % 128 + 128) as u8] + spec_varuint((v / 128) as nat));
        assert(out@ + spec_varuint((v / 128) as nat) =~= before + spec_varuint(v as nat));
        v = v / 128;
    }
    out.push(v as u8);
    assert(out@ =~= old(out)@ + spec_varuint(value as nat));
}

/// Number of bytes in the minimal encoding of `value`.
pub fn varuint_len(value: u64) -> (r: usize)
    ensures
        r == spec_varuint(value as nat).len(),
        1 <= r <= 10,
{
    let mut v = value;
    let mut len: usize = 1;
    proof {
        lemma_varuint_len_bound(value as nat);
    }
    while v >= 128
        invariant
            len + spec_varuint(v as nat).len() == spec_varuint(value as nat).len() + 1,
            spec_varuint(value as nat).len() <= 10,
            1 <= len,
        decreases v,
    {
        v = v / 128;
        len = len + 1;
    }
    len
}

proof fn lemma_varuint_len_bound(value: nat)
    requires
        value < 0x1_0000_0000_0000_0000,
    ensures
        spec_varuint(value).len() <= 10,
        spec_varuint(value).len() >= 1,
{
    reveal_with_fuel(pow128, 11);
    assert(pow128(10) == 1180591620717411303424);
    lemma_varuint_len_pow(value, 10);
}

proof fn lemma_varuint_len_pow(value: nat, k: nat)
    requires
        value < pow128(k),
        k >= 1,
    ensures
        1 <= spec_varuint(value).len() <= k,
    decreases k,
{
    if value >= 128 {
        assert(value / 128 < pow128((k - 1) as nat)) by (nonlinear_arith)
            requires
                value < 128 * pow128((k - 1) as nat),
        ;
        if k == 1 {
            assert(pow128(1) == 128) by {
                reveal_with_fuel(pow128, 2);
            }
        } else {
            lemma_varuint_len_pow(value / 128, (k - 1) as nat);
        }
    }
}

/// Reads one varint at `pos`; gives its value and the position after it.
pub fn read_varuint(bytes: &[u8], pos: usize, invalid: QztError) -> (r: Result<(u64, usize)>)
    ensures
        match (r, spec_read_varuint(bytes@, pos as int, invalid)) {
            (Ok((v, p)), Ok((sv, sp))) => v == sv && p as int == sp,
            (Err(e), Err(se)) => e == se,
            _ => false,
        },
        r matches Ok((_, p)) ==> pos < p <= bytes@.len(),
{
    let mut value: u64 = 0;
    let mut mult: u64 = 1;
    let mut i: usize = 0;
    loop
        invariant
            i <= 9,
            mult as nat == pow128(i as nat),
            value < mult,
            spec_read_varuint(bytes@, pos as int, invalid) == spec_read_varuint_from(
                bytes@,
                pos as int,
                i as nat,
                value as nat,
                invalid,
            ),
        decreases 10 - i,
    {
        proof {
            lemma_pow128_bound(i as nat);
        }
        if pos >= bytes.len() || bytes.len() - pos <= i {
            return Err(QztError::UnexpectedEof);
        }
        let byte = bytes[pos + i];
        let payload = (byte % 128) as u64;
        if i >= 9 && payload > 1 {
            return Err(invalid);
        }
        assert(payload * mult + value < 0x1_0000_0000_0000_0000) by (nonlinear_arith)
            requires
                i <= 9,
                mult <= 0x8000_0000_0000_0000,
                i == 9 ==> payload <= 1,
                i < 9 ==> mult <= 0x100_0000_0000_0000,
                payload < 128,
                value < mult,
        ;
        let next = value + payload * mult;
        if byte < 128 {
            if i > 0 && byte == 0 {
                return Err(invalid);
            }
            return Ok((next, pos + i + 1));
        }
        if i >= 9 {
            return Err(invalid);
        }
        assert(next < mult * 128) by (nonlinear_arith)
            requires
                next == value + payload * mult,
                value < mult,
                payload < 128,
        ;
        value = next;
        mult = mult * 128;
        i = i + 1;
    }
}

proof fn lemma_pow128_bound(i: nat)
    requires
        i <= 9,
    ensures
        pow128(i) <= 0x8000_0000_0000_0000,
        i < 9 ==> pow128(i) <= 0x100_0000_0000_0000,
{
    reveal_with_fuel(pow128, 10);
    if i < 9 {
        lemma_pow128_mono(i, 8);
    } else {
        lemma_pow128_mono(i, 9);
    }
}

proof fn lemma_pow128_mono(i: nat, j: nat)
    requires
        i <= j,
    ensures
        pow128(i) <= pow128(j),
    decreases j,
{
    if i < j {
        lemma_pow128_mono(i, (j - 1) as nat);
    }
}

proof fn lemma_read_from_encoding(
    s: Seq<u8>,
    pos: int,
    i: nat,
    acc: nat,
    w: nat,
    invalid: QztError,
)
    requires
        0 <= pos,
        i <= 9,
        acc < pow128(i),
        acc + w * pow128(i) < 0x1_0000_0000_0000_0000,
        i > 0 ==> w > 0,
        pos + i + spec_varuint(w).len() <= s.len(),
        s.subrange(pos + i, pos + i + spec_varuint(w).len()) == spec_varuint(w),
    ensures
        spec_read_varuint_from(s, pos, i, acc, invalid) == Ok::<(u64, int), QztError>(
            ((acc + w * pow128(i)) as u64, pos + i + spec_varuint(w).len()),
        ),
    decreases w,
{
    lemma_pow128_bound(i);
    let byte = s[pos + i];
    assert(byte == spec_varuint(w)[0]);
    if w < 128 {
        assert(byte == w);
        if i == 9 {
            reveal_with_fuel(pow128, 10);
            assert(w <= 1) by (nonlinear_arith)
                requires
                    acc + w * 0x8000_0000_0000_0000 < 0x1_0000_0000_0000_0000,
            ;
        }
    } else {
        assert(byte == w % 128 + 128);
        let w2 = w / 128;
        assert(w == w2 * 128 + w % 128) by (nonlinear_arith)
            requires
                w2 == w / 128,
        ;
        let acc2 = acc + (w % 128) * pow128(i);
        assert(acc + w * pow128(i) == acc2 + w2 * pow128(i + 1)) by (nonlinear_arith)
            requires
                w == w2 * 128 + w % 128,
                acc2 == acc + (w % 128) * pow128(i),
                pow128(i + 1) == 128 * pow128(i),
        ;
        if i == 9 {
            reveal_with_fuel(pow128, 10);
            assert(false) by (nonlinear_arith)
                requires
                    acc + w * 0x8000_0000_0000_0000 < 0x1_0000_0000_0000_0000,
                    w >= 128,
            ;
        }
        assert(acc2 < pow128(i + 1)) by (nonlinear_arith)
            requires
                acc2 == acc + (w % 128) * pow128(i),
                acc < pow128(i),
                w % 128 < 128,
                pow128(i + 1) == 128 * pow128(i),
        ;
        assert(w2 > 0) by (nonlinear_arith)
            requires
                w >= 128,
                w2 == w / 128,
        ;
        assert(s.subrange(pos + i + 1, pos + i + 1 + spec_varuint(w2).len()) =~= spec_varuint(
            w2,
        )) by {
            assert(spec_varuint(w) =~= seq![(w % 128 + 128) as u8] + spec_varuint(w2));
            assert forall|k: int| 0 <= k < spec_varuint(w2).len() implies s[pos + i + 1 + k]
                == spec_varuint(w2)[k] by {
                assert(s.subrange(pos + i, pos + i + spec_varuint(w).len())[k + 1] == spec_varuint(
                    w,
                )[k + 1]);
            }
        }
        lemma_read_from_encoding(s, pos, i + 1, acc2, w2, invalid);
    }
}

/// The minimal encoding of a 64-bit value, found at `pos`, reads back as the
/// value and ends where the encoding ends.
pub proof fn lemma_varuint_at(s: Seq<u8>, pos: int, value: u64, invalid: QztError)
    requires
        0 <= pos,
        pos + spec_varuint(value as nat).len() <= s.len(),
        s.subrange(pos, pos + spec_varuint(value as nat).len()) == spec_varuint(value as nat),
    ensures
        spec_read_varuint(s, pos, invalid) == Ok::<(u64, int), QztError>((value, pos + spec_varuint(value as nat).len())),
{
    assert(pow128(0) == 1);
    lemma_read_from_encoding(s, pos, 0, 0, value as nat, invalid);
}

/// A minimal encoding takes at least one byte.
pub proof fn lemma_varuint_nonempty(value: nat)
    ensures
        spec_varuint(value).len() >= 1,
{
}

/// Reading the minimal encoding of a 64-bit value gives the value back and
/// consumes exactly the encoding.
pub proof fn lemma_varuint_roundtrip(value: u64, rest: Seq<u8>, invalid: QztError)
    ensures
        spec_read_varuint(spec_varuint(value as nat) + rest, 0, invalid) == Ok::<
            (u64, int),
            QztError,
        >((value, spec_varuint(value as nat).len() as int)),
{
    let s = spec_varuint(value as nat) + rest;
    assert(s.subrange(0, spec_varuint(value as nat).len() as int) =~= spec_varuint(value as nat));
    assert(pow128(0) == 1);
    lemma_read_from_encoding(s, 0, 0, 0, value as nat, invalid);
}

proof fn lemma_read_from_canonical(s: Seq<u8>, pos: int, i: nat, acc: nat, invalid: QztError)
    requires
        0 <= pos,
        i <= 9,
        acc < pow128(i),
        spec_read_varuint_from(s, pos, i, acc, invalid) is Ok,
    ensures
        ({
            let (v, p) = spec_read_varuint_from(s, pos, i, acc, invalid)->Ok_0;
            &&& pos + i < p <= s.len()
            &&& v as nat >= acc
            &&& (v as nat - acc) % (pow128(i) as int) == 0
            &&& (i > 0 ==> v as nat - acc > 0)
            &&& s.subrange(pos + i, p) == spec_varuint(((v as nat - acc) / (pow128(i) as int)) as nat)
        }),
    decreases 10 - i,
{
    lemma_pow128_bound(i);
    let byte = s[pos + i];
    let payload = (byte % 128) as nat;
    let acc2 = acc + payload * pow128(i);
    assert(acc2 < 0x1_0000_0000_0000_0000) by (nonlinear_arith)
        requires
            acc2 == acc + payload * pow128(i),
            acc < pow128(i),
            pow128(i) <= 0x8000_0000_0000_0000,
            i < 9 ==> pow128(i) <= 0x100_0000_0000_0000,
            i >= 9 ==> payload <= 1,
            payload < 128,
    ;
    assert((payload * pow128(i)) % pow128(i) == 0 && (payload * pow128(i)) / pow128(i) == payload)
        by (nonlinear_arith)
        requires
            pow128(i) > 0,
    ;
    if byte < 128 {
        assert(spec_varuint(payload) =~= seq![byte]);
        assert(s.subrange(pos + i, pos + i + 1) =~= seq![byte]);
    } else {
        assert(acc2 < pow128(i + 1)) by (nonlinear_arith)
            requires
                acc2 == acc + payload * pow128(i),
                acc < pow128(i),
                payload < 128,
                pow128(i + 1) == 128 * pow128(i),
        ;
        lemma_read_from_canonical(s, pos, i + 1, acc2, invalid);
        let (v, p) = spec_read_varuint_from(s, pos, i + 1, acc2, invalid)->Ok_0;
        let q = ((v as nat - acc2) / (pow128(i + 1) as int)) as nat;
        assert(pow128(i + 1) == 128 * pow128(i));
        assert(v as nat - acc2 == q * pow128(i + 1)) by (nonlinear_arith)
            requires
                (v as nat - acc2) % (pow128(i + 1) as int) == 0,
                q == (v as nat - acc2) / (pow128(i + 1) as int),
                pow128(i + 1) > 0,
                v as nat >= acc2,
        ;
        let w = payload + 128 * q;
        assert(v as nat - acc == w * pow128(i)) by (nonlinear_arith)
            requires
                v as nat - acc2 == q * pow128(i + 1),
                pow128(i + 1) == 128 * pow128(i),
                acc2 == acc + payload * pow128(i),
                w == payload + 128 * q,
        ;
        assert((w * pow128(i)) % pow128(i) == 0 && (w * pow128(i)) / pow128(i) == w)
            by (nonlinear_arith)
            requires
                pow128(i) > 0,
        ;
        assert(q > 0);
        assert(w >= 128 && w % 128 == payload && w / 128 == q) by (nonlinear_arith)
            requires
                w == payload + 128 * q,
                payload < 128,
                q > 0,
        ;
        assert(s.subrange(pos + i, p) =~= seq![byte] + s.subrange(pos + i + 1, p));
        assert(spec_varuint(w) =~= seq![(w % 128 + 128) as u8] + spec_varuint(q));
    }
}

/// Every varint that reading accepts is the minimal encoding of the value read.
pub proof fn lemma_varuint_read_is_minimal(s: Seq<u8>, pos: int, invalid: QztError)
    requires
        0 <= pos,
        spec_read_varuint(s, pos, invalid) is Ok,
    ensures
        s.subrange(pos, spec_read_varuint(s, pos, invalid)->Ok_0.1) == spec_varuint(
            spec_read_varuint(s, pos, invalid)->Ok_0.0 as nat,
        ),
{
    assert(pow128(0) == 1);
    lemma_read_from_canonical(s, pos, 0, 0, invalid);
}

} // verus!
