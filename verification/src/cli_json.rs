//! Minimal JSON output helpers (RFC 8259 string escaping, lowercase hex).

use vstd::prelude::*;
use vstd::string::*;

verus! {

broadcast use axiom_spec_iter;

/// Lowercase hexadecimal digit for `n < 16`.
pub open spec fn spec_hex_digit(n: u8) -> char {
    if n < 10 {
        (48 + n) as char
    } else {
        (87 + n) as char
    }
}

/// JSON escape of one character.
pub open spec fn spec_escape_char(c: char) -> Seq<char> {
    if c == '"' {
        seq!['\\', '"']
    } else if c == '\\' {
        seq!['\\', '\\']
    } else if c == '\n' {
        seq!['\\', 'n']
    } else if c == '\r' {
        seq!['\\', 'r']
    } else if c == '\t' {
        seq!['\\', 't']
    } else if (c as u32) < 0x20 {
        seq![
            '\\',
            'u',
            '0',
            '0',
            spec_hex_digit(((c as u32) / 16) as u8),
            spec_hex_digit(((c as u32) % 16) as u8),
        ]
    } else {
        seq![c]
    }
}

/// JSON string-literal content for `cs`, without the surrounding quotes.
pub open spec fn spec_escape(cs: Seq<char>) -> Seq<char>
    decreases cs.len(),
{
    if cs.len() == 0 {
        Seq::empty()
    } else {
        spec_escape(cs.drop_last()) + spec_escape_char(cs.last())
    }
}

/// Two lowercase hex digits for every byte.
pub open spec fn spec_hex(bytes: Seq<u8>) -> Seq<char>
    decreases bytes.len(),
{
    if bytes.len() == 0 {
        Seq::empty()
    } else {
        spec_hex(bytes.drop_last()) + seq![
            spec_hex_digit(bytes.last() / 16),
            spec_hex_digit(bytes.last() % 16),
        ]
    }
}

/// `String: FromIterator<char>`: the string holds exactly the given characters.
#[verifier::external_body]
fn string_from_chars(chars: Vec<char>) -> (r: String)
    ensures
        r@ == chars@,
{
    chars.into_iter().collect()
}

fn hex_digit(n: u8) -> (c: char)
    requires
        n < 16,
    ensures
        c == spec_hex_digit(n),
{
    if n < 10 {
        (48 + n) as char
    } else {
        (87 + n) as char
    }
}

fn push_chars(out: &mut Vec<char>, cs: &[char])
    ensures
        final(out)@ == old(out)@ + cs@,
{
    let mut i: usize = 0;
    while i < cs.len()
        invariant
            i <= cs@.len(),
            out@ == old(out)@ + cs@.subrange(0, i as int),
        decreases cs@.len() - i,
    {
        out.push(cs[i]);
        i = i + 1;
        assert(out@ =~= old(out)@ + cs@.subrange(0, i as int));
    }
    assert(cs@.subrange(0, i as int) =~= cs@);
}

fn escape_char_into(out: &mut Vec<char>, c: char)
    ensures
        final(out)@ == old(out)@ + spec_escape_char(c),
{
    if c == '"' {
        push_chars(out, &['\\', '"']);
    } else if c == '\\' {
        push_chars(out, &['\\', '\\']);
    } else if c == '\n' {
        push_chars(out, &['\\', 'n']);
    } else if c == '\r' {
        push_chars(out, &['\\', 'r']);
    } else if c == '\t' {
        push_chars(out, &['\\', 't']);
    } else if (c as u32) < 0x20 {
        let code = c as u32;
        let hi = hex_digit((code / 16) as u8);
        let lo = hex_digit((code % 16) as u8);
        push_chars(out, &['\\', 'u', '0', '0', hi, lo]);
    } else {
        out.push(c);
    }
    assert(final(out)@ =~= old(out)@ + spec_escape_char(c));
}

/// Escapes a string for use inside a JSON string literal.
///
/// Produces the bare content (without the surrounding `"` delimiters).
pub fn escape(input: &str) -> (r: String)
    ensures
        r@ == spec_escape(input@),
{
    let mut out: Vec<char> = Vec::new();
    let ghost all = input@;
    for ch in it: input.chars()
        invariant
            it.seq() == all,
            out@ == spec_escape(all.take(it.index())),
    {
        proof {
            assert(all.take(it.index() + 1).drop_last() =~= all.take(it.index()));
        }
        escape_char_into(&mut out, ch);
    }
    assert(all.take(all.len() as int) =~= all);
    string_from_chars(out)
}

/// Formats a byte slice as lowercase hexadecimal (no separators).
pub fn hex(bytes: &[u8]) -> (r: String)
    ensures
        r@ == spec_hex(bytes@),
{
    let mut out: Vec<char> = Vec::new();
    let mut i: usize = 0;
    while i < bytes.len()
        invariant
            i <= bytes@.len(),
            out@ == spec_hex(bytes@.subrange(0, i as int)),
        decreases bytes@.len() - i,
    {
        assert(bytes@.subrange(0, i + 1).drop_last() =~= bytes@.subrange(0, i as int));
        let b = bytes[i];
        let hi = hex_digit(b / 16);
        let lo = hex_digit(b % 16);
        out.push(hi);
        out.push(lo);
        i = i + 1;
        assert(out@ =~= spec_hex(bytes@.subrange(0, i as int)));
    }
    assert(bytes@.subrange(0, i as int) =~= bytes@);
    string_from_chars(out)
}

} // verus!
