//! JSON text handling for the body encoder.
//!
//! The library builds the body's top-level JSON object itself — keys in
//! insertion order, string fields escaped by the verified
//! [`json_quote`] — and delegates everything below the top level to the
//! JSON codec: each inline JSON literal is validated and re-rendered
//! through trusted wrappers around `serde_json`.

use vstd::prelude::*;

verus! {

/// The lowercase hexadecimal digit for `n`.
pub open spec fn hex_digit(n: int) -> char {
    if n == 0 {
        '0'
    } else if n == 1 {
        '1'
    } else if n == 2 {
        '2'
    } else if n == 3 {
        '3'
    } else if n == 4 {
        '4'
    } else if n == 5 {
        '5'
    } else if n == 6 {
        '6'
    } else if n == 7 {
        '7'
    } else if n == 8 {
        '8'
    } else if n == 9 {
        '9'
    } else if n == 10 {
        'a'
    } else if n == 11 {
        'b'
    } else if n == 12 {
        'c'
    } else if n == 13 {
        'd'
    } else if n == 14 {
        'e'
    } else {
        'f'
    }
}

/// How one character appears inside a JSON string literal: quote and
/// backslash get a backslash, the named control characters their short
/// escapes, other control characters a `\u00XX` escape, and everything
/// else stands as itself.
pub open spec fn escape_char(c: char) -> Seq<char> {
    if c == '"' {
        seq!['\\', '"']
    } else if c == '\\' {
        seq!['\\', '\\']
    } else if c == '\u{8}' {
        seq!['\\', 'b']
    } else if c == '\u{9}' {
        seq!['\\', 't']
    } else if c == '\u{a}' {
        seq!['\\', 'n']
    } else if c == '\u{c}' {
        seq!['\\', 'f']
    } else if c == '\u{d}' {
        seq!['\\', 'r']
    } else if (c as u32) < 0x20 {
        seq!['\\', 'u', '0', '0', hex_digit(((c as u32) / 16) as int), hex_digit(
            ((c as u32) % 16) as int,
        )]
    } else {
        seq![c]
    }
}

/// The escaped form of a whole string, character by character.
pub open spec fn escape_string(s: Seq<char>) -> Seq<char>
    decreases s.len(),
{
    if s.len() == 0 {
        Seq::empty()
    } else {
        escape_char(s[0]) + escape_string(s.drop_first())
    }
}

/// A string as a JSON string literal: quoted and escaped.
pub open spec fn json_quote(s: Seq<char>) -> Seq<char> {
    seq!['"'] + escape_string(s) + seq!['"']
}

/// Escaping distributes over appending one character at the end.
proof fn lemma_escape_push(s: Seq<char>, c: char)
    ensures
        escape_string(s.push(c)) == escape_string(s) + escape_char(c),
    decreases s.len(),
{
    if s.len() == 0 {
        assert(s.push(c)[0] == c);
        assert(s.push(c).drop_first() =~= Seq::<char>::empty());
        assert(escape_string(s.push(c)) =~= escape_char(c) + escape_string(Seq::<char>::empty()));
        assert(escape_string(s.push(c)) =~= escape_char(c));
        assert(escape_string(s) + escape_char(c) =~= escape_char(c));
    } else {
        lemma_escape_push(s.drop_first(), c);
        assert(s.push(c).drop_first() =~= s.drop_first().push(c));
        assert(s.push(c)[0] == s[0]);
        assert(escape_string(s) + escape_char(c) =~= escape_char(s[0]) + (escape_string(
            s.drop_first(),
        ) + escape_char(c)));
    }
}

/// Appends the lowercase hex digit for `n` to `out`.
fn push_hex_digit(out: &mut Vec<char>, n: u32)
    requires
        n < 16,
    ensures
        final(out)@ == old(out)@.push(hex_digit(n as int)),
{
    let c = if n == 0 {
        '0'
    } else if n == 1 {
        '1'
    } else if n == 2 {
        '2'
    } else if n == 3 {
        '3'
    } else if n == 4 {
        '4'
    } else if n == 5 {
        '5'
    } else if n == 6 {
        '6'
    } else if n == 7 {
        '7'
    } else if n == 8 {
        '8'
    } else if n == 9 {
        '9'
    } else if n == 10 {
        'a'
    } else if n == 11 {
        'b'
    } else if n == 12 {
        'c'
    } else if n == 13 {
        'd'
    } else if n == 14 {
        'e'
    } else {
        'f'
    };
    out.push(c);
}

/// Appends the escaped form of one character to `out`.
fn push_escaped_char(out: &mut Vec<char>, c: char)
    ensures
        final(out)@ == old(out)@ + escape_char(c),
{
    let ghost pre = out@;
    if c == '"' {
        out.push('\\');
        out.push('"');
    } else if c == '\\' {
        out.push('\\');
        out.push('\\');
    } else if c == '\u{8}' {
        out.push('\\');
        out.push('b');
    } else if c == '\u{9}' {
        out.push('\\');
        out.push('t');
    } else if c == '\u{a}' {
        out.push('\\');
        out.push('n');
    } else if c == '\u{c}' {
        out.push('\\');
        out.push('f');
    } else if c == '\u{d}' {
        out.push('\\');
        out.push('r');
    } else if (c as u32) < 0x20 {
        out.push('\\');
        out.push('u');
        out.push('0');
        out.push('0');
        let code = c as u32;
        push_hex_digit(out, code / 16);
        push_hex_digit(out, code % 16);
    } else {
        out.push(c);
    }
    proof {
        assert(out@ =~= pre + escape_char(c));
    }
}

/// Appends `s` as a JSON string literal — quoted, escaped — to `out`.
pub(crate) fn quote_into(out: &mut Vec<char>, s: &str)
    ensures
        final(out)@ == old(out)@ + json_quote(s@),
{
    let chars = crate::request_item::str_to_chars(s);
    let n = chars.len();
    out.push('"');
    let mut i: usize = 0;
    proof {
        assert(escape_string(s@.subrange(0, 0)) =~= Seq::<char>::empty());
        assert(out@ =~= old(out)@ + seq!['"'] + escape_string(s@.subrange(0, 0)));
    }
    while i < n
        invariant
            n == chars@.len(),
            chars@ == s@,
            i <= n,
            out@ == old(out)@ + seq!['"'] + escape_string(s@.subrange(0, i as int)),
        decreases n - i,
    {
        push_escaped_char(out, chars[i]);
        i += 1;
        proof {
            let pre = s@.subrange(0, i - 1);
            lemma_escape_push(pre, s@[i - 1]);
            assert(pre.push(s@[i - 1]) =~= s@.subrange(0, i as int));
            assert(out@ =~= old(out)@ + seq!['"'] + escape_string(s@.subrange(0, i as int)));
        }
    }
    out.push('"');
    proof {
        assert(s@.subrange(0, n as int) =~= s@);
        assert(out@ =~= old(out)@ + json_quote(s@));
    }
}

/// Whether `serde_json` accepts a text as one JSON value; a fixed
/// function of the characters alone.
pub uninterp spec fn json_ok(s: Seq<char>) -> bool;

/// The pretty-printed rendering `serde_json` gives the value parsed from
/// a valid JSON text; a fixed function of the characters alone.
pub uninterp spec fn json_pretty_of(s: Seq<char>) -> Seq<char>;

/// The compact rendering `serde_json` gives the value parsed from a
/// valid JSON text; a fixed function of the characters alone.
pub uninterp spec fn json_compact_of(s: Seq<char>) -> Seq<char>;

/// Relies on `serde_json::from_str::<Value>` (success and parsed value
/// depend on the text alone) and `serde_json::to_string_pretty`, which
/// has no failure path on a `Value`: its keys are strings and it writes
/// to a growing buffer.
#[verifier::external_body]
pub(crate) fn json_reformat_pretty(s: &str) -> (r: Option<String>)
    ensures
        r is Some <==> json_ok(s@),
        r is Some ==> r.unwrap()@ == json_pretty_of(s@),
{
    match serde_json::from_str::<serde_json::Value>(s) {
        Ok(v) => serde_json::to_string_pretty(&v).ok(),
        Err(_) => None,
    }
}

/// Relies on `serde_json::from_str::<Value>` (success and parsed value
/// depend on the text alone) and `serde_json::to_string`, which has no
/// failure path on a `Value`: its keys are strings and it writes to a
/// growing buffer.
#[verifier::external_body]
pub(crate) fn json_reformat_compact(s: &str) -> (r: Option<String>)
    ensures
        r is Some <==> json_ok(s@),
        r is Some ==> r.unwrap()@ == json_compact_of(s@),
{
    match serde_json::from_str::<serde_json::Value>(s) {
        Ok(v) => serde_json::to_string(&v).ok(),
        Err(_) => None,
    }
}

} // verus!
