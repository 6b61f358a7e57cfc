//! Rendering a [`JsonValue`] back to JSON text.
//!
//! The aggregator needs this once per run at most, as the last fallback when a
//! final snapshot carries no recognizable text; the session store needs it to
//! write a session file. The exact text is pinned down by [`json_text`].

use vstd::prelude::*;

use crate::json::{push_char, JsonValue};

verus! {

/// The lowercase hex digit for `d < 16`.
pub open spec fn hex_digit(d: u32) -> char {
    if d == 0 { '0' } else if d == 1 { '1' } else if d == 2 { '2' } else if d == 3 { '3' }
    else if d == 4 { '4' } else if d == 5 { '5' } else if d == 6 { '6' } else if d == 7 { '7' }
    else if d == 8 { '8' } else if d == 9 { '9' } else if d == 10 { 'a' } else if d == 11 { 'b' }
    else if d == 12 { 'c' } else if d == 13 { 'd' } else if d == 14 { 'e' } else { 'f' }
}

/// How one character appears inside a JSON string literal: quote and backslash
/// get a backslash escape, control characters their short or `\u00..` form.
pub open spec fn escaped_char(c: char) -> Seq<char> {
    if c == '"' {
        seq!['\\', '"']
    } else if c == '\\' {
        seq!['\\', '\\']
    } else if c == '\u{8}' {
        seq!['\\', 'b']
    } else if c == '\u{c}' {
        seq!['\\', 'f']
    } else if c == '\n' {
        seq!['\\', 'n']
    } else if c == '\r' {
        seq!['\\', 'r']
    } else if c == '\t' {
        seq!['\\', 't']
    } else if (c as u32) < 0x20 {
        seq!['\\', 'u', '0', '0', hex_digit((c as u32) / 16), hex_digit((c as u32) % 16)]
    } else {
        seq![c]
    }
}

/// A string's characters, escaped in order.
pub open spec fn escape_str(s: Seq<char>) -> Seq<char>
    decreases s.len(),
{
    if s.len() == 0 {
        Seq::empty()
    } else {
        escape_str(s.drop_last()) + escaped_char(s.last())
    }
}

/// A JSON string literal: the escaped characters between double quotes.
pub open spec fn quoted(s: Seq<char>) -> Seq<char> {
    seq!['"'] + escape_str(s) + seq!['"']
}

/// The JSON text of a value, in the compact form: no spaces, object members
/// and array elements in order, numbers as their stored source text.
pub open spec fn json_text(v: JsonValue) -> Seq<char>
    decreases v,
{
    match v {
        JsonValue::Null => seq!['n', 'u', 'l', 'l'],
        JsonValue::Bool(b) => if b {
            seq!['t', 'r', 'u', 'e']
        } else {
            seq!['f', 'a', 'l', 's', 'e']
        },
        JsonValue::Num(s) => s@,
        JsonValue::Str(s) => quoted(s@),
        JsonValue::Arr(items) => seq!['['] + json_items(items@) + seq![']'],
        JsonValue::Obj(entries) => seq!['{'] + json_members(entries@) + seq!['}'],
    }
}

/// Comma-separated element texts.
pub open spec fn json_items(items: Seq<JsonValue>) -> Seq<char>
    decreases items,
{
    if items.len() == 0 {
        Seq::empty()
    } else if items.len() == 1 {
        json_text(items[0])
    } else {
        json_items(items.drop_last()) + seq![','] + json_text(items.last())
    }
}

/// Comma-separated `"key":value` member texts.
pub open spec fn json_members(entries: Seq<(String, JsonValue)>) -> Seq<char>
    decreases entries,
{
    if entries.len() == 0 {
        Seq::empty()
    } else if entries.len() == 1 {
        quoted(entries[0].0@) + seq![':'] + json_text(entries[0].1)
    } else {
        json_members(entries.drop_last()) + seq![','] + quoted(entries.last().0@) + seq![':']
            + json_text(entries.last().1)
    }
}

/// Appends `escaped_char(c)` to `out`.
fn push_escaped(c: char, out: &mut String)
    ensures
        final(out)@ == old(out)@ + escaped_char(c),
{
    if c == '"' {
        push_char(out, '\\');
        push_char(out, '"');
    } else if c == '\\' {
        push_char(out, '\\');
        push_char(out, '\\');
    } else if c == '\u{8}' {
        push_char(out, '\\');
        push_char(out, 'b');
    } else if c == '\u{c}' {
        push_char(out, '\\');
        push_char(out, 'f');
    } else if c == '\n' {
        push_char(out, '\\');
        push_char(out, 'n');
    } else if c == '\r' {
        push_char(out, '\\');
        push_char(out, 'r');
    } else if (c as u32) < 0x20 {
        let code: u32 = c as u32;
        if c == '\t' {
            push_char(out, '\\');
            push_char(out, 't');
        } else {
            push_char(out, '\\');
            push_char(out, 'u');
            push_char(out, '0');
            push_char(out, '0');
            push_char(out, hex_char(code / 16));
            push_char(out, hex_char(code % 16));
        }
    } else {
        push_char(out, c);
    }
    proof {
        assert(final(out)@ =~= old(out)@ + escaped_char(c));
    }
}

/// The lowercase hex digit character for `d < 16`.
fn hex_char(d: u32) -> (r: char)
    requires
        d < 16,
    ensures
        r == hex_digit(d),
{
    if d < 10 {
        ((48u8 + d as u8) as char)
    } else {
        ((97u8 + (d as u8 - 10)) as char)
    }
}

proof fn lemma_escape_str_push(s: Seq<char>, c: char)
    ensures
        escape_str(s.push(c)) == escape_str(s) + escaped_char(c),
{
    assert(s.push(c).drop_last() =~= s);
    assert(s.push(c).last() == c);
}

/// Appends `escape_str(s@)` to `out`.
fn append_escaped(s: &str, out: &mut String)
    ensures
        final(out)@ == old(out)@ + escape_str(s@),
{
    let n = s.unicode_len();
    let mut i: usize = 0;
    assert(s@.take(0) =~= Seq::<char>::empty());
    assert(escape_str(s@.take(0)) =~= Seq::<char>::empty());
    assert(out@ =~= old(out)@ + escape_str(s@.take(0)));
    while i < n
        invariant
            i <= n,
            out@ == old(out)@ + escape_str(s@.take(i as int)),
        decreases n - i,
    {
        let c = s.get_char(i);
        push_escaped(c, out);
        proof {
            lemma_escape_str_push(s@.take(i as int), c);
            assert(s@.take(i as int).push(s@[i as int]) =~= s@.take(i + 1));
        }
        i = i + 1;
    }
    assert(s@.take(n as int) =~= s@);
}

/// Appends `quoted(s@)` to `out`.
fn append_quoted(s: &str, out: &mut String)
    ensures
        final(out)@ == old(out)@ + quoted(s@),
{
    push_char(out, '"');
    append_escaped(s, out);
    push_char(out, '"');
    assert(final(out)@ =~= old(out)@ + quoted(s@));
}

/// Appends `json_text(*v)` to `out`.
#[verifier::rlimit(60)]
pub fn append_json(v: &JsonValue, out: &mut String)
    ensures
        final(out)@ == old(out)@ + json_text(*v),
    decreases *v,
{
    match v {
        JsonValue::Null => {
            push_char(out, 'n');
            push_char(out, 'u');
            push_char(out, 'l');
            push_char(out, 'l');
            assert(final(out)@ =~= old(out)@ + json_text(*v));
        },
        JsonValue::Bool(b) => {
            if *b {
                push_char(out, 't');
                push_char(out, 'r');
                push_char(out, 'u');
                push_char(out, 'e');
            } else {
                push_char(out, 'f');
                push_char(out, 'a');
                push_char(out, 'l');
                push_char(out, 's');
                push_char(out, 'e');
            }
            assert(final(out)@ =~= old(out)@ + json_text(*v));
        },
        JsonValue::Num(s) => {
            out.append(s.as_str());
        },
        JsonValue::Str(s) => {
            append_quoted(s.as_str(), out);
        },
        JsonValue::Arr(items) => {
            push_char(out, '[');
            let n = items.len();
            let mut i: usize = 0;
            assert(items@.take(0) =~= Seq::<JsonValue>::empty());
            while i < n
                invariant
                    i <= n,
                    n == items@.len(),
                    out@ == old(out)@ + seq!['['] + json_items(items@.take(i as int)),
                decreases n - i,
            {
                if i > 0 {
                    push_char(out, ',');
                }
                append_json(&items[i], out);
                proof {
                    assert(items@.take(i + 1).drop_last() =~= items@.take(i as int));
                    assert(items@.take(i + 1).last() == items@[i as int]);
                    if i == 0 {
                        assert(out@ =~= old(out)@ + seq!['['] + json_items(items@.take(i + 1)));
                    } else {
                        assert(out@ =~= old(out)@ + seq!['['] + json_items(items@.take(i + 1)));
                    }
                }
                i = i + 1;
            }
            push_char(out, ']');
            assert(items@.take(n as int) =~= items@);
            assert(final(out)@ =~= old(out)@ + json_text(*v));
        },
        JsonValue::Obj(entries) => {
            push_char(out, '{');
            let n = entries.len();
            let mut i: usize = 0;
            assert(entries@.take(0) =~= Seq::<(String, JsonValue)>::empty());
            while i < n
                invariant
                    i <= n,
                    n == entries@.len(),
                    out@ == old(out)@ + seq!['{'] + json_members(entries@.take(i as int)),
                decreases n - i,
            {
                if i > 0 {
                    push_char(out, ',');
                }
                append_quoted(entries[i].0.as_str(), out);
                push_char(out, ':');
                append_json(&entries[i].1, out);
                proof {
                    assert(entries@.take(i + 1).drop_last() =~= entries@.take(i as int));
                    assert(entries@.take(i + 1).last() == entries@[i as int]);
                    assert(out@ =~= old(out)@ + seq!['{'] + json_members(entries@.take(i + 1)));
                }
                i = i + 1;
            }
            push_char(out, '}');
            assert(entries@.take(n as int) =~= entries@);
            assert(final(out)@ =~= old(out)@ + json_text(*v));
        },
    }
}

/// The JSON text of `v`, as [`json_text`] lays it down.
pub fn to_json_string(v: &JsonValue) -> (r: String)
    ensures
        r@ == json_text(*v),
{
    let mut out = String::new();
    append_json(v, &mut out);
    out
}

} // verus!
