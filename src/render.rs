//! The persisted and displayed JSON forms, laid out as a pretty printer does:
//! two spaces of indent per level, one member per line.
use crate::text::{push_char, push_text};
use vstd::prelude::*;

verus! {

pub open spec fn hex_digit(d: int) -> char {
    if d < 10 {
        ((48 + d) as u8) as char
    } else {
        ((87 + d) as u8) as char
    }
}

/// How one character is written inside a JSON string: quote and backslash
/// escaped, the usual short escapes for backspace, tab, line feed, form feed
/// and carriage return, other control characters as `\u00XX` in lower-case
/// hex, anything else as it is.
pub open spec fn json_escape(c: char) -> Seq<char> {
    let n = c as int;
    if c == '"' {
        seq!['\\', '"']
    } else if c == '\\' {
        seq!['\\', '\\']
    } else if n == 0x08 {
        seq!['\\', 'b']
    } else if n == 0x09 {
        seq!['\\', 't']
    } else if n == 0x0A {
        seq!['\\', 'n']
    } else if n == 0x0C {
        seq!['\\', 'f']
    } else if n == 0x0D {
        seq!['\\', 'r']
    } else if n < 0x20 {
        seq!['\\', 'u', '0', '0', hex_digit(n / 16), hex_digit(n % 16)]
    } else {
        seq![c]
    }
}

pub open spec fn json_escaped(s: Seq<char>) -> Seq<char>
    decreases s.len(),
{
    if s.len() == 0 {
        seq![]
    } else {
        json_escaped(s.drop_last()) + json_escape(s.last())
    }
}

/// The JSON string literal of a text: its characters escaped, between quotes.
pub open spec fn json_quoted(s: Seq<char>) -> Seq<char> {
    seq!['"'] + json_escaped(s) + seq!['"']
}

/// Relies on `serde_json::to_string` applied to a `str`: the text between
/// quotes, each character escaped as `json_escape` says (its escape table
/// and lower-case hex digits). Writing a string into memory cannot fail
/// there, so the empty fallback is never used.
#[verifier::external_body]
pub(crate) fn quote(s: &str) -> (r: String)
    ensures
        r@ == json_quoted(s@),
{
    serde_json::to_string(s).unwrap_or_default()
}

pub open spec fn indent(depth: nat) -> Seq<char>
    decreases depth,
{
    if depth == 0 {
        seq![]
    } else {
        indent((depth - 1) as nat) + seq![' ', ' ']
    }
}

/// The members of a block, each on its own line at `depth`, separated by
/// commas.
pub open spec fn join_items(items: Seq<Seq<char>>, depth: nat) -> Seq<char>
    decreases items.len(),
{
    if items.len() == 0 {
        seq![]
    } else {
        join_items(items.drop_last(), depth) + (if items.len() > 1 {
            seq![',']
        } else {
            seq![]
        }) + seq!['\n'] + indent(depth) + items.last()
    }
}

/// An array or object opened at `depth`: empty brackets where it has no
/// member, otherwise one member per line and the closing bracket on a line
/// of its own.
pub open spec fn block(open: char, close: char, items: Seq<Seq<char>>, depth: nat) -> Seq<char> {
    if items.len() == 0 {
        seq![open, close]
    } else {
        seq![open] + join_items(items, depth + 1) + seq!['\n'] + indent(depth) + seq![close]
    }
}

/// One object member: its quoted key, a colon and a space, its value.
pub open spec fn field(key: Seq<char>, value: Seq<char>) -> Seq<char> {
    key + seq![':', ' '] + value
}

pub open spec fn digit_char(d: nat) -> char {
    ((48 + d) as u8) as char
}

/// The decimal digits of `n`.
pub open spec fn decimal(n: nat) -> Seq<char>
    decreases n,
{
    if n < 10 {
        seq![digit_char(n)]
    } else {
        decimal(n / 10).push(digit_char(n % 10))
    }
}

pub fn push_indent(s: &mut String, depth: usize)
    ensures
        final(s)@ == old(s)@ + indent(depth as nat),
{
    let ghost start = s@;
    let mut i: usize = 0;
    while i < depth
        invariant
            i <= depth,
            s@ == start + indent(i as nat),
        decreases depth - i,
    {
        push_char(s, ' ');
        push_char(s, ' ');
        i = i + 1;
        assert(indent(i as nat) == indent((i - 1) as nat) + seq![' ', ' ']);
        assert(s@ =~= start + indent(i as nat));
    }
}

/// Appends the decimal digits of `n`.
pub fn push_decimal(s: &mut String, n: usize)
    ensures
        final(s)@ == old(s)@ + decimal(n as nat),
    decreases n,
{
    let ghost start = s@;
    if n >= 10 {
        push_decimal(s, n / 10);
    }
    let d: u8 = (n % 10) as u8;
    push_char(s, (48u8 + d) as char);
    assert(s@ =~= start + decimal(n as nat));
}

/// Writes a block of already rendered members.
pub fn render_block(open: char, close: char, items: &Vec<String>, depth: usize) -> (r: String)
    requires
        depth < usize::MAX,
    ensures
        r@ == block(open, close, items@.map_values(|x: String| x@), depth as nat),
{
    let ghost its = items@.map_values(|x: String| x@);
    let mut out = String::new();
    push_char(&mut out, open);
    let mut i: usize = 0;
    while i < items.len()
        invariant
            i <= items.len(),
            depth < usize::MAX,
            its == items@.map_values(|x: String| x@),
            out@ == seq![open] + join_items(its.take(i as int), (depth + 1) as nat),
        decreases items.len() - i,
    {
        let ghost before = out@;
        if i > 0 {
            push_char(&mut out, ',');
        }
        push_char(&mut out, '\n');
        push_indent(&mut out, depth + 1);
        push_text(&mut out, items[i].as_str());
        proof {
            let t = its.take(i + 1);
            assert(t.drop_last() =~= its.take(i as int));
            assert(t.last() == items@[i as int]@);
        }
        i = i + 1;
        assert(out@ =~= seq![open] + join_items(its.take(i as int), (depth + 1) as nat));
    }
    assert(its.take(i as int) =~= its);
    if items.len() > 0 {
        push_char(&mut out, '\n');
        push_indent(&mut out, depth);
    }
    push_char(&mut out, close);
    proof {
        if items.len() == 0 {
            assert(its.len() == 0);
            assert(out@ =~= seq![open, close]);
        } else {
            assert(out@ =~= block(open, close, its, depth as nat));
        }
    }
    out
}

/// Writes one object member.
pub fn render_field(key: &str, value: String) -> (r: String)
    ensures
        r@ == field(key@, value@),
{
    let mut out = String::new();
    push_text(&mut out, key);
    push_char(&mut out, ':');
    push_char(&mut out, ' ');
    push_text(&mut out, value.as_str());
    assert(out@ =~= field(key@, value@));
    out
}

} // verus!
