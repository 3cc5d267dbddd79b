//! Locating the frontmatter block of a document: the lines between an
//! opening "---" line and the next "---" line (or the end of the text).
use crate::order::{str_equal, views};
use crate::text::{push_char, push_text};
use vstd::prelude::*;
use vstd::std_specs::iter::IteratorSpec;
use vstd::utf8::encode_utf8;

verus! {

broadcast use vstd::string::group_string_axioms;

/// The largest frontmatter block, in bytes, that is accepted.
pub const FRONTMATTER_LIMIT: usize = 32000;

/// A character with the Unicode White_Space property.
pub open spec fn is_white_space(c: char) -> bool {
    let n = c as int;
    (0x09 <= n <= 0x0D) || n == 0x20 || n == 0x85 || n == 0xA0 || n == 0x1680 || (0x2000 <= n
        <= 0x200A) || n == 0x2028 || n == 0x2029 || n == 0x202F || n == 0x205F || n == 0x3000
}

pub open spec fn trim_start(s: Seq<char>) -> Seq<char>
    decreases s.len(),
{
    if s.len() > 0 && is_white_space(s[0]) {
        trim_start(s.drop_first())
    } else {
        s
    }
}

pub open spec fn trim_end(s: Seq<char>) -> Seq<char>
    decreases s.len(),
{
    if s.len() > 0 && is_white_space(s.last()) {
        trim_end(s.drop_last())
    } else {
        s
    }
}

/// A line with its leading and trailing white space removed.
pub open spec fn trimmed(s: Seq<char>) -> Seq<char> {
    trim_end(trim_start(s))
}

/// Relies on `str::trim`: the text without its leading and trailing
/// characters of the Unicode White_Space property.
#[verifier::external_body]
fn trim_text(s: &str) -> (r: &str)
    ensures
        r@ == trimmed(s@),
{
    s.trim()
}

/// A delimiter line reads "---" once trimmed.
pub open spec fn is_delimiter(line: Seq<char>) -> bool {
    trimmed(line) == "---"@
}

/// After the first `n` characters: the complete lines (each with its line
/// break) and the line still being read.
pub open spec fn split_lines(t: Seq<char>, n: int) -> (Seq<Seq<char>>, Seq<char>)
    decreases n,
{
    if n <= 0 {
        (seq![], seq![])
    } else {
        let (ls, cur) = split_lines(t, n - 1);
        let line = cur.push(t[n - 1]);
        if t[n - 1] == '\n' {
            (ls.push(line), seq![])
        } else {
            (ls, line)
        }
    }
}

/// The lines of a text, each with its line break; a last line without one
/// counts where it is not empty.
pub open spec fn lines_of(t: Seq<char>) -> Seq<Seq<char>> {
    let (ls, cur) = split_lines(t, t.len() as int);
    if cur.len() > 0 {
        ls.push(cur)
    } else {
        ls
    }
}

pub open spec fn concat_lines(ls: Seq<Seq<char>>) -> Seq<char>
    decreases ls.len(),
{
    if ls.len() == 0 {
        seq![]
    } else {
        concat_lines(ls.drop_last()) + ls.last()
    }
}

/// The index of the first delimiter line from `k` on, or the line count.
pub open spec fn closing_line(ls: Seq<Seq<char>>, k: int) -> int
    decreases ls.len() - k,
{
    if k >= ls.len() || k < 0 {
        ls.len() as int
    } else if is_delimiter(ls[k]) {
        k
    } else {
        closing_line(ls, k + 1)
    }
}

proof fn lemma_closing_line_after(ls: Seq<Seq<char>>, k: int)
    requires
        0 <= k <= ls.len(),
    ensures
        k <= closing_line(ls, k) <= ls.len(),
    decreases ls.len() - k,
{
    if k < ls.len() && !is_delimiter(ls[k]) {
        lemma_closing_line_after(ls, k + 1);
    }
}

/// The block grows past the limit: after some body line, the lines read so
/// far hold more bytes than the limit.
pub open spec fn overflows(ls: Seq<Seq<char>>, close: int) -> bool {
    exists|j: int|
        2 <= j <= close && #[trigger] encode_utf8(concat_lines(ls.subrange(1, j))).len()
            > FRONTMATTER_LIMIT
}

/// Why no frontmatter block could be had.
#[derive(Debug)]
pub enum FrontmatterError {
    /// The block grew past the limit.
    TooLarge,
    /// The block runs into the part of the document that could not be read.
    Unreadable,
}

fn split_text_lines(text: &str) -> (r: Vec<String>)
    ensures
        views(r@) == lines_of(text@),
{
    let ghost t = text@;
    let mut lines: Vec<String> = Vec::new();
    let mut cur = String::new();
    let mut it = text.chars();
    let ghost mut i: int = 0;
    assert(t.skip(0) =~= t);
    loop
        invariant
            0 <= i <= t.len(),
            it.remaining() == t.skip(i),
            (views(lines@), cur@) == split_lines(t, i),
        ensures
            i == t.len(),
            (views(lines@), cur@) == split_lines(t, i),
        decreases t.len() - i,
    {
        let ghost rest = t.skip(i);
        match it.next() {
            None => {
                assert(rest.len() == 0);
                break;
            },
            Some(c) => {
                assert(rest.len() > 0);
                assert(rest.drop_first() =~= t.skip(i + 1));
                assert(t[i] == c);
                push_char(&mut cur, c);
                if c == '\n' {
                    let ghost before = views(lines@);
                    let line = cur;
                    cur = String::new();
                    let ghost lv = line@;
                    lines.push(line);
                    assert(views(lines@) =~= before.push(lv));
                }
                proof {
                    i = i + 1;
                }
            },
        }
    }
    if !cur.as_str().is_empty() {
        let ghost before = views(lines@);
        let ghost cv = cur@;
        lines.push(cur);
        assert(views(lines@) =~= before.push(cv));
    }
    lines
}

fn is_delimiter_line(line: &String) -> (r: bool)
    ensures
        r == is_delimiter(line@),
{
    str_equal(trim_text(line.as_str()), "---")
}

/// Extracts the frontmatter block of a document's text. A text whose first
/// line is not a delimiter has none. Otherwise the block is every line up to
/// the next delimiter line (or the end of the text), and it is refused once
/// it grows past the limit.
///
/// `whole` tells whether `text` is the whole document, or only the lines
/// before one that could not be read. In the latter case a block that needs
/// that line (no first line, or no closing delimiter before it) is
/// unreadable.
pub fn extract_frontmatter(text: &str, whole: bool) -> (r: Result<
    Option<String>,
    FrontmatterError,
>)
    ensures
        ({
            let ls = lines_of(text@);
            let close = closing_line(ls, 1);
            if ls.len() == 0 {
                if whole {
                    r matches Ok(None)
                } else {
                    r matches Err(FrontmatterError::Unreadable)
                }
            } else if !is_delimiter(ls[0]) {
                r matches Ok(None)
            } else if overflows(ls, close) {
                r matches Err(FrontmatterError::TooLarge)
            } else if close == ls.len() && !whole {
                r matches Err(FrontmatterError::Unreadable)
            } else {
                r matches Ok(Some(b)) && b@ == concat_lines(ls.subrange(1, close))
            }
        }),
{
    let lines = split_text_lines(text);
    let ghost ls = lines_of(text@);
    if lines.len() == 0 {
        if whole {
            return Ok(None);
        } else {
            return Err(FrontmatterError::Unreadable);
        }
    }
    if !is_delimiter_line(&lines[0]) {
        return Ok(None);
    }
    let ghost close = closing_line(ls, 1);
    let mut body = String::new();
    let mut k: usize = 1;
    assert(ls.subrange(1, 1) =~= Seq::<Seq<char>>::empty());
    proof {
        lemma_closing_line_after(ls, 1);
    }
    while k < lines.len() && !is_delimiter_line(&lines[k])
        invariant
            1 <= k <= lines.len(),
            views(lines@) == ls,
            ls == lines_of(text@),
            ls.len() > 0,
            is_delimiter(ls[0]),
            close == closing_line(ls, 1),
            closing_line(ls, k as int) == close,
            k <= close,
            body@ == concat_lines(ls.subrange(1, k as int)),
            forall|j: int|
                2 <= j <= k ==> #[trigger] encode_utf8(concat_lines(ls.subrange(1, j))).len()
                    <= FRONTMATTER_LIMIT,
        decreases lines.len() - k,
    {
        push_text(&mut body, lines[k].as_str());
        assert(ls.subrange(1, k + 1).drop_last() =~= ls.subrange(1, k as int));
        assert(ls.subrange(1, k + 1).last() == lines@[k as int]@);
        proof {
            assert(!is_delimiter(ls[k as int]));
            assert(closing_line(ls, k as int) == closing_line(ls, k + 1));
            lemma_closing_line_after(ls, k + 1);
        }
        k = k + 1;
        if body.as_str().as_bytes().len() > FRONTMATTER_LIMIT {
            assert(encode_utf8(concat_lines(ls.subrange(1, k as int))).len() > FRONTMATTER_LIMIT);
            assert(2 <= k <= close);
            assert(overflows(ls, close));
            return Err(FrontmatterError::TooLarge);
        }
    }
    proof {
        assert(closing_line(ls, k as int) == k);
        assert(!overflows(ls, close));
    }
    if k == lines.len() && !whole {
        return Err(FrontmatterError::Unreadable);
    }
    Ok(Some(body))
}

} // verus!
