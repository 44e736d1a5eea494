//! Character sequences: white space, literal token matching, and lines.
//!
//! Everything here works on `Seq<char>` in specifications and on `Vec<char>`
//! in executable code, so that positions are counted in characters and never
//! in bytes.

use vstd::prelude::*;

verus! {

/// `String::push` appends one character and leaves the rest untouched.
pub assume_specification[ String::push ](s: &mut String, c: char)
    ensures
        final(s)@ == old(s)@.push(c),
;

/// The line terminator.
pub open spec fn newline() -> char {
    '\n'
}

/// The escape marker recognised inside string literals.
pub open spec fn escape() -> char {
    '\\'
}

/// Whether `c` has the Unicode `White_Space` property.
pub open spec fn is_whitespace(c: char) -> bool {
    let n = c as u32;
    ||| 0x09 <= n <= 0x0D
    ||| n == 0x20
    ||| n == 0x85
    ||| n == 0xA0
    ||| n == 0x1680
    ||| 0x2000 <= n <= 0x200A
    ||| n == 0x2028
    ||| n == 0x2029
    ||| n == 0x202F
    ||| n == 0x205F
    ||| n == 0x3000
}

/// Whether every character of `text` is white space (true of the empty text).
pub open spec fn is_blank(text: Seq<char>) -> bool {
    forall|i: int| 0 <= i < text.len() ==> is_whitespace(#[trigger] text[i])
}

/// Whether `text` ends with a line terminator.
pub open spec fn ends_with_newline(text: Seq<char>) -> bool {
    text.len() > 0 && text.last() == newline()
}

/// Whether `token` is non-empty and occurs in `text` starting at `pos`.
///
/// An empty token occurs nowhere.
pub open spec fn matches_at(token: Seq<char>, text: Seq<char>, pos: int) -> bool {
    &&& token.len() > 0
    &&& 0 <= pos
    &&& pos + token.len() <= text.len()
    &&& text.subrange(pos, pos + token.len()) == token
}

/// The first position at or after `from` where `token` occurs in `text`.
pub open spec fn first_match(token: Seq<char>, text: Seq<char>, from: int) -> Option<int>
    decreases text.len() - from,
{
    if from < 0 || from >= text.len() {
        None
    } else if matches_at(token, text, from) {
        Some(from)
    } else {
        first_match(token, text, from + 1)
    }
}

/// `first_match` returns the least position at or after `from` where the
/// token occurs, and `None` exactly when there is no such position.
pub proof fn lemma_first_match_least(token: Seq<char>, text: Seq<char>, from: int)
    requires
        0 <= from,
    ensures
        match first_match(token, text, from) {
            Some(p) => {
                &&& from <= p
                &&& matches_at(token, text, p)
                &&& forall|j: int| from <= j < p ==> !matches_at(token, text, j)
            },
            None => forall|j: int| from <= j ==> !matches_at(token, text, j),
        },
    decreases text.len() - from,
{
    if from < text.len() && !matches_at(token, text, from) {
        lemma_first_match_least(token, text, from + 1);
    }
}

/// The position of the first line terminator at or after `from`, or the
/// length of `text` when there is none.
pub open spec fn line_end(text: Seq<char>, from: int) -> int
    decreases text.len() - from,
{
    if from < 0 || from >= text.len() {
        text.len() as int
    } else if text[from] == newline() {
        from
    } else {
        line_end(text, from + 1)
    }
}

/// `line_end` lies between `from` and the end of the text, no terminator
/// stands before it, and one stands at it unless it is the end.
pub proof fn lemma_line_end(text: Seq<char>, from: int)
    requires
        0 <= from <= text.len(),
    ensures
        from <= line_end(text, from) <= text.len(),
        forall|j: int| from <= j < line_end(text, from) ==> text[j] != newline(),
        line_end(text, from) < text.len() ==> text[line_end(text, from)] == newline(),
    decreases text.len() - from,
{
    if from < text.len() && text[from] != newline() {
        lemma_line_end(text, from + 1);
    }
}

/// The lines of `text` from position `from` on. A line ends at a line
/// terminator, which is not part of it; text after the last terminator is a
/// line too, unless it is empty.
pub open spec fn lines_from(text: Seq<char>, from: int) -> Seq<Seq<char>>
    decreases text.len() - from,
    via lines_from_decreases
{
    if from < 0 || from >= text.len() {
        Seq::empty()
    } else {
        let end = line_end(text, from);
        if end < text.len() {
            seq![text.subrange(from, end)] + lines_from(text, end + 1)
        } else {
            seq![text.subrange(from, end)]
        }
    }
}

#[via_fn]
proof fn lines_from_decreases(text: Seq<char>, from: int) {
    if 0 <= from < text.len() {
        lemma_line_end(text, from);
    }
}

/// The lines of `text`.
pub open spec fn split_lines(text: Seq<char>) -> Seq<Seq<char>> {
    lines_from(text, 0)
}

/// The lines joined with one line terminator between neighbours.
pub open spec fn join_lines(lines: Seq<Seq<char>>) -> Seq<char>
    decreases lines.len(),
{
    if lines.len() == 0 {
        Seq::empty()
    } else if lines.len() == 1 {
        lines[0]
    } else {
        join_lines(lines.drop_last()) + seq![newline()] + lines.last()
    }
}

/// The terminator that closes `text` when `text` ends with one.
pub open spec fn closing_newline(text: Seq<char>) -> Seq<char> {
    if ends_with_newline(text) {
        seq![newline()]
    } else {
        Seq::empty()
    }
}

/// Joining with a line in front.
pub proof fn lemma_join_lines_front(first: Seq<char>, rest: Seq<Seq<char>>)
    ensures
        join_lines(seq![first] + rest) == if rest.len() == 0 {
            first
        } else {
            first + seq![newline()] + join_lines(rest)
        },
    decreases rest.len(),
{
    let all = seq![first] + rest;
    if rest.len() == 0 {
        assert(all[0] == first);
    } else if rest.len() == 1 {
        assert(all.drop_last() =~= seq![first]);
        assert(all.last() == rest[0]);
        assert(join_lines(all.drop_last()) == first);
    } else {
        lemma_join_lines_front(first, rest.drop_last());
        assert(all.drop_last() =~= seq![first] + rest.drop_last());
        assert(all.last() == rest.last());
        assert(join_lines(all) =~= first + seq![newline()] + join_lines(rest));
    }
}

/// Splitting a text into lines and joining them again gives the text back,
/// up to the terminator that closed it.
pub proof fn lemma_split_join(text: Seq<char>)
    ensures
        join_lines(split_lines(text)) + closing_newline(text) == text,
{
    if text.len() > 0 {
        lemma_lines_join_from(text, 0);
        assert(text.skip(0) =~= text);
    } else {
        assert(join_lines(split_lines(text)) + closing_newline(text) =~= text);
    }
}

proof fn lemma_lines_join_from(text: Seq<char>, from: int)
    requires
        0 <= from < text.len(),
    ensures
        join_lines(lines_from(text, from)) + closing_newline(text) == text.skip(from),
    decreases text.len() - from,
{
    lemma_line_end(text, from);
    let end = line_end(text, from);
    let line = text.subrange(from, end);
    let rest = if end < text.len() {
        lines_from(text, end + 1)
    } else {
        Seq::empty()
    };
    assert(lines_from(text, from) =~= seq![line] + rest);
    lemma_join_lines_front(line, rest);
    if end + 1 < text.len() {
        lemma_lines_join_from(text, end + 1);
        assert(rest.len() > 0) by {
            lemma_line_end(text, end + 1);
        }
        assert(line + seq![newline()] + text.skip(end + 1) =~= text.skip(from));
        assert(join_lines(lines_from(text, from)) + closing_newline(text) =~= line + seq![
            newline(),
        ] + (join_lines(rest) + closing_newline(text)));
    } else if end + 1 == text.len() {
        assert(rest.len() == 0);
        assert(ends_with_newline(text));
        assert(line + seq![newline()] =~= text.skip(from));
    } else {
        assert(rest.len() == 0);
        assert(!ends_with_newline(text));
        assert(line + Seq::<char>::empty() =~= text.skip(from));
    }
}

/// Whether `c` has the Unicode `White_Space` property.
pub fn char_is_whitespace(c: char) -> (b: bool)
    ensures
        b == is_whitespace(c),
{
    let n: u32 = c as u32;
    (0x09 <= n && n <= 0x0D) || n == 0x20 || n == 0x85 || n == 0xA0 || n == 0x1680 || (0x2000 <= n
        && n <= 0x200A) || n == 0x2028 || n == 0x2029 || n == 0x202F || n == 0x205F || n == 0x3000
}

/// Whether `text` holds white space only.
pub fn blank(text: &Vec<char>) -> (b: bool)
    ensures
        b == is_blank(text@),
{
    let mut i: usize = 0;
    while i < text.len()
        invariant
            i <= text.len(),
            forall|j: int| 0 <= j < i ==> is_whitespace(#[trigger] text@[j]),
        decreases text.len() - i,
    {
        if !char_is_whitespace(text[i]) {
            return false;
        }
        i += 1;
    }
    true
}

/// The characters of `s`, in order.
pub fn chars_of(s: &str) -> (chars: Vec<char>)
    ensures
        chars@ == s@,
{
    let mut chars: Vec<char> = Vec::new();
    let it = s.chars();
    for c in iter: it
        invariant
            chars@ == iter.seq().take(iter.index() as int),
    {
        chars.push(c);
    }
    chars
}

/// The string made of `chars`, in order.
pub fn string_of(chars: &Vec<char>) -> (s: String)
    ensures
        s@ == chars@,
{
    let mut s = String::new();
    let mut i: usize = 0;
    while i < chars.len()
        invariant
            i <= chars.len(),
            s@ == chars@.take(i as int),
        decreases chars.len() - i,
    {
        s.push(chars[i]);
        i += 1;
    }
    s
}

/// Appends the characters of `text` from `from` up to `to` to `out`.
pub(crate) fn copy_range(text: &Vec<char>, from: usize, to: usize, out: &mut Vec<char>)
    requires
        from <= to <= text.len(),
    ensures
        final(out)@ == old(out)@ + text@.subrange(from as int, to as int),
{
    let ghost before = out@;
    let mut i: usize = from;
    while i < to
        invariant
            from <= i <= to <= text.len(),
            out@ == before + text@.subrange(from as int, i as int),
        decreases to - i,
    {
        out.push(text[i]);
        i += 1;
        assert(out@ =~= before + text@.subrange(from as int, i as int));
    }
}

/// Whether `token` is non-empty and occurs in `text` at `pos`.
pub fn token_matches(token: &Vec<char>, text: &Vec<char>, pos: usize) -> (b: bool)
    ensures
        b == matches_at(token@, text@, pos as int),
{
    let n = token.len();
    if n == 0 || pos > text.len() || n > text.len() - pos {
        return false;
    }
    let mut k: usize = 0;
    while k < n
        invariant
            k <= n,
            n == token.len(),
            pos + n <= text.len(),
            forall|j: int| 0 <= j < k ==> text@[pos + j] == token@[j],
        decreases n - k,
    {
        if text[pos + k] != token[k] {
            assert(text@.subrange(pos as int, pos + n)[k as int] != token@[k as int]);
            return false;
        }
        k += 1;
    }
    assert(text@.subrange(pos as int, pos + n) =~= token@);
    true
}

/// The first position at or after `from` where `token` occurs in `text`.
pub fn find_token(token: &Vec<char>, text: &Vec<char>, from: usize) -> (found: Option<usize>)
    ensures
        match found {
            Some(p) => first_match(token@, text@, from as int) == Some(p as int),
            None => first_match(token@, text@, from as int) is None,
        },
{
    let mut p: usize = from;
    while p < text.len()
        invariant
            from <= p,
            first_match(token@, text@, from as int) == first_match(token@, text@, p as int),
        decreases text.len() - p,
    {
        if token_matches(token, text, p) {
            return Some(p);
        }
        p += 1;
    }
    None
}

} // verus!
