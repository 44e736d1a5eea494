//! Laws of the comment stripper, proved from the definitions of
//! `crate::scan`.

use vstd::prelude::*;

use crate::language::TokenTables;
use crate::scan::{
    block_opener, first_opener, lemma_first_opener_least, lemma_literal_end_bounds,
    line_comment_at, line_dropped, literal_end, nothing, quote_opener, scan_code, scan_line,
    stripped, surviving_lines, ScanMode, Scanned,
};
use crate::text::{
    escape, first_match, is_blank, is_whitespace, lemma_first_match_least, lemma_line_end,
    lemma_split_join, line_end, lines_from, matches_at,
};

verus! {

/// Whether no token that opens a comment occurs anywhere in `text`.
pub open spec fn comment_free(text: Seq<char>, tables: TokenTables) -> bool {
    &&& forall|k: int, pos: int|
        #![trigger matches_at(tables.line_comments[k], text, pos)]
        0 <= k < tables.line_comments.len() ==> !matches_at(tables.line_comments[k], text, pos)
    &&& forall|k: int, pos: int|
        #![trigger matches_at(tables.block_comments[k].0, text, pos)]
        0 <= k < tables.block_comments.len() ==> !matches_at(
            tables.block_comments[k].0,
            text,
            pos,
        )
    &&& forall|k: int, pos: int|
        #![trigger matches_at(tables.nested_block_comments[k].0, text, pos)]
        0 <= k < tables.nested_block_comments.len() ==> !matches_at(
            tables.nested_block_comments[k].0,
            text,
            pos,
        )
}

/// Whether no token that opens a string literal occurs anywhere in `text`.
pub open spec fn quote_free(text: Seq<char>, tables: TokenTables) -> bool {
    forall|k: int, pos: int|
        #![trigger matches_at(tables.quotes[k].0, text, pos)]
        0 <= k < tables.quotes.len() ==> !matches_at(tables.quotes[k].0, text, pos)
}

/// Whether the scan, in code at `pos`, finds neither a quote nor a comment
/// token there, so that it copies the character at `pos`.
pub open spec fn plain_at(tables: TokenTables, text: Seq<char>, pos: int) -> bool {
    &&& quote_opener(tables, text, pos) is None
    &&& block_opener(tables, text, pos) is None
    &&& !line_comment_at(tables.line_comments, text, pos)
}

/// Whether a token holds a character that is not white space.
pub open spec fn visible(token: Seq<char>) -> bool {
    exists|i: int| 0 <= i < token.len() && !is_whitespace(#[trigger] token[i])
}

/// Whether every token that opens a comment holds a character that is not
/// white space.
pub open spec fn comment_tokens_visible(tables: TokenTables) -> bool {
    &&& forall|k: int|
        0 <= k < tables.line_comments.len() ==> visible(#[trigger] tables.line_comments[k])
    &&& forall|k: int|
        0 <= k < tables.block_comments.len() ==> visible((#[trigger] tables.block_comments[k]).0)
    &&& forall|k: int|
        0 <= k < tables.nested_block_comments.len() ==> visible(
            (#[trigger] tables.nested_block_comments[k]).0,
        )
}

/// A token that occurs in a part of a text occurs in the text.
pub proof fn lemma_match_in_part(token: Seq<char>, text: Seq<char>, from: int, to: int, pos: int)
    requires
        0 <= from <= to <= text.len(),
        matches_at(token, text.subrange(from, to), pos),
    ensures
        matches_at(token, text, from + pos),
{
    assert(text.subrange(from + pos, from + pos + token.len()) =~= text.subrange(
        from,
        to,
    ).subrange(pos, pos + token.len()));
}

/// A part of a text without comment tokens is without comment tokens.
pub proof fn lemma_part_comment_free(text: Seq<char>, from: int, to: int, tables: TokenTables)
    requires
        0 <= from <= to <= text.len(),
        comment_free(text, tables),
    ensures
        comment_free(text.subrange(from, to), tables),
{
    let part = text.subrange(from, to);
    assert forall|k: int, pos: int|
        #![trigger matches_at(tables.line_comments[k], part, pos)]
        0 <= k < tables.line_comments.len() implies !matches_at(
        tables.line_comments[k],
        part,
        pos,
    ) by {
        if matches_at(tables.line_comments[k], part, pos) {
            lemma_match_in_part(tables.line_comments[k], text, from, to, pos);
        }
    }
    assert forall|k: int, pos: int|
        #![trigger matches_at(tables.block_comments[k].0, part, pos)]
        0 <= k < tables.block_comments.len() implies !matches_at(
        tables.block_comments[k].0,
        part,
        pos,
    ) by {
        if matches_at(tables.block_comments[k].0, part, pos) {
            lemma_match_in_part(tables.block_comments[k].0, text, from, to, pos);
        }
    }
    assert forall|k: int, pos: int|
        #![trigger matches_at(tables.nested_block_comments[k].0, part, pos)]
        0 <= k < tables.nested_block_comments.len() implies !matches_at(
        tables.nested_block_comments[k].0,
        part,
        pos,
    ) by {
        if matches_at(tables.nested_block_comments[k].0, part, pos) {
            lemma_match_in_part(tables.nested_block_comments[k].0, text, from, to, pos);
        }
    }
}

/// In a line without comment tokens, the scan in code copies everything.
pub proof fn lemma_comment_free_line_kept(line: Seq<char>, pos: int, tables: TokenTables)
    requires
        0 <= pos <= line.len(),
        comment_free(line, tables),
    ensures
        scan_code(line, pos, tables) == (Scanned {
            text: line.subrange(pos, line.len() as int),
            mode: ScanMode::Code,
        }),
    decreases line.len() - pos,
{
    let whole = line.subrange(pos, line.len() as int);
    if pos >= line.len() {
        assert(whole =~= Seq::<char>::empty());
    } else {
        lemma_first_opener_least(tables.quotes, line, pos, 0);
        lemma_first_opener_least(tables.block_comments, line, pos, 0);
        lemma_first_opener_least(tables.nested_block_comments, line, pos, 0);
        if let Some(quote) = quote_opener(tables, line, pos) {
            let end = literal_end(line, pos + quote.0.len(), quote.1);
            lemma_literal_end_bounds(line, pos + quote.0.len(), quote.1);
            lemma_comment_free_line_kept(line, end, tables);
            assert(line.subrange(pos, end) + line.subrange(end, line.len() as int) =~= whole);
        } else {
            assert(block_opener(tables, line, pos) is None);
            assert(!line_comment_at(tables.line_comments, line, pos));
            lemma_comment_free_line_kept(line, pos + 1, tables);
            assert(seq![line[pos]] + line.subrange(pos + 1, line.len() as int) =~= whole);
        }
    }
}

proof fn lemma_comment_free_lines_kept(text: Seq<char>, from: int, tables: TokenTables)
    requires
        0 <= from <= text.len(),
        comment_free(text, tables),
    ensures
        surviving_lines(lines_from(text, from), ScanMode::Code, tables) == lines_from(text, from),
    decreases text.len() - from,
{
    if from < text.len() {
        lemma_line_end(text, from);
        let end = line_end(text, from);
        let line = text.subrange(from, end);
        let rest = if end < text.len() {
            lines_from(text, end + 1)
        } else {
            Seq::empty()
        };
        let lines = lines_from(text, from);
        assert(lines =~= seq![line] + rest);
        assert(lines.drop_first() =~= rest);
        lemma_part_comment_free(text, from, end, tables);
        lemma_comment_free_line_kept(line, 0, tables);
        assert(line.subrange(0, line.len() as int) =~= line);
        assert(!line_dropped(line, ScanMode::Code, line));
        if end < text.len() {
            lemma_comment_free_lines_kept(text, end + 1, tables);
        }
        assert(lines[0] == line);
        assert(scan_line(line, ScanMode::Code, tables) == (Scanned {
            text: line,
            mode: ScanMode::Code,
        }));
        assert(surviving_lines(rest, ScanMode::Code, tables) =~= rest);
        assert(surviving_lines(lines, ScanMode::Code, tables) =~= seq![line] + rest);
    }
}

/// Stripping leaves content unchanged in which no comment token occurs,
/// whatever string literals it holds.
pub proof fn lemma_comment_free_unchanged(content: Seq<char>, tables: TokenTables)
    requires
        comment_free(content, tables),
    ensures
        stripped(content, tables) == content,
{
    lemma_comment_free_lines_kept(content, 0, tables);
    lemma_split_join(content);
}

/// Stripping is the identity on text in which neither a comment token nor a
/// quote token occurs.
pub proof fn lemma_plain_text_unchanged(content: Seq<char>, tables: TokenTables)
    requires
        comment_free(content, tables),
        quote_free(content, tables),
    ensures
        stripped(content, tables) == content,
{
    lemma_comment_free_unchanged(content, tables);
}

/// Stripping a second time changes nothing, once the first pass has left no
/// comment token behind.
pub proof fn lemma_strip_idempotent(content: Seq<char>, tables: TokenTables)
    requires
        comment_free(stripped(content, tables), tables),
    ensures
        stripped(stripped(content, tables), tables) == stripped(content, tables),
{
    lemma_comment_free_unchanged(stripped(content, tables), tables);
}

proof fn lemma_visible_not_in_blank(token: Seq<char>, line: Seq<char>, pos: int)
    requires
        is_blank(line),
        visible(token),
    ensures
        !matches_at(token, line, pos),
{
    if matches_at(token, line, pos) {
        let i = choose|i: int| 0 <= i < token.len() && !is_whitespace(#[trigger] token[i]);
        assert(line.subrange(pos, pos + token.len())[i] == line[pos + i]);
    }
}

/// A line of white space outside a block comment stays as it is, where
/// every token that opens a comment can be seen.
pub proof fn lemma_blank_line_kept(line: Seq<char>, tables: TokenTables)
    requires
        is_blank(line),
        comment_tokens_visible(tables),
    ensures
        scan_line(line, ScanMode::Code, tables) == (Scanned { text: line, mode: ScanMode::Code }),
        !line_dropped(line, ScanMode::Code, line),
{
    assert forall|k: int, pos: int|
        #![trigger matches_at(tables.line_comments[k], line, pos)]
        0 <= k < tables.line_comments.len() implies !matches_at(
        tables.line_comments[k],
        line,
        pos,
    ) by {
        lemma_visible_not_in_blank(tables.line_comments[k], line, pos);
    }
    assert forall|k: int, pos: int|
        #![trigger matches_at(tables.block_comments[k].0, line, pos)]
        0 <= k < tables.block_comments.len() implies !matches_at(
        tables.block_comments[k].0,
        line,
        pos,
    ) by {
        lemma_visible_not_in_blank(tables.block_comments[k].0, line, pos);
    }
    assert forall|k: int, pos: int|
        #![trigger matches_at(tables.nested_block_comments[k].0, line, pos)]
        0 <= k < tables.nested_block_comments.len() implies !matches_at(
        tables.nested_block_comments[k].0,
        line,
        pos,
    ) by {
        lemma_visible_not_in_blank(tables.nested_block_comments[k].0, line, pos);
    }
    lemma_comment_free_line_kept(line, 0, tables);
    assert(line.subrange(0, line.len() as int) =~= line);
}

/// A string literal that opens in code is copied as it stands, start and
/// end token included, up to where it ends, and where it ends depends on
/// its end token and on escape markers alone: comment tokens between the
/// quotes play no part.
pub proof fn lemma_literal_copied(
    line: Seq<char>,
    pos: int,
    quote: (Seq<char>, Seq<char>),
    tables: TokenTables,
)
    requires
        0 <= pos < line.len(),
        quote_opener(tables, line, pos) == Some(quote),
    ensures
        pos + quote.0.len() <= literal_end(line, pos + quote.0.len(), quote.1) <= line.len(),
        scan_code(line, pos, tables) == scan_code(
            line,
            literal_end(line, pos + quote.0.len(), quote.1),
            tables,
        ).after(line.subrange(pos, literal_end(line, pos + quote.0.len(), quote.1))),
{
    lemma_first_opener_least(tables.quotes, line, pos, 0);
    lemma_literal_end_bounds(line, pos + quote.0.len(), quote.1);
}

/// A literal whose inside holds neither an escape marker nor its terminator
/// ends just behind the terminator that follows.
pub proof fn lemma_literal_end_plain(text: Seq<char>, from: int, close: int, terminator: Seq<char>)
    requires
        0 <= from <= close,
        matches_at(terminator, text, close),
        forall|j: int|
            from <= j < close ==> text[j] != escape() && !matches_at(terminator, text, j),
    ensures
        literal_end(text, from, terminator) == close + terminator.len(),
    decreases close - from,
{
    if from < close {
        lemma_literal_end_plain(text, from + 1, close, terminator);
    }
}

/// A comment token inside a quoted string is not taken for a comment: a
/// string literal that opens in code at `pos` and closes at `close` is
/// copied whole, whatever stands between its quotes, and the scan goes on in
/// code behind it.
pub proof fn lemma_quoted_text_kept(
    line: Seq<char>,
    pos: int,
    quote: (Seq<char>, Seq<char>),
    close: int,
    tables: TokenTables,
)
    requires
        0 <= pos < line.len(),
        quote_opener(tables, line, pos) == Some(quote),
        pos + quote.0.len() <= close,
        matches_at(quote.1, line, close),
        forall|j: int|
            pos + quote.0.len() <= j < close ==> line[j] != escape() && !matches_at(
                quote.1,
                line,
                j,
            ),
    ensures
        scan_code(line, pos, tables) == scan_code(line, close + quote.1.len(), tables).after(
            line.subrange(pos, close + quote.1.len()),
        ),
{
    lemma_literal_end_plain(line, pos + quote.0.len(), close, quote.1);
}

/// An escape marker inside a string literal passes over the character
/// behind it: the literal ends where it would end if it were open two
/// positions further on, also where its terminator occurs right behind the
/// marker.
pub proof fn lemma_escape_passes_over(text: Seq<char>, pos: int, terminator: Seq<char>)
    requires
        0 <= pos,
        pos + 1 < text.len(),
        text[pos] == escape(),
        !matches_at(terminator, text, pos),
    ensures
        literal_end(text, pos, terminator) == literal_end(text, pos + 2, terminator),
        literal_end(text, pos, terminator) >= pos + 2,
{
    lemma_literal_end_bounds(text, pos + 2, terminator);
}

proof fn lemma_literal_end_to_marker(text: Seq<char>, from: int, marker: int, terminator: Seq<char>)
    requires
        0 <= from <= marker < text.len(),
        forall|j: int|
            from <= j < marker ==> text[j] != escape() && !matches_at(terminator, text, j),
    ensures
        literal_end(text, from, terminator) == literal_end(text, marker, terminator),
    decreases marker - from,
{
    if from < marker {
        lemma_literal_end_to_marker(text, from + 1, marker, terminator);
    }
}

/// An escaped terminator does not end a string literal early: a literal
/// that opens in code at `pos`, holds one escape marker at `marker`, and
/// closes at `close` behind the escaped character, is copied whole, and the
/// scan goes on in code behind it.
pub proof fn lemma_escaped_quote_kept(
    line: Seq<char>,
    pos: int,
    quote: (Seq<char>, Seq<char>),
    marker: int,
    close: int,
    tables: TokenTables,
)
    requires
        0 <= pos < line.len(),
        quote_opener(tables, line, pos) == Some(quote),
        pos + quote.0.len() <= marker,
        marker + 2 <= close,
        line[marker] == escape(),
        !matches_at(quote.1, line, marker),
        matches_at(quote.1, line, close),
        forall|j: int|
            pos + quote.0.len() <= j < marker ==> line[j] != escape() && !matches_at(
                quote.1,
                line,
                j,
            ),
        forall|j: int|
            marker + 2 <= j < close ==> line[j] != escape() && !matches_at(quote.1, line, j),
    ensures
        scan_code(line, pos, tables) == scan_code(line, close + quote.1.len(), tables).after(
            line.subrange(pos, close + quote.1.len()),
        ),
{
    lemma_literal_end_plain(line, marker + 2, close, quote.1);
    lemma_escape_passes_over(line, marker, quote.1);
    lemma_literal_end_to_marker(line, pos + quote.0.len(), marker, quote.1);
}

/// A string literal whose terminator does not follow runs to the end of its
/// line.
pub proof fn lemma_unterminated_literal(text: Seq<char>, from: int, terminator: Seq<char>)
    requires
        0 <= from,
        forall|j: int| from <= j ==> !matches_at(terminator, text, j),
    ensures
        literal_end(text, from, terminator) == text.len(),
    decreases text.len() - from,
{
    if from < text.len() {
        if text[from] == escape() && from + 1 < text.len() {
            lemma_unterminated_literal(text, from + 2, terminator);
        } else {
            lemma_unterminated_literal(text, from + 1, terminator);
        }
    }
}

/// In code, a scan never ends inside a string literal.
pub proof fn lemma_code_scan_closes_literals(line: Seq<char>, pos: int, tables: TokenTables)
    ensures
        !(scan_code(line, pos, tables).mode is Literal),
    decreases line.len() - pos,
{
    if 0 <= pos < line.len() {
        lemma_first_opener_least(tables.quotes, line, pos, 0);
        lemma_first_opener_least(tables.block_comments, line, pos, 0);
        lemma_first_opener_least(tables.nested_block_comments, line, pos, 0);
        if let Some(quote) = quote_opener(tables, line, pos) {
            lemma_literal_end_bounds(line, pos + quote.0.len(), quote.1);
            lemma_code_scan_closes_literals(
                line,
                literal_end(line, pos + quote.0.len(), quote.1),
                tables,
            );
        } else if let Some(comment) = block_opener(tables, line, pos) {
            lemma_first_match_least(comment.1, line, pos + comment.0.len());
            if let Some(close) = first_match(comment.1, line, pos + comment.0.len()) {
                lemma_code_scan_closes_literals(line, close + comment.1.len(), tables);
            }
        } else if !line_comment_at(tables.line_comments, line, pos) {
            lemma_code_scan_closes_literals(line, pos + 1, tables);
        }
    }
}

/// A string literal never stays open beyond its line: whatever mode a line
/// starts in, the next line starts in code or inside a block comment.
pub proof fn lemma_literal_ends_with_line(line: Seq<char>, mode: ScanMode, tables: TokenTables)
    ensures
        !(scan_line(line, mode, tables).mode is Literal),
{
    match mode {
        ScanMode::Code => {
            lemma_code_scan_closes_literals(line, 0, tables);
        },
        ScanMode::Literal(terminator) => {
            lemma_code_scan_closes_literals(line, literal_end(line, 0, terminator), tables);
        },
        ScanMode::Block(terminator) => {
            if let Some(close) = first_match(terminator, line, 0) {
                lemma_code_scan_closes_literals(line, close + terminator.len(), tables);
            }
        },
    }
}

/// A quote token behind a line-comment token does not start a string:
/// where a line comment opens in code, nothing more of the line is kept,
/// whatever follows, and the next line starts in code.
pub proof fn lemma_line_comment_drops_rest(line: Seq<char>, pos: int, tables: TokenTables)
    requires
        0 <= pos < line.len(),
        quote_opener(tables, line, pos) is None,
        block_opener(tables, line, pos) is None,
        line_comment_at(tables.line_comments, line, pos),
    ensures
        scan_code(line, pos, tables) == nothing(ScanMode::Code),
{
}

/// A quote token inside a block comment does not start a string: where a
/// block comment opens in code, the scan goes on in code behind the first
/// end token that follows the start token, whatever stands between them;
/// without an end token nothing more of the line is kept and the comment
/// stays open.
pub proof fn lemma_block_comment_skipped(
    line: Seq<char>,
    pos: int,
    comment: (Seq<char>, Seq<char>),
    tables: TokenTables,
)
    requires
        0 <= pos < line.len(),
        quote_opener(tables, line, pos) is None,
        block_opener(tables, line, pos) == Some(comment),
    ensures
        scan_code(line, pos, tables) == match first_match(
            comment.1,
            line,
            pos + comment.0.len(),
        ) {
            Some(close) => scan_code(line, close + comment.1.len(), tables),
            None => nothing(ScanMode::Block(comment.1)),
        },
{
}

/// A quote token in a line that continues a block comment does not start a
/// string before the comment ends: a line without the end token is left out
/// whole and the comment stays open, and of a line with one only what
/// follows the first end token is scanned, in code.
pub proof fn lemma_comment_line_skipped(line: Seq<char>, terminator: Seq<char>, tables: TokenTables)
    ensures
        scan_line(line, ScanMode::Block(terminator), tables) == match first_match(
            terminator,
            line,
            0,
        ) {
            Some(close) => scan_code(line, close + terminator.len(), tables),
            None => nothing(ScanMode::Block(terminator)),
        },
{
}

proof fn lemma_rest_further(a: Seq<char>, p: int, b: Seq<char>, q: int, k: int)
    requires
        0 <= p <= a.len(),
        0 <= q <= b.len(),
        a.skip(p) == b.skip(q),
        0 <= k <= a.len() - p,
    ensures
        a.len() - p == b.len() - q,
        a.skip(p + k) == b.skip(q + k),
        a.subrange(p, p + k) == b.subrange(q, q + k),
        k < a.len() - p ==> a[p + k] == b[q + k],
{
    assert(a.skip(p).len() == b.skip(q).len());
    assert(a.skip(p + k) =~= a.skip(p).skip(k));
    assert(b.skip(q + k) =~= b.skip(q).skip(k));
    assert(a.subrange(p, p + k) =~= a.skip(p).subrange(0, k));
    assert(b.subrange(q, q + k) =~= b.skip(q).subrange(0, k));
    if k < a.len() - p {
        assert(a[p + k] == a.skip(p)[k]);
        assert(b[q + k] == b.skip(q)[k]);
    }
}

proof fn lemma_match_same_rest(token: Seq<char>, a: Seq<char>, p: int, b: Seq<char>, q: int)
    requires
        0 <= p <= a.len(),
        0 <= q <= b.len(),
        a.skip(p) == b.skip(q),
    ensures
        matches_at(token, a, p) == matches_at(token, b, q),
{
    lemma_rest_further(a, p, b, q, 0);
    if token.len() > 0 && p + token.len() <= a.len() {
        lemma_rest_further(a, p, b, q, token.len() as int);
    }
}

proof fn lemma_first_opener_same_rest(
    pairs: Seq<(Seq<char>, Seq<char>)>,
    a: Seq<char>,
    p: int,
    b: Seq<char>,
    q: int,
    from: int,
)
    requires
        0 <= p <= a.len(),
        0 <= q <= b.len(),
        a.skip(p) == b.skip(q),
    ensures
        first_opener(pairs, a, p, from) == first_opener(pairs, b, q, from),
    decreases pairs.len() - from,
{
    if 0 <= from < pairs.len() {
        lemma_match_same_rest(pairs[from].0, a, p, b, q);
        lemma_first_opener_same_rest(pairs, a, p, b, q, from + 1);
    }
}

proof fn lemma_line_comment_same_rest(
    tokens: Seq<Seq<char>>,
    a: Seq<char>,
    p: int,
    b: Seq<char>,
    q: int,
)
    requires
        0 <= p <= a.len(),
        0 <= q <= b.len(),
        a.skip(p) == b.skip(q),
    ensures
        line_comment_at(tokens, a, p) == line_comment_at(tokens, b, q),
{
    assert forall|k: int| 0 <= k < tokens.len() implies matches_at(#[trigger] tokens[k], a, p)
        == matches_at(tokens[k], b, q) by {
        lemma_match_same_rest(tokens[k], a, p, b, q);
    }
}

proof fn lemma_literal_end_same_rest(
    a: Seq<char>,
    p: int,
    b: Seq<char>,
    q: int,
    terminator: Seq<char>,
)
    requires
        0 <= p <= a.len(),
        0 <= q <= b.len(),
        a.skip(p) == b.skip(q),
    ensures
        literal_end(a, p, terminator) - p == literal_end(b, q, terminator) - q,
    decreases a.len() - p,
{
    lemma_rest_further(a, p, b, q, 0);
    if p < a.len() {
        lemma_match_same_rest(terminator, a, p, b, q);
        if !matches_at(terminator, a, p) {
            if a[p] == escape() && p + 1 < a.len() {
                lemma_rest_further(a, p, b, q, 2);
                lemma_literal_end_same_rest(a, p + 2, b, q + 2, terminator);
            } else {
                lemma_rest_further(a, p, b, q, 1);
                lemma_literal_end_same_rest(a, p + 1, b, q + 1, terminator);
            }
        }
    }
}

proof fn lemma_first_match_same_rest(token: Seq<char>, a: Seq<char>, p: int, b: Seq<char>, q: int)
    requires
        0 <= p <= a.len(),
        0 <= q <= b.len(),
        a.skip(p) == b.skip(q),
    ensures
        first_match(token, a, p) is Some == first_match(token, b, q) is Some,
        first_match(token, a, p) is Some ==> first_match(token, a, p).unwrap() - p == first_match(
            token,
            b,
            q,
        ).unwrap() - q,
    decreases a.len() - p,
{
    lemma_rest_further(a, p, b, q, 0);
    if p < a.len() {
        lemma_match_same_rest(token, a, p, b, q);
        if !matches_at(token, a, p) {
            lemma_rest_further(a, p, b, q, 1);
            lemma_first_match_same_rest(token, a, p + 1, b, q + 1);
        }
    }
}

/// What the scan makes of a text from a position on depends on nothing but
/// the text from that position on: two texts with the same rest give the
/// same result.
pub proof fn lemma_scan_depends_on_rest(
    a: Seq<char>,
    p: int,
    b: Seq<char>,
    q: int,
    tables: TokenTables,
)
    requires
        0 <= p <= a.len(),
        0 <= q <= b.len(),
        a.skip(p) == b.skip(q),
    ensures
        scan_code(a, p, tables) == scan_code(b, q, tables),
    decreases a.len() - p,
{
    lemma_rest_further(a, p, b, q, 0);
    if p < a.len() {
        lemma_first_opener_same_rest(tables.quotes, a, p, b, q, 0);
        lemma_first_opener_same_rest(tables.block_comments, a, p, b, q, 0);
        lemma_first_opener_same_rest(tables.nested_block_comments, a, p, b, q, 0);
        lemma_line_comment_same_rest(tables.line_comments, a, p, b, q);
        lemma_first_opener_least(tables.quotes, a, p, 0);
        lemma_first_opener_least(tables.block_comments, a, p, 0);
        lemma_first_opener_least(tables.nested_block_comments, a, p, 0);
        if let Some(quote) = quote_opener(tables, a, p) {
            let inside = quote.0.len() as int;
            lemma_rest_further(a, p, b, q, inside);
            lemma_literal_end_same_rest(a, p + inside, b, q + inside, quote.1);
            lemma_literal_end_bounds(a, p + inside, quote.1);
            let end = literal_end(a, p + inside, quote.1);
            lemma_rest_further(a, p, b, q, end - p);
            lemma_scan_depends_on_rest(a, end, b, q + (end - p), tables);
        } else if let Some(comment) = block_opener(tables, a, p) {
            let inside = comment.0.len() as int;
            lemma_rest_further(a, p, b, q, inside);
            lemma_first_match_same_rest(comment.1, a, p + inside, b, q + inside);
            lemma_first_match_least(comment.1, a, p + inside);
            if let Some(close) = first_match(comment.1, a, p + inside) {
                let behind = close + comment.1.len();
                lemma_rest_further(a, p, b, q, behind - p);
                lemma_scan_depends_on_rest(a, behind, b, q + (behind - p), tables);
            }
        } else if !line_comment_at(tables.line_comments, a, p) {
            lemma_rest_further(a, p, b, q, 1);
            lemma_scan_depends_on_rest(a, p + 1, b, q + 1, tables);
        }
    }
}

/// What stands inside a block comment makes no difference: two lines in
/// which the same comment opens in code, and which are the same behind the
/// end of the comment, give the same result from the start of the comment
/// on, whatever quote tokens either comment holds.
pub proof fn lemma_comment_text_ignored(
    a: Seq<char>,
    p: int,
    close_a: int,
    b: Seq<char>,
    q: int,
    close_b: int,
    comment: (Seq<char>, Seq<char>),
    tables: TokenTables,
)
    requires
        0 <= p < a.len(),
        0 <= q < b.len(),
        quote_opener(tables, a, p) is None,
        quote_opener(tables, b, q) is None,
        block_opener(tables, a, p) == Some(comment),
        block_opener(tables, b, q) == Some(comment),
        first_match(comment.1, a, p + comment.0.len()) == Some(close_a),
        first_match(comment.1, b, q + comment.0.len()) == Some(close_b),
        a.skip(close_a + comment.1.len()) == b.skip(close_b + comment.1.len()),
    ensures
        scan_code(a, p, tables) == scan_code(b, q, tables),
{
    lemma_first_opener_least(tables.block_comments, a, p, 0);
    lemma_first_opener_least(tables.nested_block_comments, a, p, 0);
    lemma_first_opener_least(tables.block_comments, b, q, 0);
    lemma_first_opener_least(tables.nested_block_comments, b, q, 0);
    lemma_first_match_least(comment.1, a, p + comment.0.len());
    lemma_first_match_least(comment.1, b, q + comment.0.len());
    lemma_scan_depends_on_rest(
        a,
        close_a + comment.1.len(),
        b,
        close_b + comment.1.len(),
        tables,
    );
}

/// Code in front of the first quote or comment token of a line is kept as
/// it stands.
pub proof fn lemma_plain_prefix_kept(line: Seq<char>, from: int, to: int, tables: TokenTables)
    requires
        0 <= from <= to <= line.len(),
        forall|j: int| from <= j < to ==> plain_at(tables, line, j),
    ensures
        scan_code(line, from, tables) == scan_code(line, to, tables).after(
            line.subrange(from, to),
        ),
    decreases to - from,
{
    if from < to {
        assert(plain_at(tables, line, from));
        lemma_plain_prefix_kept(line, from + 1, to, tables);
        assert(seq![line[from]] + line.subrange(from + 1, to) =~= line.subrange(from, to));
        assert(scan_code(line, from, tables).text =~= line.subrange(from, to) + scan_code(
            line,
            to,
            tables,
        ).text);
    } else {
        assert(line.subrange(from, to) + scan_code(line, to, tables).text =~= scan_code(
            line,
            to,
            tables,
        ).text);
    }
}

/// Lines inside a block comment that do not hold its end token leave the
/// output, and the comment stays open behind them.
pub proof fn lemma_comment_lines_vanish(
    inside: Seq<Seq<char>>,
    rest: Seq<Seq<char>>,
    terminator: Seq<char>,
    tables: TokenTables,
)
    requires
        forall|i: int|
            0 <= i < inside.len() ==> first_match(terminator, #[trigger] inside[i], 0) is None,
    ensures
        surviving_lines(inside + rest, ScanMode::Block(terminator), tables) == surviving_lines(
            rest,
            ScanMode::Block(terminator),
            tables,
        ),
    decreases inside.len(),
{
    if inside.len() == 0 {
        assert(inside + rest =~= rest);
    } else {
        let all = inside + rest;
        assert(all[0] == inside[0]);
        assert(all.drop_first() =~= inside.drop_first() + rest);
        assert(first_match(terminator, inside[0], 0) is None);
        assert forall|i: int| 0 <= i < inside.drop_first().len() implies first_match(
            terminator,
            #[trigger] inside.drop_first()[i],
            0,
        ) is None by {
            assert(inside.drop_first()[i] == inside[i + 1]);
        }
        lemma_comment_lines_vanish(inside.drop_first(), rest, terminator, tables);
    }
}

/// A block comment that spans several lines takes away exactly what it
/// covers. Let a comment open in code at `open_at` of the line `first`,
/// behind plain code, and close in the line `last`, with the lines `inside`
/// between them. Then of `first` the code in front of the comment is left,
/// the lines `inside` leave the output, of `last` what follows the end
/// token is scanned as code, and the lines behind are scanned from the mode
/// that this scan leaves.
pub proof fn lemma_block_comment_across_lines(
    first: Seq<char>,
    inside: Seq<Seq<char>>,
    last: Seq<char>,
    rest: Seq<Seq<char>>,
    open_at: int,
    comment: (Seq<char>, Seq<char>),
    close: int,
    tables: TokenTables,
)
    requires
        0 <= open_at < first.len(),
        forall|j: int| 0 <= j < open_at ==> plain_at(tables, first, j),
        quote_opener(tables, first, open_at) is None,
        block_opener(tables, first, open_at) == Some(comment),
        first_match(comment.1, first, open_at + comment.0.len()) is None,
        forall|i: int|
            0 <= i < inside.len() ==> first_match(comment.1, #[trigger] inside[i], 0) is None,
        first_match(comment.1, last, 0) == Some(close),
    ensures
        ({
            let head = first.subrange(0, open_at);
            let tail = scan_code(last, close + comment.1.len(), tables);
            surviving_lines(seq![first] + inside + seq![last] + rest, ScanMode::Code, tables) == (
            if line_dropped(first, ScanMode::Code, head) {
                Seq::<Seq<char>>::empty()
            } else {
                seq![head]
            }) + (if line_dropped(last, ScanMode::Block(comment.1), tail.text) {
                Seq::<Seq<char>>::empty()
            } else {
                seq![tail.text]
            }) + surviving_lines(rest, tail.mode, tables)
        }),
{
    let terminator = comment.1;
    let head = first.subrange(0, open_at);
    let tail = scan_code(last, close + terminator.len(), tables);
    let all = seq![first] + inside + seq![last] + rest;
    let behind = seq![last] + rest;
    lemma_plain_prefix_kept(first, 0, open_at, tables);
    assert(scan_code(first, open_at, tables) == nothing(ScanMode::Block(terminator)));
    assert(scan_line(first, ScanMode::Code, tables).text =~= head);
    assert(scan_line(first, ScanMode::Code, tables).mode == ScanMode::Block(terminator));
    assert(all[0] == first);
    assert(all.drop_first() =~= inside + behind);
    lemma_comment_lines_vanish(inside, behind, terminator, tables);
    assert(behind[0] == last);
    assert(behind.drop_first() =~= rest);
    let after_first = surviving_lines(inside + behind, ScanMode::Block(terminator), tables);
    assert(after_first == surviving_lines(behind, ScanMode::Block(terminator), tables));
    assert(scan_line(last, ScanMode::Block(terminator), tables) == tail);
    let kept_first = if line_dropped(first, ScanMode::Code, head) {
        Seq::<Seq<char>>::empty()
    } else {
        seq![head]
    };
    let kept_last = if line_dropped(last, ScanMode::Block(terminator), tail.text) {
        Seq::<Seq<char>>::empty()
    } else {
        seq![tail.text]
    };
    assert(after_first =~= kept_last + surviving_lines(rest, tail.mode, tables));
    assert(surviving_lines(all, ScanMode::Code, tables) =~= kept_first + after_first);
    assert(kept_first + (kept_last + surviving_lines(rest, tail.mode, tables)) =~= kept_first
        + kept_last + surviving_lines(rest, tail.mode, tables));
}

} // verus!
