//! The comment-aware scan, stated over character sequences.
//!
//! A line is read from left to right. At every position the scan is in one of
//! three modes: in code, inside a string literal, or inside a block comment.
//! Text in code and in literals is copied, comments are left out.

use vstd::prelude::*;

use crate::language::TokenTables;
use crate::text::{
    closing_newline, escape, first_match, is_blank, join_lines, lemma_first_match_least,
    matches_at, split_lines,
};

verus! {

/// Where a scan stands between two characters.
pub enum ScanMode {
    /// In code: quotes and comment tokens are recognised.
    Code,
    /// Inside a string literal that the given token closes.
    Literal(Seq<char>),
    /// Inside a block comment that the given token closes.
    Block(Seq<char>),
}

/// What scanning a stretch of text gives: the text that is kept, and the
/// mode in which the next line starts.
pub struct Scanned {
    /// The characters that were copied.
    pub text: Seq<char>,
    /// `Block` if a block comment is still open at the end, else `Code`.
    pub mode: ScanMode,
}

impl Scanned {
    /// The same result with `front` copied before it.
    pub open spec fn after(self, front: Seq<char>) -> Scanned {
        Scanned { text: front + self.text, mode: self.mode }
    }
}

/// The result of a scan that copies nothing and ends in `mode`.
pub open spec fn nothing(mode: ScanMode) -> Scanned {
    Scanned { text: Seq::empty(), mode }
}

/// The index of the first pair at or after `from` whose start token occurs
/// in `text` at `pos`.
pub open spec fn first_opener(
    pairs: Seq<(Seq<char>, Seq<char>)>,
    text: Seq<char>,
    pos: int,
    from: int,
) -> Option<int>
    decreases pairs.len() - from,
{
    if from < 0 || from >= pairs.len() {
        None
    } else if matches_at(pairs[from].0, text, pos) {
        Some(from)
    } else {
        first_opener(pairs, text, pos, from + 1)
    }
}

/// `first_opener` returns the least index at or after `from` of a pair whose
/// start token occurs at `pos`, and `None` exactly when there is none.
pub proof fn lemma_first_opener_least(
    pairs: Seq<(Seq<char>, Seq<char>)>,
    text: Seq<char>,
    pos: int,
    from: int,
)
    requires
        0 <= from,
    ensures
        match first_opener(pairs, text, pos, from) {
            Some(k) => {
                &&& from <= k < pairs.len()
                &&& matches_at(pairs[k].0, text, pos)
                &&& forall|j: int| from <= j < k ==> !matches_at(#[trigger] pairs[j].0, text, pos)
            },
            None => forall|j: int|
                from <= j < pairs.len() ==> !matches_at(#[trigger] pairs[j].0, text, pos),
        },
    decreases pairs.len() - from,
{
    if from < pairs.len() && !matches_at(pairs[from].0, text, pos) {
        lemma_first_opener_least(pairs, text, pos, from + 1);
    }
}

/// The quote pair that opens a string literal at `pos`: the first one in
/// table order whose start token occurs there.
pub open spec fn quote_opener(tables: TokenTables, text: Seq<char>, pos: int) -> Option<
    (Seq<char>, Seq<char>),
> {
    match first_opener(tables.quotes, text, pos, 0) {
        Some(k) => Some(tables.quotes[k]),
        None => None,
    }
}

/// The comment pair that opens a block comment at `pos`: the first block
/// pair in table order whose start token occurs there, else the first such
/// nested pair.
pub open spec fn block_opener(tables: TokenTables, text: Seq<char>, pos: int) -> Option<
    (Seq<char>, Seq<char>),
> {
    match first_opener(tables.block_comments, text, pos, 0) {
        Some(k) => Some(tables.block_comments[k]),
        None => match first_opener(tables.nested_block_comments, text, pos, 0) {
            Some(k) => Some(tables.nested_block_comments[k]),
            None => None,
        },
    }
}

/// Whether one of the line-comment tokens occurs in `text` at `pos`.
pub open spec fn line_comment_at(tokens: Seq<Seq<char>>, text: Seq<char>, pos: int) -> bool {
    exists|k: int| 0 <= k < tokens.len() && matches_at(#[trigger] tokens[k], text, pos)
}

/// Where a string literal ends that is open at `pos`: just behind the first
/// occurrence of `terminator` that no escape marker skips, or at the end of
/// the text when there is none.
///
/// The terminator is looked for at `pos` first. Failing that, an escape
/// marker with a character behind it passes over both, and any other
/// character is passed over alone. No other token plays a part.
pub open spec fn literal_end(text: Seq<char>, pos: int, terminator: Seq<char>) -> int
    decreases text.len() - pos,
{
    if pos < 0 || pos >= text.len() {
        text.len() as int
    } else if matches_at(terminator, text, pos) {
        pos + terminator.len()
    } else if text[pos] == escape() && pos + 1 < text.len() {
        literal_end(text, pos + 2, terminator)
    } else {
        literal_end(text, pos + 1, terminator)
    }
}

/// A literal open at `pos` ends at or behind `pos`, within the text, and
/// behind `pos` unless `pos` is the end of the text.
pub proof fn lemma_literal_end_bounds(text: Seq<char>, pos: int, terminator: Seq<char>)
    requires
        0 <= pos <= text.len(),
    ensures
        pos <= literal_end(text, pos, terminator) <= text.len(),
        pos < text.len() ==> pos < literal_end(text, pos, terminator),
    decreases text.len() - pos,
{
    if pos < text.len() && !matches_at(terminator, text, pos) {
        if text[pos] == escape() && pos + 1 < text.len() {
            lemma_literal_end_bounds(text, pos + 2, terminator);
        } else {
            lemma_literal_end_bounds(text, pos + 1, terminator);
        }
    }
}

/// Scanning `text` in code from `pos` to its end.
///
/// At each position, in this order:
/// - a quote opener starts a literal, which is copied whole, start and end
///   token included, and the scan goes on in code behind it;
/// - a block-comment opener starts a comment: if its end token occurs later
///   in the text, the scan goes on in code behind that, else the scan stops
///   with the comment open;
/// - a line-comment token stops the scan;
/// - any other character is copied.
///
/// Only one comment is ever open: a nested pair is handled like a block
/// pair, and the first end token closes the comment at whatever depth.
pub open spec fn scan_code(text: Seq<char>, pos: int, tables: TokenTables) -> Scanned
    decreases text.len() - pos,
    via scan_code_decreases
{
    if pos < 0 || pos >= text.len() {
        nothing(ScanMode::Code)
    } else if let Some(quote) = quote_opener(tables, text, pos) {
        let end = literal_end(text, pos + quote.0.len(), quote.1);
        scan_code(text, end, tables).after(text.subrange(pos, end))
    } else if let Some(comment) = block_opener(tables, text, pos) {
        match first_match(comment.1, text, pos + comment.0.len()) {
            Some(close) => scan_code(text, close + comment.1.len(), tables),
            None => nothing(ScanMode::Block(comment.1)),
        }
    } else if line_comment_at(tables.line_comments, text, pos) {
        nothing(ScanMode::Code)
    } else {
        scan_code(text, pos + 1, tables).after(seq![text[pos]])
    }
}

#[via_fn]
proof fn scan_code_decreases(text: Seq<char>, pos: int, tables: TokenTables) {
    if 0 <= pos < text.len() {
        lemma_first_opener_least(tables.quotes, text, pos, 0);
        lemma_first_opener_least(tables.block_comments, text, pos, 0);
        lemma_first_opener_least(tables.nested_block_comments, text, pos, 0);
        if let Some(quote) = quote_opener(tables, text, pos) {
            lemma_literal_end_bounds(text, pos + quote.0.len(), quote.1);
        } else if let Some(comment) = block_opener(tables, text, pos) {
            lemma_first_match_least(comment.1, text, pos + comment.0.len());
        }
    }
}

/// Scanning one line that starts in `mode`.
///
/// In code the whole line is scanned as code. Inside a literal the literal
/// is copied up to its end and the rest is scanned as code. Inside a block
/// comment everything up to and including the first end token is left out
/// and the rest is scanned as code; without an end token the whole line is
/// left out and the comment stays open. A literal never stays open beyond
/// its line.
pub open spec fn scan_line(line: Seq<char>, mode: ScanMode, tables: TokenTables) -> Scanned {
    match mode {
        ScanMode::Code => scan_code(line, 0, tables),
        ScanMode::Literal(terminator) => {
            let end = literal_end(line, 0, terminator);
            scan_code(line, end, tables).after(line.subrange(0, end))
        },
        ScanMode::Block(terminator) => match first_match(terminator, line, 0) {
            Some(close) => scan_code(line, close + terminator.len(), tables),
            None => nothing(ScanMode::Block(terminator)),
        },
    }
}

/// Whether a line leaves the output altogether: a line that started inside
/// a block comment and gave nothing, or one that held something other than
/// white space of which only white space is left.
pub open spec fn line_dropped(line: Seq<char>, before: ScanMode, kept: Seq<char>) -> bool {
    ||| before is Block && kept.len() == 0
    ||| is_blank(kept) && !is_blank(line)
}

/// What is left of `lines`, scanned in order starting in `mode`: of each
/// line that is not dropped, the text that its scan keeps.
pub open spec fn surviving_lines(lines: Seq<Seq<char>>, mode: ScanMode, tables: TokenTables) -> Seq<
    Seq<char>,
>
    decreases lines.len(),
{
    if lines.len() == 0 {
        Seq::empty()
    } else {
        let scanned = scan_line(lines[0], mode, tables);
        let rest = surviving_lines(lines.drop_first(), scanned.mode, tables);
        if line_dropped(lines[0], mode, scanned.text) {
            rest
        } else {
            seq![scanned.text] + rest
        }
    }
}

/// `content` without its comments: the surviving lines, joined by line
/// terminators, and closed by one if `content` was.
pub open spec fn stripped(content: Seq<char>, tables: TokenTables) -> Seq<char> {
    join_lines(surviving_lines(split_lines(content), ScanMode::Code, tables)) + closing_newline(
        content,
    )
}

} // verus!
