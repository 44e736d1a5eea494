//! The comment stripper: the scan of `crate::scan`, carried out on strings.

use tokei::LanguageType;
use vstd::prelude::*;

use crate::language::{describe, pairs_of, tables_of, tokens_of, LanguageDescriptor};
use crate::scan::{
    block_opener, first_opener, lemma_first_opener_least, line_comment_at, line_dropped,
    literal_end, quote_opener, scan_code, scan_line, stripped, surviving_lines, ScanMode,
};
use crate::text::{
    blank, chars_of, copy_range, find_token, join_lines, lemma_first_match_least, line_end,
    lines_from, matches_at, split_lines, string_of, token_matches,
};

verus! {

/// The state that a scan carries from one line of a file to the next.
///
/// A fresh state belongs to the start of a file. Inside a block comment the
/// string flag is not looked at.
#[derive(Debug)]
pub struct ScanState {
    /// Whether a string literal is open.
    pub in_string: bool,
    /// The token that closes the open string literal.
    pub string_terminator: Vec<char>,
    /// Whether a block comment is open.
    pub in_block_comment: bool,
    /// The token that closes the open block comment.
    pub block_terminator: Vec<char>,
}

impl View for ScanState {
    type V = ScanMode;

    open spec fn view(&self) -> ScanMode {
        if self.in_block_comment {
            ScanMode::Block(self.block_terminator@)
        } else if self.in_string {
            ScanMode::Literal(self.string_terminator@)
        } else {
            ScanMode::Code
        }
    }
}

impl ScanState {
    /// The state at the start of a file: in code, with no string literal
    /// and no block comment open, and no terminator pending.
    pub fn new() -> (state: Self)
        ensures
            state@ == ScanMode::Code,
            !state.in_string,
            !state.in_block_comment,
            state.string_terminator@ == Seq::<char>::empty(),
            state.block_terminator@ == Seq::<char>::empty(),
    {
        ScanState {
            in_string: false,
            string_terminator: Vec::new(),
            in_block_comment: false,
            block_terminator: Vec::new(),
        }
    }
}

/// The mode that an open block comment, or none, leaves for the next line.
pub open spec fn block_mode(open: Option<Vec<char>>) -> ScanMode {
    match open {
        Some(terminator) => ScanMode::Block(terminator@),
        None => ScanMode::Code,
    }
}

fn opener_index(pairs: &Vec<(Vec<char>, Vec<char>)>, text: &Vec<char>, pos: usize) -> (found:
    Option<usize>)
    ensures
        match found {
            Some(k) => k < pairs.len() && first_opener(pairs_of(pairs@), text@, pos as int, 0)
                == Some(k as int),
            None => first_opener(pairs_of(pairs@), text@, pos as int, 0) is None,
        },
{
    let mut k: usize = 0;
    while k < pairs.len()
        invariant
            k <= pairs.len(),
            first_opener(pairs_of(pairs@), text@, pos as int, 0) == first_opener(
                pairs_of(pairs@),
                text@,
                pos as int,
                k as int,
            ),
        decreases pairs.len() - k,
    {
        if token_matches(&pairs[k].0, text, pos) {
            return Some(k);
        }
        k += 1;
    }
    None
}

fn block_pair<'a>(descriptor: &'a LanguageDescriptor, text: &Vec<char>, pos: usize) -> (found:
    Option<&'a (Vec<char>, Vec<char>)>)
    ensures
        match found {
            Some(pair) => block_opener(descriptor@, text@, pos as int) == Some((pair.0@, pair.1@)),
            None => block_opener(descriptor@, text@, pos as int) is None,
        },
{
    match opener_index(&descriptor.block_comments, text, pos) {
        Some(k) => Some(&descriptor.block_comments[k]),
        None => match opener_index(&descriptor.nested_block_comments, text, pos) {
            Some(k) => Some(&descriptor.nested_block_comments[k]),
            None => None,
        },
    }
}

fn line_comment_here(tokens: &Vec<Vec<char>>, text: &Vec<char>, pos: usize) -> (b: bool)
    ensures
        b == line_comment_at(tokens_of(tokens@), text@, pos as int),
{
    let mut k: usize = 0;
    while k < tokens.len()
        invariant
            k <= tokens.len(),
            forall|j: int|
                0 <= j < k ==> !matches_at(#[trigger] tokens_of(tokens@)[j], text@, pos as int),
        decreases tokens.len() - k,
    {
        if token_matches(&tokens[k], text, pos) {
            assert(matches_at(tokens_of(tokens@)[k as int], text@, pos as int));
            return true;
        }
        k += 1;
    }
    false
}

fn literal_close(text: &Vec<char>, pos: usize, terminator: &Vec<char>) -> (end: usize)
    requires
        pos <= text.len(),
    ensures
        end == literal_end(text@, pos as int, terminator@),
        pos <= end <= text.len(),
{
    let mut p: usize = pos;
    while p < text.len()
        invariant
            pos <= p <= text.len(),
            literal_end(text@, pos as int, terminator@) == literal_end(
                text@,
                p as int,
                terminator@,
            ),
        decreases text.len() - p,
    {
        if token_matches(terminator, text, p) {
            return p + terminator.len();
        }
        if text[p] == '\\' && p + 1 < text.len() {
            p += 2;
        } else {
            p += 1;
        }
    }
    p
}

fn scan_from(
    text: &Vec<char>,
    start: usize,
    descriptor: &LanguageDescriptor,
    out: &mut Vec<char>,
) -> (open: Option<Vec<char>>)
    requires
        start <= text.len(),
    ensures
        final(out)@ == old(out)@ + scan_code(text@, start as int, descriptor@).text,
        block_mode(open) == scan_code(text@, start as int, descriptor@).mode,
{
    let ghost before = out@;
    let ghost whole = scan_code(text@, start as int, descriptor@);
    let mut pos: usize = start;
    while pos < text.len()
        invariant
            start <= pos <= text.len(),
            before == old(out)@,
            whole == scan_code(text@, start as int, descriptor@),
            before + whole.text == out@ + scan_code(text@, pos as int, descriptor@).text,
            whole.mode == scan_code(text@, pos as int, descriptor@).mode,
        decreases text.len() - pos,
    {
        proof {
            lemma_first_opener_least(descriptor@.quotes, text@, pos as int, 0);
            lemma_first_opener_least(descriptor@.block_comments, text@, pos as int, 0);
            lemma_first_opener_least(descriptor@.nested_block_comments, text@, pos as int, 0);
        }
        match opener_index(&descriptor.quotes, text, pos) {
            Some(k) => {
                let quote = &descriptor.quotes[k];
                assert(quote_opener(descriptor@, text@, pos as int) == Some((quote.0@, quote.1@)));
                let end = literal_close(text, pos + quote.0.len(), &quote.1);
                copy_range(text, pos, end, out);
                assert(out@ + scan_code(text@, end as int, descriptor@).text =~= before
                    + whole.text);
                pos = end;
            },
            None => {
                assert(quote_opener(descriptor@, text@, pos as int) is None);
                match block_pair(descriptor, text, pos) {
                    Some(pair) => {
                        proof {
                            lemma_first_match_least(pair.1@, text@, pos + pair.0@.len());
                        }
                        match find_token(&pair.1, text, pos + pair.0.len()) {
                            Some(close) => {
                                pos = close + pair.1.len();
                            },
                            None => {
                                let mut terminator: Vec<char> = Vec::new();
                                copy_range(&pair.1, 0, pair.1.len(), &mut terminator);
                                assert(terminator@ =~= pair.1@);
                                assert(out@ =~= before + whole.text);
                                return Some(terminator);
                            },
                        }
                    },
                    None => {
                        if line_comment_here(&descriptor.line_comments, text, pos) {
                            assert(out@ =~= before + whole.text);
                            return None;
                        }
                        out.push(text[pos]);
                        assert(out@ + scan_code(text@, pos + 1, descriptor@).text =~= before
                            + whole.text);
                        pos += 1;
                    },
                }
            },
        }
    }
    assert(out@ =~= before + whole.text);
    None
}

fn scan_line_into(
    line: &Vec<char>,
    state: &mut ScanState,
    descriptor: &LanguageDescriptor,
    out: &mut Vec<char>,
)
    ensures
        final(out)@ == old(out)@ + scan_line(line@, old(state)@, descriptor@).text,
        final(state)@ == scan_line(line@, old(state)@, descriptor@).mode,
        !final(state).in_string,
{
    let ghost before = out@;
    let mut start: usize = 0;
    if state.in_block_comment {
        match find_token(&state.block_terminator, line, 0) {
            Some(close) => {
                proof {
                    lemma_first_match_least(state.block_terminator@, line@, 0);
                }
                assert(close + state.block_terminator@.len() <= line.len());
                start = close + state.block_terminator.len();
            },
            None => {
                state.in_string = false;
                assert(out@ =~= before + Seq::<char>::empty());
                return;
            },
        }
    } else if state.in_string {
        let end = literal_close(line, 0, &state.string_terminator);
        copy_range(line, 0, end, out);
        start = end;
    }
    let open = scan_from(line, start, descriptor, out);
    assert(out@ =~= before + scan_line(line@, old(state)@, descriptor@).text);
    state.in_string = false;
    match open {
        Some(terminator) => {
            state.in_block_comment = true;
            state.block_terminator = terminator;
        },
        None => {
            state.in_block_comment = false;
        },
    }
}

/// Scans one line in the given state: returns what is kept of the line and
/// leaves in `state` the state in which the next line starts.
pub fn process_line(line: &str, state: &mut ScanState, descriptor: &LanguageDescriptor) -> (kept:
    String)
    ensures
        kept@ == scan_line(line@, old(state)@, descriptor@).text,
        final(state)@ == scan_line(line@, old(state)@, descriptor@).mode,
        !final(state).in_string,
{
    let chars = chars_of(line);
    let mut out: Vec<char> = Vec::new();
    scan_line_into(&chars, state, descriptor, &mut out);
    assert(out@ =~= scan_line(line@, old(state)@, descriptor@).text);
    string_of(&out)
}

fn line_end_from(text: &Vec<char>, from: usize) -> (end: usize)
    requires
        from <= text.len(),
    ensures
        end == line_end(text@, from as int),
        from <= end <= text.len(),
{
    let mut p: usize = from;
    while p < text.len()
        invariant
            from <= p <= text.len(),
            line_end(text@, from as int) == line_end(text@, p as int),
        decreases text.len() - p,
    {
        if text[p] == '\n' {
            return p;
        }
        p += 1;
    }
    p
}

/// Removes the comments from `content`, by the tables of `descriptor`.
///
/// The content is scanned line by line from the state of a fresh file.
/// Lines that held nothing but a comment, or part of one, are left out;
/// the others are joined again, and the result ends with a line terminator
/// if `content` does.
pub fn strip_comments(content: &str, descriptor: &LanguageDescriptor) -> (result: String)
    ensures
        result@ == stripped(content@, descriptor@),
{
    let text = chars_of(content);
    let n = text.len();
    let mut out: Vec<char> = Vec::new();
    let mut state = ScanState::new();
    let mut pos: usize = 0;
    let mut any = false;
    let ghost mut kept: Seq<Seq<char>> = Seq::empty();
    assert(kept + surviving_lines(lines_from(text@, 0), state@, descriptor@) =~= surviving_lines(
        split_lines(text@),
        ScanMode::Code,
        descriptor@,
    ));
    while pos < n
        invariant
            pos <= n,
            n == text.len(),
            !state.in_string,
            any == (kept.len() > 0),
            out@ == join_lines(kept),
            surviving_lines(split_lines(text@), ScanMode::Code, descriptor@) == kept
                + surviving_lines(lines_from(text@, pos as int), state@, descriptor@),
        decreases n - pos,
    {
        let end = line_end_from(&text, pos);
        let mut line: Vec<char> = Vec::new();
        copy_range(&text, pos, end, &mut line);
        assert(line@ =~= text@.subrange(pos as int, end as int));
        let ghost mode = state@;
        let ghost rest = if end < n {
            lines_from(text@, end + 1)
        } else {
            Seq::empty()
        };
        let ghost lines = lines_from(text@, pos as int);
        assert(lines =~= seq![line@] + rest);
        assert(lines.drop_first() =~= rest);
        let was_in_block = state.in_block_comment;
        let mut piece: Vec<char> = Vec::new();
        scan_line_into(&line, &mut state, descriptor, &mut piece);
        assert(piece@ =~= scan_line(line@, mode, descriptor@).text);
        let dropped = (was_in_block && piece.len() == 0) || (blank(&piece) && !blank(&line));
        assert(dropped == line_dropped(line@, mode, piece@));
        if !dropped {
            if any {
                out.push('\n');
            }
            copy_range(&piece, 0, piece.len(), &mut out);
            proof {
                let longer = kept.push(piece@);
                assert(longer.drop_last() =~= kept);
                assert(piece@.subrange(0, piece@.len() as int) =~= piece@);
                assert(out@ =~= join_lines(longer));
                assert(longer + surviving_lines(rest, state@, descriptor@) =~= kept + (seq![
                    piece@,
                ] + surviving_lines(rest, state@, descriptor@)));
                kept = longer;
            }
            any = true;
        }
        if end < n {
            pos = end + 1;
        } else {
            pos = end;
        }
    }
    assert(lines_from(text@, pos as int) =~= Seq::<Seq<char>>::empty());
    assert(kept + Seq::<Seq<char>>::empty() =~= kept);
    if n > 0 && text[n - 1] == '\n' {
        out.push('\n');
    }
    assert(out@ =~= stripped(content@, descriptor@));
    string_of(&out)
}

/// Removes the comments from `content`, by the tables that `tokei` holds
/// for `language_type`.
pub fn remove_comments(content: &str, language_type: LanguageType) -> (result: String)
    ensures
        result@ == stripped(content@, tables_of(language_type)),
{
    let descriptor = describe(language_type);
    strip_comments(content, &descriptor)
}

} // verus!
