//! Language descriptors: for each language the delimiter tokens that tell
//! string literals and comments apart from code, and its short tag.
//!
//! The tables themselves come from `tokei`; this module names them, turns
//! them into owned descriptors, and maps a language to the tag used in
//! rendered documents.

use tokei::LanguageType;
use vstd::prelude::*;

use crate::text::chars_of;

verus! {

/// `tokei::LanguageType`, which identifies a language: an enum with one
/// variant for each language and no fields. It is declared with its
/// variants, so that a `match` on a language is verified like any other.
#[verifier::external_type_specification]
pub struct ExLanguageType(LanguageType);

/// The quote pairs that `tokei` lists for a language, in its order.
pub uninterp spec fn quote_table(language: LanguageType) -> Seq<(Seq<char>, Seq<char>)>;

/// The line-comment tokens that `tokei` lists for a language, in its order.
pub uninterp spec fn line_comment_table(language: LanguageType) -> Seq<Seq<char>>;

/// The block-comment pairs that `tokei` lists for a language, in its order.
pub uninterp spec fn block_comment_table(language: LanguageType) -> Seq<(Seq<char>, Seq<char>)>;

/// The nested-comment pairs that `tokei` lists for a language, in its order.
pub uninterp spec fn nested_comment_table(language: LanguageType) -> Seq<(Seq<char>, Seq<char>)>;

/// The characters of each token of a list of borrowed tokens.
pub open spec fn token_views<'a>(tokens: Seq<&'a str>) -> Seq<Seq<char>> {
    Seq::new(tokens.len(), |i: int| tokens[i]@)
}

/// The characters of each token of a list of borrowed (start, end) pairs.
pub open spec fn pair_views<'a>(pairs: Seq<(&'a str, &'a str)>) -> Seq<(Seq<char>, Seq<char>)> {
    Seq::new(pairs.len(), |i: int| (pairs[i].0@, pairs[i].1@))
}

/// `LanguageType::quotes` returns the language's static table of quote
/// pairs; the table depends on the language alone.
pub assume_specification[ LanguageType::quotes ](language: LanguageType) -> (pairs: &'static [(
    &'static str,
    &'static str,
)])
    ensures
        pair_views(pairs@) == quote_table(language),
;

/// `LanguageType::line_comments` returns the language's static table of
/// line-comment tokens; the table depends on the language alone.
pub assume_specification[ LanguageType::line_comments ](language: LanguageType) -> (tokens:
    &'static [&'static str])
    ensures
        token_views(tokens@) == line_comment_table(language),
;

/// `LanguageType::multi_line_comments` returns the language's static table
/// of block-comment pairs; the table depends on the language alone.
pub assume_specification[ LanguageType::multi_line_comments ](language: LanguageType) -> (pairs:
    &'static [(&'static str, &'static str)])
    ensures
        pair_views(pairs@) == block_comment_table(language),
;

/// `LanguageType::nested_comments` returns the language's static table of
/// nested-comment pairs; the table depends on the language alone.
pub assume_specification[ LanguageType::nested_comments ](language: LanguageType) -> (pairs:
    &'static [(&'static str, &'static str)])
    ensures
        pair_views(pairs@) == nested_comment_table(language),
;

/// The delimiter tokens of one language, as character sequences.
///
/// Tokens are matched by literal prefix in table order, and the first match
/// wins, so a token must be listed before any other token that is a prefix
/// of it.
pub struct TokenTables {
    /// String-literal delimiters, as (start, end) pairs.
    pub quotes: Seq<(Seq<char>, Seq<char>)>,
    /// Tokens that open a comment running to the end of the line.
    pub line_comments: Seq<Seq<char>>,
    /// Block-comment delimiters, as (start, end) pairs.
    pub block_comments: Seq<(Seq<char>, Seq<char>)>,
    /// Delimiters of comments that the language lets nest, as (start, end) pairs.
    pub nested_block_comments: Seq<(Seq<char>, Seq<char>)>,
}

impl TokenTables {
    /// Whether no token of the tables is empty.
    pub open spec fn well_formed(self) -> bool {
        &&& pairs_nonempty(self.quotes)
        &&& tokens_nonempty(self.line_comments)
        &&& pairs_nonempty(self.block_comments)
        &&& pairs_nonempty(self.nested_block_comments)
    }
}

/// Whether no token of the list is empty.
pub open spec fn tokens_nonempty(tokens: Seq<Seq<char>>) -> bool {
    forall|i: int| 0 <= i < tokens.len() ==> (#[trigger] tokens[i]).len() > 0
}

/// Whether no start or end token of the list is empty.
pub open spec fn pairs_nonempty(pairs: Seq<(Seq<char>, Seq<char>)>) -> bool {
    forall|i: int|
        0 <= i < pairs.len() ==> (#[trigger] pairs[i]).0.len() > 0 && pairs[i].1.len() > 0
}

/// The tables that `tokei` holds for a language.
pub open spec fn tables_of(language: LanguageType) -> TokenTables {
    TokenTables {
        quotes: quote_table(language),
        line_comments: line_comment_table(language),
        block_comments: block_comment_table(language),
        nested_block_comments: nested_comment_table(language),
    }
}

/// The characters of each token of a list of owned tokens.
pub open spec fn tokens_of(tokens: Seq<Vec<char>>) -> Seq<Seq<char>> {
    Seq::new(tokens.len(), |i: int| tokens[i]@)
}

/// The characters of each token of a list of owned (start, end) pairs.
pub open spec fn pairs_of(pairs: Seq<(Vec<char>, Vec<char>)>) -> Seq<(Seq<char>, Seq<char>)> {
    Seq::new(pairs.len(), |i: int| (pairs[i].0@, pairs[i].1@))
}

/// The delimiter tokens of one language, owned and ready for matching.
///
/// A descriptor is well formed when none of its tokens is empty. An empty
/// token is accepted and matches nowhere.
#[derive(Debug)]
pub struct LanguageDescriptor {
    /// String-literal delimiters, as (start, end) pairs.
    pub quotes: Vec<(Vec<char>, Vec<char>)>,
    /// Tokens that open a comment running to the end of the line.
    pub line_comments: Vec<Vec<char>>,
    /// Block-comment delimiters, as (start, end) pairs.
    pub block_comments: Vec<(Vec<char>, Vec<char>)>,
    /// Delimiters of comments that the language lets nest, as (start, end) pairs.
    pub nested_block_comments: Vec<(Vec<char>, Vec<char>)>,
}

impl View for LanguageDescriptor {
    type V = TokenTables;

    open spec fn view(&self) -> TokenTables {
        TokenTables {
            quotes: pairs_of(self.quotes@),
            line_comments: tokens_of(self.line_comments@),
            block_comments: pairs_of(self.block_comments@),
            nested_block_comments: pairs_of(self.nested_block_comments@),
        }
    }
}

fn owned_tokens(tokens: &[&str]) -> (owned: Vec<Vec<char>>)
    ensures
        tokens_of(owned@) == token_views(tokens@),
{
    let mut owned: Vec<Vec<char>> = Vec::new();
    let mut i: usize = 0;
    while i < tokens.len()
        invariant
            i <= tokens.len(),
            owned.len() == i,
            forall|j: int| 0 <= j < i ==> (#[trigger] owned@[j])@ == tokens@[j]@,
        decreases tokens.len() - i,
    {
        owned.push(chars_of(tokens[i]));
        i += 1;
    }
    assert(tokens_of(owned@) =~= token_views(tokens@));
    owned
}

fn owned_pairs(pairs: &[(&str, &str)]) -> (owned: Vec<(Vec<char>, Vec<char>)>)
    ensures
        pairs_of(owned@) == pair_views(pairs@),
{
    let mut owned: Vec<(Vec<char>, Vec<char>)> = Vec::new();
    let mut i: usize = 0;
    while i < pairs.len()
        invariant
            i <= pairs.len(),
            owned.len() == i,
            forall|j: int|
                0 <= j < i ==> (#[trigger] owned@[j]).0@ == pairs@[j].0@ && owned@[j].1@
                    == pairs@[j].1@,
        decreases pairs.len() - i,
    {
        owned.push((chars_of(pairs[i].0), chars_of(pairs[i].1)));
        i += 1;
    }
    assert(pairs_of(owned@) =~= pair_views(pairs@));
    owned
}

fn all_tokens_nonempty(tokens: &Vec<Vec<char>>) -> (b: bool)
    ensures
        b == tokens_nonempty(tokens_of(tokens@)),
{
    let mut i: usize = 0;
    while i < tokens.len()
        invariant
            i <= tokens.len(),
            forall|j: int| 0 <= j < i ==> (#[trigger] tokens_of(tokens@)[j]).len() > 0,
        decreases tokens.len() - i,
    {
        if tokens[i].len() == 0 {
            assert(tokens_of(tokens@)[i as int].len() == 0);
            return false;
        }
        i += 1;
    }
    true
}

fn all_pairs_nonempty(pairs: &Vec<(Vec<char>, Vec<char>)>) -> (b: bool)
    ensures
        b == pairs_nonempty(pairs_of(pairs@)),
{
    let mut i: usize = 0;
    while i < pairs.len()
        invariant
            i <= pairs.len(),
            forall|j: int|
                0 <= j < i ==> (#[trigger] pairs_of(pairs@)[j]).0.len() > 0 && pairs_of(
                    pairs@,
                )[j].1.len() > 0,
        decreases pairs.len() - i,
    {
        if pairs[i].0.len() == 0 || pairs[i].1.len() == 0 {
            assert(pairs_of(pairs@)[i as int].0.len() == 0 || pairs_of(pairs@)[i as int].1.len()
                == 0);
            return false;
        }
        i += 1;
    }
    true
}

impl LanguageDescriptor {
    /// A descriptor with the given tables, each in the given order.
    pub fn new(
        quotes: &[(&str, &str)],
        line_comments: &[&str],
        block_comments: &[(&str, &str)],
        nested_block_comments: &[(&str, &str)],
    ) -> (descriptor: Self)
        ensures
            descriptor@ == (TokenTables {
                quotes: pair_views(quotes@),
                line_comments: token_views(line_comments@),
                block_comments: pair_views(block_comments@),
                nested_block_comments: pair_views(nested_block_comments@),
            }),
    {
        LanguageDescriptor {
            quotes: owned_pairs(quotes),
            line_comments: owned_tokens(line_comments),
            block_comments: owned_pairs(block_comments),
            nested_block_comments: owned_pairs(nested_block_comments),
        }
    }

    /// Whether no token of the descriptor is empty.
    pub fn is_well_formed(&self) -> (b: bool)
        ensures
            b == self@.well_formed(),
    {
        all_pairs_nonempty(&self.quotes) && all_tokens_nonempty(&self.line_comments)
            && all_pairs_nonempty(&self.block_comments) && all_pairs_nonempty(
            &self.nested_block_comments,
        )
    }
}

/// The descriptor of a language, with the tables that `tokei` holds for it.
pub fn describe(language: LanguageType) -> (descriptor: LanguageDescriptor)
    ensures
        descriptor@ == tables_of(language),
{
    LanguageDescriptor::new(
        language.quotes(),
        language.line_comments(),
        language.multi_line_comments(),
        language.nested_comments(),
    )
}

/// The short lower-case tag of a language, `text` where it has none of its own.
pub open spec fn language_tag(language: LanguageType) -> Seq<char> {
    match language {
        LanguageType::Rust => "rust"@,
        LanguageType::TypeScript => "ts"@,
        LanguageType::JavaScript => "js"@,
        LanguageType::Python => "python"@,
        LanguageType::C => "c"@,
        LanguageType::Cpp => "cpp"@,
        LanguageType::Go => "go"@,
        LanguageType::Java => "java"@,
        LanguageType::Kotlin => "kotlin"@,
        LanguageType::Swift => "swift"@,
        LanguageType::Ruby => "ruby"@,
        LanguageType::Scala => "scala"@,
        LanguageType::Haskell => "haskell"@,
        _ => "text"@,
    }
}

/// The tag that marks a fenced block of the given language.
pub fn language_name(lang: LanguageType) -> (name: &'static str)
    ensures
        name@ == language_tag(lang),
{
    match lang {
        LanguageType::Rust => "rust",
        LanguageType::TypeScript => "ts",
        LanguageType::JavaScript => "js",
        LanguageType::Python => "python",
        LanguageType::C => "c",
        LanguageType::Cpp => "cpp",
        LanguageType::Go => "go",
        LanguageType::Java => "java",
        LanguageType::Kotlin => "kotlin",
        LanguageType::Swift => "swift",
        LanguageType::Ruby => "ruby",
        LanguageType::Scala => "scala",
        LanguageType::Haskell => "haskell",
        _ => "text",
    }
}

} // verus!
