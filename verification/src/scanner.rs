//! The scanner: what to collect, how a collected file becomes an entry, and
//! how the entries become one document.
//!
//! Walking directories and reading files is left to the caller, who hands
//! over what was found.

use std::path::PathBuf;

use tokei::LanguageType;
use vstd::prelude::*;

pub use crate::language::language_name;
use crate::language::tables_of;
use crate::render::{render, rendered, sort_entries, sorted_by_path, SourceEntry};
use crate::scan::stripped;
pub use crate::stripper::remove_comments;
use crate::text::{chars_of, copy_range, string_of};

verus! {

/// `std::path::PathBuf`, carried through as it is.
#[verifier::external_type_specification]
#[verifier::external_body]
pub struct ExPathBuf(PathBuf);

/// The marker that turns a pattern into an exclusion.
pub open spec fn exclusion_marker() -> char {
    '!'
}

/// What a scanner was set up with.
pub struct ScannerSettings {
    /// The roots to walk.
    pub paths: Seq<PathBuf>,
    /// The patterns of what to leave out.
    pub excluded: Seq<String>,
    /// Whether hidden files and directories are walked too.
    pub include_hidden: bool,
    /// Whether comments are removed from the files' text.
    pub strip_comments: bool,
    /// Where the document will be written, which is then left out.
    pub output_path: Option<PathBuf>,
}

/// Collects source files under a set of roots into one document.
pub struct CodeScanner {
    paths: Vec<PathBuf>,
    excluded: Vec<String>,
    include_hidden: bool,
    strip_comments: bool,
    output_path: Option<PathBuf>,
}

impl View for CodeScanner {
    type V = ScannerSettings;

    closed spec fn view(&self) -> ScannerSettings {
        ScannerSettings {
            paths: self.paths@,
            excluded: self.excluded@,
            include_hidden: self.include_hidden,
            strip_comments: self.strip_comments,
            output_path: self.output_path,
        }
    }
}

/// The content of an entry made from a file's text: the text without its
/// comments where comments are stripped, else the text as it is.
pub open spec fn entry_content(
    strip_comments: bool,
    text: Seq<char>,
    language: LanguageType,
) -> Seq<char> {
    if strip_comments {
        stripped(text, tables_of(language))
    } else {
        text
    }
}

/// `path` with every backslash replaced by a forward slash.
pub open spec fn forward_slashed(path: Seq<char>) -> Seq<char> {
    Seq::new(
        path.len(),
        |i: int|
            if path[i] == '\\' {
                '/'
            } else {
                path[i]
            },
    )
}

impl CodeScanner {
    /// A scanner with the given settings.
    pub fn new(
        paths: Vec<PathBuf>,
        excluded: Vec<String>,
        include_hidden: bool,
        strip_comments: bool,
        output_path: Option<PathBuf>,
    ) -> (scanner: Self)
        ensures
            scanner@ == (ScannerSettings {
                paths: paths@,
                excluded: excluded@,
                include_hidden,
                strip_comments,
                output_path,
            }),
    {
        Self { paths, excluded, include_hidden, strip_comments, output_path }
    }

    /// The override globs that leave out what the exclusion patterns name:
    /// each pattern behind an exclusion marker, in the given order.
    pub fn override_globs(&self) -> (globs: Vec<String>)
        ensures
            globs.len() == self@.excluded.len(),
            forall|i: int|
                0 <= i < globs.len() ==> (#[trigger] globs@[i])@ == seq![exclusion_marker()]
                    + self@.excluded[i]@,
    {
        let mut globs: Vec<String> = Vec::new();
        let mut i: usize = 0;
        while i < self.excluded.len()
            invariant
                i <= self.excluded.len(),
                globs.len() == i,
                forall|j: int|
                    0 <= j < i ==> (#[trigger] globs@[j])@ == seq![exclusion_marker()]
                        + self.excluded@[j]@,
            decreases self.excluded.len() - i,
        {
            let pattern = chars_of(self.excluded[i].as_str());
            let mut glob: Vec<char> = Vec::new();
            glob.push('!');
            copy_range(&pattern, 0, pattern.len(), &mut glob);
            assert(glob@ =~= seq![exclusion_marker()] + self.excluded@[i as int]@);
            globs.push(string_of(&glob));
            i += 1;
        }
        globs
    }

    /// Whether something met on a walk is looked at any further: regular
    /// files only, and never the file that the document is written to.
    pub fn considers(is_file: bool, is_output: bool) -> (considered: bool)
        ensures
            considered == (is_file && !is_output),
    {
        is_file && !is_output
    }

    /// The entry of one file, if it has one: a file without a known
    /// language, or whose text could not be read, has none. The entry holds
    /// the text without its comments where comments are stripped.
    pub fn entry_for(
        &self,
        display_path: String,
        language: Option<LanguageType>,
        text: Option<String>,
    ) -> (entry: Option<SourceEntry>)
        ensures
            entry is Some <==> language is Some && text is Some,
            entry matches Some(e) ==> {
                &&& e.display_path == display_path
                &&& e.language == language->0
                &&& e.content@ == entry_content(self@.strip_comments, text->0@, language->0)
            },
    {
        match (language, text) {
            (Some(language), Some(text)) => {
                let content = if self.strip_comments {
                    remove_comments(text.as_str(), language)
                } else {
                    text
                };
                Some(SourceEntry { display_path, content, language })
            },
            _ => None,
        }
    }

    /// The document of the given entries: their blocks in order of their
    /// display paths, whatever order they were found in.
    pub fn concatenate(&self, entries: Vec<SourceEntry>) -> (document: String)
        ensures
            document@ == rendered(sorted_by_path(entries@)),
    {
        let sorted = sort_entries(entries);
        render(&sorted)
    }

    /// The roots to walk.
    pub fn paths(&self) -> (paths: &Vec<PathBuf>)
        ensures
            paths@ == self@.paths,
    {
        &self.paths
    }

    /// The patterns of what to leave out.
    pub fn excluded(&self) -> (excluded: &Vec<String>)
        ensures
            excluded@ == self@.excluded,
    {
        &self.excluded
    }

    /// Whether hidden files and directories are walked too.
    pub fn include_hidden(&self) -> (include_hidden: bool)
        ensures
            include_hidden == self@.include_hidden,
    {
        self.include_hidden
    }

    /// Whether comments are removed from the files' text.
    pub fn strip_comments(&self) -> (strip_comments: bool)
        ensures
            strip_comments == self@.strip_comments,
    {
        self.strip_comments
    }

    /// Where the document will be written, if anywhere.
    pub fn output_path(&self) -> (output_path: &Option<PathBuf>)
        ensures
            *output_path == self@.output_path,
    {
        &self.output_path
    }
}

/// `p` with forward slashes for backslashes.
pub fn to_forward_slash(p: &str) -> (slashed: String)
    ensures
        slashed@ == forward_slashed(p@),
{
    let chars = chars_of(p);
    let mut out: Vec<char> = Vec::new();
    let mut i: usize = 0;
    while i < chars.len()
        invariant
            i <= chars.len(),
            out@ == forward_slashed(chars@.take(i as int)),
        decreases chars.len() - i,
    {
        if chars[i] == '\\' {
            out.push('/');
        } else {
            out.push(chars[i]);
        }
        i += 1;
        assert(out@ =~= forward_slashed(chars@.take(i as int)));
    }
    assert(chars@.take(chars.len() as int) =~= chars@);
    string_of(&out)
}

/// The path under which a file is shown: the path relative to the working
/// directory where there is one, else the path itself, with forward slashes.
pub fn relative_display(path: &str, relative: Option<&str>) -> (shown: String)
    ensures
        shown@ == forward_slashed(
            match relative {
                Some(rel) => rel@,
                None => path@,
            },
        ),
{
    match relative {
        Some(rel) => to_forward_slash(rel),
        None => to_forward_slash(path),
    }
}

} // verus!
