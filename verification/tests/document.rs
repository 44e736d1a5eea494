use std::path::PathBuf;

use bindery::render::{path_precedes, render, sort_entries, SourceEntry};
use bindery::scanner::{relative_display, to_forward_slash, CodeScanner};
use ignore::overrides::OverrideBuilder;
use tokei::LanguageType;

fn entry(path: &str, content: &str, language: LanguageType) -> SourceEntry {
    SourceEntry { display_path: path.to_string(), content: content.to_string(), language }
}

fn scanner(strip_comments: bool) -> CodeScanner {
    CodeScanner::new(vec![PathBuf::from(".")], vec![String::from(".git")], false, strip_comments, None)
}

fn paths(entries: &[SourceEntry]) -> Vec<String> {
    entries.iter().map(|e| e.display_path.clone()).collect()
}

#[test]
fn scanner_keeps_its_settings() {
    let s = CodeScanner::new(
        vec![PathBuf::from("a"), PathBuf::from("/b/c")],
        vec![String::from(".git"), String::from("target")],
        true,
        false,
        Some(PathBuf::from("out.md")),
    );
    assert_eq!(s.paths(), &vec![PathBuf::from("a"), PathBuf::from("/b/c")]);
    assert_eq!(s.excluded(), &vec![String::from(".git"), String::from("target")]);
    assert!(s.include_hidden());
    assert!(!s.strip_comments());
    assert_eq!(s.output_path(), &Some(PathBuf::from("out.md")));
    let t = CodeScanner::new(vec![], vec![], false, true, None);
    assert!(t.paths().is_empty());
    assert!(t.excluded().is_empty());
    assert!(!t.include_hidden());
    assert!(t.strip_comments());
    assert_eq!(t.output_path(), &None);
}

#[test]
fn one_entry_is_rendered_as_path_and_fenced_block() {
    let entries = vec![entry("src/main.rs", "fn main() {}\n", LanguageType::Rust)];
    assert_eq!(render(&entries), "src/main.rs\n\n```rust\nfn main() {}\n```\n");
}

#[test]
fn content_is_closed_by_a_line_terminator() {
    let without = vec![entry("a.py", "x = 1", LanguageType::Python)];
    assert_eq!(render(&without), "a.py\n\n```python\nx = 1\n```\n");
    let with = vec![entry("a.py", "x = 1\n", LanguageType::Python)];
    assert_eq!(render(&with), "a.py\n\n```python\nx = 1\n```\n");
    let two = vec![entry("a.py", "x = 1\n\n", LanguageType::Python)];
    assert_eq!(render(&two), "a.py\n\n```python\nx = 1\n\n```\n");
    let empty = vec![entry("a.md", "", LanguageType::Markdown)];
    assert_eq!(render(&empty), "a.md\n\n```text\n\n```\n");
}

#[test]
fn entries_are_separated_by_an_empty_line() {
    let entries = vec![
        entry("a.c", "int a;\n", LanguageType::C),
        entry("b.go", "package b", LanguageType::Go),
        entry("c.rb", "c\n", LanguageType::Ruby),
    ];
    assert_eq!(
        render(&entries),
        "a.c\n\n```c\nint a;\n```\n\nb.go\n\n```go\npackage b\n```\n\nc.rb\n\n```ruby\nc\n```\n"
    );
    assert_eq!(render(&Vec::new()), "");
}

#[test]
fn document_is_in_path_order_whatever_the_order_found() {
    let expected = "a/y.rs\n\n```rust\ny\n```\n\nb/x.rs\n\n```rust\nx\n```\n";
    let s = scanner(false);
    let one = vec![entry("b/x.rs", "x\n", LanguageType::Rust), entry("a/y.rs", "y\n", LanguageType::Rust)];
    assert_eq!(s.concatenate(one), expected);
    let other = vec![entry("a/y.rs", "y\n", LanguageType::Rust), entry("b/x.rs", "x\n", LanguageType::Rust)];
    assert_eq!(s.concatenate(other), expected);
    assert_eq!(s.concatenate(Vec::new()), "");
}

#[test]
fn sorting_is_by_bytes_and_keeps_equal_paths_in_place() {
    let sorted = sort_entries(vec![
        entry("b", "1", LanguageType::C),
        entry("a/b", "2", LanguageType::C),
        entry("é", "3", LanguageType::C),
        entry("a", "4", LanguageType::C),
        entry("Z", "5", LanguageType::C),
        entry("a", "6", LanguageType::C),
        entry("a.b", "7", LanguageType::C),
        entry("", "8", LanguageType::C),
        entry("a", "9", LanguageType::C),
    ]);
    assert_eq!(paths(&sorted), vec!["", "Z", "a", "a", "a", "a.b", "a/b", "b", "é"]);
    let contents: Vec<String> = sorted.iter().map(|e| e.content.clone()).collect();
    assert_eq!(contents, vec!["8", "5", "4", "6", "9", "7", "2", "1", "3"]);
}

#[test]
fn sorting_agrees_with_the_order_of_strings() {
    let names = ["", "a", "A", "ab", "a/b", "b", "é", "e", "zz", "💭", "\u{7f}", "\u{80}", "\u{ffff}", "\u{10000}"];
    for a in names {
        for b in names {
            assert_eq!(path_precedes(a, b), a <= b, "{:?} {:?}", a, b);
        }
    }
    let mut expected: Vec<String> = names.iter().map(|n| n.to_string()).collect();
    expected.sort();
    let sorted = sort_entries(names.iter().map(|n| entry(n, "", LanguageType::C)).collect());
    assert_eq!(paths(&sorted), expected);
}

#[test]
fn entry_needs_a_language_and_a_text() {
    let s = scanner(false);
    assert!(s.entry_for(String::from("a.rs"), None, Some(String::from("x"))).is_none());
    assert!(s.entry_for(String::from("a.rs"), Some(LanguageType::Rust), None).is_none());
    assert!(s.entry_for(String::from("a.rs"), None, None).is_none());
    let e = s.entry_for(String::from("a.rs"), Some(LanguageType::Rust), Some(String::from("x // c\n")));
    let e = e.expect("an entry");
    assert_eq!(e.display_path, "a.rs");
    assert_eq!(e.language, LanguageType::Rust);
    assert_eq!(e.content, "x // c\n");
}

#[test]
fn entry_is_stripped_where_the_scanner_strips() {
    let s = scanner(true);
    let e = s.entry_for(String::from("a.rs"), Some(LanguageType::Rust), Some(String::from("x // c\n// d\ny\n")));
    assert_eq!(e.expect("an entry").content, "x \ny\n");
    let p = s.entry_for(String::from("a.py"), Some(LanguageType::Python), Some(String::from("x // c # d")));
    assert_eq!(p.expect("an entry").content, "x // c ");
}

#[test]
fn only_regular_files_other_than_the_output_are_considered() {
    assert!(CodeScanner::considers(true, false));
    assert!(!CodeScanner::considers(true, true));
    assert!(!CodeScanner::considers(false, false));
    assert!(!CodeScanner::considers(false, true));
}

#[test]
fn exclusions_become_override_globs() {
    let s = CodeScanner::new(
        vec![],
        vec![String::from(".git"), String::from("target"), String::from("*.log"), String::new()],
        false,
        false,
        None,
    );
    assert_eq!(s.override_globs(), vec!["!.git", "!target", "!*.log", "!"]);
    assert!(CodeScanner::new(vec![], vec![], false, false, None).override_globs().is_empty());
}

#[test]
fn excluded_directory_name_is_left_out_at_any_depth() {
    let s = CodeScanner::new(vec![], vec![String::from("target")], false, false, None);
    let mut builder = OverrideBuilder::new("/project");
    for glob in s.override_globs() {
        builder.add(&glob).expect("a valid glob");
    }
    let overrides = builder.build().expect("valid overrides");
    assert!(overrides.matched("/project/target", true).is_ignore());
    assert!(overrides.matched("/project/a/b/target", true).is_ignore());
    assert!(!overrides.matched("/project/src", true).is_ignore());
    assert!(!overrides.matched("/project/src/targets.rs", false).is_ignore());
}

#[test]
fn backslashes_become_forward_slashes() {
    assert_eq!(to_forward_slash("a\\b\\c.rs"), "a/b/c.rs");
    assert_eq!(to_forward_slash("a/b\\c"), "a/b/c");
    assert_eq!(to_forward_slash("\\\\"), "//");
    assert_eq!(to_forward_slash("plain"), "plain");
    assert_eq!(to_forward_slash(""), "");
}

#[test]
fn display_path_is_the_relative_one_where_there_is_one() {
    assert_eq!(relative_display("/home/u/p/src\\a.rs", Some("src\\a.rs")), "src/a.rs");
    assert_eq!(relative_display("/elsewhere/a.rs", None), "/elsewhere/a.rs");
    assert_eq!(relative_display("C:\\x\\a.rs", None), "C:/x/a.rs");
    assert_eq!(relative_display("/p", Some("")), "");
}
