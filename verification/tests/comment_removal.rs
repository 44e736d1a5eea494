use bindery::language::{describe, LanguageDescriptor};
use bindery::scanner::remove_comments;
use bindery::stripper::strip_comments;
use tokei::LanguageType;

fn slash_and_quote() -> LanguageDescriptor {
    LanguageDescriptor::new(&[("\"", "\"")], &["//"], &[], &[])
}

fn c_like() -> LanguageDescriptor {
    LanguageDescriptor::new(&[("\"", "\"")], &["//"], &[("/*", "*/")], &[])
}

fn without_trailing_blanks(text: &str) -> String {
    let mut out = String::new();
    let mut first = true;
    for line in text.split('\n') {
        if !first {
            out.push('\n');
        }
        first = false;
        out.push_str(line.trim_end());
    }
    out
}

#[test]
fn rust_comment_removal_preserves_strings() {
    let content = r#"
// This is a line comment
fn main() {
    let x = 5; // inline
    /* block
       comment */
    println!("Hello // not a comment");
    let s = "/* also not a comment */";
}
"#;
    let result = remove_comments(content, LanguageType::Rust);
    assert!(!result.contains("// This is a line comment"));
    assert!(!result.contains("// inline"));
    assert!(!result.contains("/* block"));
    assert!(result.contains("Hello // not a comment"));
    assert!(result.contains("/* also not a comment */"));
}

#[test]
fn c_comment_removal() {
    let content = r#"
/* Header comment */
#include <stdio.h>

int main(){
  // line
  printf("Hello\n"); /* inline */
}
"#;
    let result = remove_comments(content, LanguageType::C);
    assert!(!result.contains("/* Header comment */"));
    assert!(!result.contains("// line"));
    assert!(!result.contains("/* inline */"));
}

#[test]
fn js_comment_removal() {
    let content = r#"
// top
function t(){
  var x = 5; // end
  /* multi
     line */
  console.log("// not a comment");
}
"#;
    let result = remove_comments(content, LanguageType::JavaScript);
    assert!(!result.contains("// top"));
    assert!(!result.contains("// end"));
    assert!(!result.contains("/* multi"));
    assert!(result.contains("// not a comment"));
}

#[test]
fn multiline_comment_blank_lines_are_removed() {
    let content = "fn main() {\n/*\n   \n*/\nprintln!(\"x\");\n}\n";
    let result = remove_comments(content, LanguageType::Rust);

    assert!(result.contains("fn main() {"));
    assert!(result.contains("println!(\"x\");"));
    assert!(!result.contains("\n\n\n"));
}

#[test]
fn rust_comment_removal_exact_output() {
    let content = r#"
// This is a line comment
fn main() {
    let x = 5; // inline
    /* block
       comment */
    println!("Hello // not a comment");
    let s = "/* also not a comment */";
}
"#;
    let expected = "\nfn main() {\n    let x = 5; \n    println!(\"Hello // not a comment\");\n    let s = \"/* also not a comment */\";\n}\n";
    assert_eq!(remove_comments(content, LanguageType::Rust), expected);
}

#[test]
fn c_comment_removal_exact_output() {
    let content = "\n/* Header comment */\n#include <stdio.h>\n\nint main(){\n  // line\n  printf(\"Hello\\n\"); /* inline */\n}\n";
    let expected = "\n#include <stdio.h>\n\nint main(){\n  printf(\"Hello\\n\"); \n}\n";
    assert_eq!(remove_comments(content, LanguageType::C), expected);
}

#[test]
fn inline_comment_is_cut_and_string_is_kept() {
    let input = "fn main() {\n  let x = 5; // inline\n  println!(\"a // b\");\n}\n";
    let result = strip_comments(input, &slash_and_quote());
    // The line keeps what stood before the comment token, the blank included.
    assert_eq!(result, "fn main() {\n  let x = 5; \n  println!(\"a // b\");\n}\n");
    assert_eq!(
        without_trailing_blanks(&result),
        "fn main() {\n  let x = 5;\n  println!(\"a // b\");\n}\n"
    );
}

#[test]
fn comment_lines_vanish_without_blank_lines() {
    let input = "/*\n   \n*/\nprintln!(\"x\");\n";
    assert_eq!(strip_comments(input, &c_like()), "println!(\"x\");\n");
    assert_eq!(remove_comments(input, LanguageType::Rust), "println!(\"x\");\n");
}

#[test]
fn plain_text_is_unchanged() {
    let d = c_like();
    for text in [
        "",
        "a",
        "a\n",
        "a\n\n",
        "\n",
        "\n\n\n",
        "let x = 1;\n  let y = 2;\n\n   \nend",
        "tab\there\r\nand / slashes * stars\n",
        "unicode: é ☃ 💭\n",
    ] {
        assert_eq!(strip_comments(text, &d), text);
    }
}

#[test]
fn text_with_strings_but_no_comment_tokens_is_unchanged() {
    let d = c_like();
    for text in [
        "let s = \"abc\";\n",
        "let s = \"unterminated\nnext line\n",
        "say(\"a \\\" b\") + \"\"\n",
    ] {
        assert_eq!(strip_comments(text, &d), text);
    }
}

#[test]
fn stripping_twice_equals_stripping_once() {
    let d = c_like();
    for text in [
        "a // b\nc /* d */ e\n/* f\n g */ h\n",
        "x = \"// not\" // yes\n",
        "/* only */\n",
        "code\n\n// c\n\nmore\n",
    ] {
        let once = strip_comments(text, &d);
        assert_eq!(strip_comments(&once, &d), once);
    }
}

#[test]
fn comment_tokens_inside_strings_are_kept() {
    let d = c_like();
    assert_eq!(strip_comments("a = \"x // y\";", &d), "a = \"x // y\";");
    assert_eq!(strip_comments("a = \"x /* y */ z\"; // c", &d), "a = \"x /* y */ z\"; ");
    assert_eq!(strip_comments("a = \"/*\";\nb = \"*/\";\n", &d), "a = \"/*\";\nb = \"*/\";\n");
    let python = LanguageDescriptor::new(&[("\"", "\""), ("'", "'")], &["#"], &[], &[]);
    assert_eq!(strip_comments("s = '# no' # yes\n", &python), "s = '# no' \n");
}

#[test]
fn quotes_inside_comments_do_not_open_strings() {
    let d = c_like();
    assert_eq!(strip_comments("a // \" b\nc // d\n", &d), "a \nc \n");
    assert_eq!(strip_comments("a /* \" */ b // c\n", &d), "a  b \n");
    assert_eq!(strip_comments("a /* \"\n\" */ b // c\n", &d), "a \n b \n");
}

#[test]
fn block_comment_over_several_lines() {
    let d = c_like();
    let input = "before /* one\ntwo\nthree\nfour */ after\nnext\n";
    assert_eq!(strip_comments(input, &d), "before \n after\nnext\n");
    let two = "head /* a\nb */ tail // c\n";
    assert_eq!(strip_comments(two, &d), "head \n tail \n");
    let closing_reopens = "x /* a\nb */ y /* c\nd */ z\n";
    assert_eq!(strip_comments(closing_reopens, &d), "x \n y \n z\n");
}

#[test]
fn escaped_quote_does_not_end_the_string() {
    let d = c_like();
    assert_eq!(strip_comments("s = \"a \\\" // b\"; // c", &d), "s = \"a \\\" // b\"; ");
    assert_eq!(strip_comments("s = \"a \\\\\"; // c", &d), "s = \"a \\\\\"; ");
    // An escape marker at the very end of the line stands for itself.
    assert_eq!(strip_comments("s = \"a \\", &d), "s = \"a \\");
}

#[test]
fn unterminated_string_runs_to_the_end_of_its_line_only() {
    let d = c_like();
    assert_eq!(strip_comments("s = \"open // kept\nb // cut\n", &d), "s = \"open // kept\nb \n");
}

#[test]
fn unterminated_block_comment_swallows_the_rest() {
    let d = c_like();
    assert_eq!(strip_comments("a\n/* open\nb\nc\n", &d), "a\n");
    assert_eq!(strip_comments("a /* open", &d), "a ");
    assert_eq!(strip_comments("/* open", &d), "");
    assert_eq!(strip_comments("// only a comment\n", &d), "\n");
}

#[test]
fn blank_lines_of_the_input_are_kept() {
    let d = c_like();
    assert_eq!(strip_comments("a\n\n   \n\t\nb\n", &d), "a\n\n   \n\t\nb\n");
    assert_eq!(strip_comments("a\n   // c\n\nb", &d), "a\n\nb");
    assert_eq!(strip_comments("/* c */\n", &d), "\n");
}

#[test]
fn closing_line_with_only_blanks_left_is_dropped() {
    let d = c_like();
    assert_eq!(strip_comments("a\n/* x\n y */   \nb\n", &d), "a\nb\n");
}

#[test]
fn earlier_table_entries_win() {
    let triple_first = LanguageDescriptor::new(&[("\"\"\"", "\"\"\""), ("\"", "\"")], &["#"], &[], &[]);
    assert_eq!(
        strip_comments("x = \"\"\"a \" # b\"\"\" # c", &triple_first),
        "x = \"\"\"a \" # b\"\"\" "
    );
    let single_first = LanguageDescriptor::new(&[("\"", "\""), ("\"\"\"", "\"\"\"")], &["#"], &[], &[]);
    assert_eq!(strip_comments("x = \"\"\"a \" # b\"\"\" # c", &single_first), "x = \"\"\"a \" ");
}

#[test]
fn quotes_come_before_comments_and_blocks_before_line_comments() {
    let d = LanguageDescriptor::new(&[("#\"", "\"#")], &["#", "//"], &[("//*", "*//")], &[]);
    assert_eq!(strip_comments("a #\" # \"# b # c", &d), "a #\" # \"# b ");
    assert_eq!(strip_comments("a //* x *// b // c", &d), "a  b ");
}

#[test]
fn nested_comments_end_at_the_first_end_token() {
    let d = LanguageDescriptor::new(&[], &[], &[("/*", "*/")], &[("/+", "+/")]);
    assert_eq!(strip_comments("a /+ b /+ c +/ d +/ e", &d), "a  d +/ e");
    assert_eq!(remove_comments("a /+ b /+ c +/ d +/ e", LanguageType::D), "a  d +/ e");
    // The end token is looked for behind the start token, not inside it.
    assert_eq!(strip_comments("a /*/ b */ c", &d), "a  c");
}

#[test]
fn positions_count_characters_not_bytes() {
    let d = c_like();
    assert_eq!(strip_comments("é /* ü☃ */ ö // ä\n", &d), "é  ö \n");
    let emoji = LanguageDescriptor::new(&[], &["💭"], &[("💭🔜", "🔚💭")], &[]);
    assert_eq!(strip_comments("a 💭🔜 b 🔚💭 c 💭 d", &emoji), "a  c ");
    assert_eq!(remove_comments("a 💭🔜 b 🔚💭 c 💭 d", LanguageType::Emojicode), "a  c ");
}

#[test]
fn empty_tokens_match_nowhere() {
    let d = LanguageDescriptor::new(&[("", "\"")], &[""], &[("", "*/"), ("/*", "")], &[]);
    assert!(!d.is_well_formed());
    assert_eq!(strip_comments("a \" b\n", &d), "a \" b\n");
    assert_eq!(strip_comments("a /* b\nc\n", &d), "a \n");
}

#[test]
fn tables_come_from_the_language() {
    assert_eq!(remove_comments("x = 1 # c\n", LanguageType::Python), "x = 1 \n");
    assert_eq!(remove_comments("x = 1 # c\n", LanguageType::Rust), "x = 1 # c\n");
    assert_eq!(remove_comments("x -- c\n{- a\nb -} y\n", LanguageType::Haskell), "x \n y\n");
    assert_eq!(remove_comments("x -- c\n", LanguageType::C), "x -- c\n");
    let rust = describe(LanguageType::Rust);
    assert!(rust.is_well_formed());
    assert_eq!(strip_comments("a // b", &rust), remove_comments("a // b", LanguageType::Rust));
}
