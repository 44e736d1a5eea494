use bindery::text::{blank, char_is_whitespace, chars_of, find_token, string_of, token_matches};

fn chars(s: &str) -> Vec<char> {
    s.chars().collect()
}

#[test]
fn whitespace_is_what_unicode_says() {
    let mut code: u32 = 0;
    while code <= 0x10FFFF {
        if let Some(c) = char::from_u32(code) {
            assert_eq!(char_is_whitespace(c), c.is_whitespace(), "U+{:04X}", code);
        }
        code += 1;
    }
}

#[test]
fn blank_texts() {
    assert!(blank(&chars("")));
    assert!(blank(&chars(" \t\r\u{a0}\u{3000}")));
    assert!(!blank(&chars("  x ")));
    assert!(!blank(&chars("\u{200b}")));
}

#[test]
fn strings_and_characters_convert_both_ways() {
    for s in ["", "abc", "é☃💭\n\\"] {
        assert_eq!(chars_of(s), chars(s));
        assert_eq!(string_of(&chars(s)), s);
    }
}

#[test]
fn token_matching_is_by_literal_prefix() {
    let text = chars("ab/*cd");
    assert!(token_matches(&chars("/*"), &text, 2));
    assert!(!token_matches(&chars("/*"), &text, 1));
    assert!(!token_matches(&chars("/*"), &text, 3));
    assert!(token_matches(&chars("cd"), &text, 4));
    assert!(!token_matches(&chars("cde"), &text, 4));
    assert!(!token_matches(&chars("d"), &text, 6));
    assert!(!token_matches(&chars("d"), &text, 7));
    assert!(!token_matches(&chars(""), &text, 0));
}

#[test]
fn find_gives_the_first_occurrence() {
    let text = chars("a*/b*/");
    assert_eq!(find_token(&chars("*/"), &text, 0), Some(1));
    assert_eq!(find_token(&chars("*/"), &text, 1), Some(1));
    assert_eq!(find_token(&chars("*/"), &text, 2), Some(4));
    assert_eq!(find_token(&chars("*/"), &text, 5), None);
    assert_eq!(find_token(&chars("*/"), &text, 6), None);
    assert_eq!(find_token(&chars("*/"), &text, 60), None);
    assert_eq!(find_token(&chars(""), &text, 0), None);
    assert_eq!(find_token(&chars("aaa"), &chars("aa"), 0), None);
}
