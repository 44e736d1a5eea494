use bindery::language::{describe, language_name, LanguageDescriptor};
use tokei::LanguageType;

fn chars(s: &str) -> Vec<char> {
    s.chars().collect()
}

#[test]
fn tags_of_the_languages_that_have_one() {
    assert_eq!(language_name(LanguageType::Rust), "rust");
    assert_eq!(language_name(LanguageType::TypeScript), "ts");
    assert_eq!(language_name(LanguageType::JavaScript), "js");
    assert_eq!(language_name(LanguageType::Python), "python");
    assert_eq!(language_name(LanguageType::C), "c");
    assert_eq!(language_name(LanguageType::Cpp), "cpp");
    assert_eq!(language_name(LanguageType::Go), "go");
    assert_eq!(language_name(LanguageType::Java), "java");
    assert_eq!(language_name(LanguageType::Kotlin), "kotlin");
    assert_eq!(language_name(LanguageType::Swift), "swift");
    assert_eq!(language_name(LanguageType::Ruby), "ruby");
    assert_eq!(language_name(LanguageType::Scala), "scala");
    assert_eq!(language_name(LanguageType::Haskell), "haskell");
}

#[test]
fn other_languages_are_tagged_text() {
    assert_eq!(language_name(LanguageType::Markdown), "text");
    assert_eq!(language_name(LanguageType::Toml), "text");
    assert_eq!(language_name(LanguageType::CHeader), "text");
    assert_eq!(language_name(LanguageType::Tsx), "text");
}

#[test]
fn descriptor_holds_the_given_tables_in_order() {
    let d = LanguageDescriptor::new(
        &[("\"\"\"", "\"\"\""), ("'", "'")],
        &["#", "//"],
        &[("/*", "*/")],
        &[("/+", "+/")],
    );
    assert_eq!(d.quotes, vec![(chars("\"\"\""), chars("\"\"\"")), (chars("'"), chars("'"))]);
    assert_eq!(d.line_comments, vec![chars("#"), chars("//")]);
    assert_eq!(d.block_comments, vec![(chars("/*"), chars("*/"))]);
    assert_eq!(d.nested_block_comments, vec![(chars("/+"), chars("+/"))]);
    assert!(d.is_well_formed());
}

#[test]
fn descriptor_with_an_empty_token_is_not_well_formed() {
    assert!(!LanguageDescriptor::new(&[("\"", "")], &[], &[], &[]).is_well_formed());
    assert!(!LanguageDescriptor::new(&[], &[""], &[], &[]).is_well_formed());
    assert!(!LanguageDescriptor::new(&[], &[], &[("", "*/")], &[]).is_well_formed());
    assert!(!LanguageDescriptor::new(&[], &[], &[], &[("/+", "")]).is_well_formed());
    assert!(LanguageDescriptor::new(&[], &[], &[], &[]).is_well_formed());
}

#[test]
fn described_languages_carry_their_tables() {
    let rust = describe(LanguageType::Rust);
    assert_eq!(rust.line_comments, vec![chars("//")]);
    assert_eq!(rust.block_comments, vec![(chars("/*"), chars("*/"))]);
    assert!(rust.quotes.contains(&(chars("\""), chars("\""))));
    let d = describe(LanguageType::D);
    assert_eq!(d.nested_block_comments, vec![(chars("/+"), chars("+/"))]);
    let python = describe(LanguageType::Python);
    assert_eq!(python.line_comments, vec![chars("#")]);
    assert!(python.block_comments.is_empty());
}

#[test]
fn every_listed_language_is_well_formed() {
    for (language, _) in LanguageType::list() {
        assert!(describe(*language).is_well_formed(), "{}", language.name());
    }
}
