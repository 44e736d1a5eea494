use bindery::language::LanguageDescriptor;
use bindery::stripper::{process_line, ScanState};

fn c_like() -> LanguageDescriptor {
    LanguageDescriptor::new(&[("\"", "\"")], &["//"], &[("/*", "*/")], &[])
}

fn chars(s: &str) -> Vec<char> {
    s.chars().collect()
}

#[test]
fn fresh_state_is_in_code() {
    let state = ScanState::new();
    assert!(!state.in_string);
    assert!(!state.in_block_comment);
}

#[test]
fn line_in_code_leaves_the_state_in_code() {
    let d = c_like();
    let mut state = ScanState::new();
    assert_eq!(process_line("a \"b\" c // d", &mut state, &d), "a \"b\" c ");
    assert!(!state.in_string);
    assert!(!state.in_block_comment);
}

#[test]
fn open_block_comment_is_carried_to_the_next_line() {
    let d = c_like();
    let mut state = ScanState::new();
    assert_eq!(process_line("a /* b", &mut state, &d), "a ");
    assert!(state.in_block_comment);
    assert_eq!(state.block_terminator, chars("*/"));
    assert_eq!(process_line("still \" inside", &mut state, &d), "");
    assert!(state.in_block_comment);
    assert_eq!(process_line("end */ x /* y */ z", &mut state, &d), " x  z");
    assert!(!state.in_block_comment);
}

#[test]
fn block_comment_closed_on_its_line_leaves_no_trace() {
    let d = c_like();
    let mut state = ScanState::new();
    assert_eq!(process_line("a /* b */ c /* d */", &mut state, &d), "a  c ");
    assert!(!state.in_block_comment);
}

#[test]
fn string_never_stays_open_beyond_its_line() {
    let d = c_like();
    let mut state = ScanState::new();
    assert_eq!(process_line("a \"open /* b", &mut state, &d), "a \"open /* b");
    assert!(!state.in_string);
    assert!(!state.in_block_comment);
}

#[test]
fn line_that_starts_inside_a_string() {
    let d = c_like();
    let mut state = ScanState::new();
    state.in_string = true;
    state.string_terminator = chars("'");
    assert_eq!(process_line("// in \\' string' // out", &mut state, &d), "// in \\' string' ");
    assert!(!state.in_string);
}

#[test]
fn block_comment_flag_comes_before_the_string_flag() {
    let d = c_like();
    let mut state = ScanState::new();
    state.in_string = true;
    state.string_terminator = chars("\"");
    state.in_block_comment = true;
    state.block_terminator = chars("*/");
    assert_eq!(process_line("x \" */ y", &mut state, &d), " y");
    assert!(!state.in_string);
    assert!(!state.in_block_comment);
}
