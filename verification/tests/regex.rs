//! Regular expressions.

use sedc::command::ProcessingContext;
use sedc::compiler::regex::{bre_to_ere, compile_regex};
use sedc::script_char_provider::ScriptCharProvider;
use sedc::script_line_provider::ScriptLineProvider;

// Return an empty line provider and a char provider for the specified str.
fn make_providers(input: &str) -> (ScriptLineProvider, ScriptCharProvider) {
    let lines = ScriptLineProvider::new(vec![]); // Empty for tests
    let line = ScriptCharProvider::new(input.as_bytes());
    (lines, line)
}

/// Return a default ProcessingContext for use in tests.
fn ctx() -> ProcessingContext {
    ProcessingContext::default()
}

// compile_re
fn dummy_providers() -> (ScriptLineProvider, ScriptCharProvider) {
    make_providers("dummy input")
}

#[test]
fn test_compile_re_basic() {
    let (lines, chars) = dummy_providers();
    let regex = compile_regex(&lines, &chars, "abc".as_bytes(), &ctx(), false, false)
        .unwrap()
        .expect("regex should be present");
    assert!(regex.is_match("abc".as_bytes()).unwrap());
    assert!(!regex.is_match("ABC".as_bytes()).unwrap());
}

#[test]
fn test_compile_re_extended() {
    let (lines, chars) = make_providers("acaa\nbbb\nccc");
    let mut ctx = ctx();
    ctx.regex_extended = true;
    let regex = compile_regex(&lines, &chars, "cc{0,}".as_bytes(), &ctx, false, false)
        .unwrap()
        .expect("regex should be present");
    assert!(
        regex
            .is_match("acaa\nccc".as_bytes())
            .unwrap()
    );
}

#[test]
fn test_compile_re_case_insensitive() {
    let (lines, chars) = dummy_providers();
    let regex = compile_regex(&lines, &chars, "abc".as_bytes(), &ctx(), true, false)
        .unwrap()
        .expect("regex should be present");
    assert!(regex.is_match("abc".as_bytes()).unwrap());
    assert!(regex.is_match("ABC".as_bytes()).unwrap());
    assert!(regex.is_match("AbC".as_bytes()).unwrap());
}

#[test]
fn test_compile_re_invalid() {
    let (lines, chars) = dummy_providers();
    let result = compile_regex(&lines, &chars, "a[d".as_bytes(), &ctx(), false, false);
    assert!(result.is_err()); // Should fail due to open bracketed expression
}

#[test]
fn test_compile_re_multiline_start() {
    let (lines, chars) = dummy_providers();
    let regex = compile_regex(&lines, &chars, "^bar".as_bytes(), &ctx(), false, true)
        .unwrap()
        .expect("regex should be present");
    assert!(
        regex
            .is_match("foo\nbar".as_bytes())
            .unwrap()
    );
}

#[test]
fn test_compile_re_multiline_end() {
    let (lines, chars) = dummy_providers();
    let regex = compile_regex(&lines, &chars, "foo$".as_bytes(), &ctx(), false, true)
        .unwrap()
        .expect("regex should be present");
    assert!(
        regex
            .is_match("foo\nbar".as_bytes())
            .unwrap()
    );
}

fn bre_to_ere_string(pattern: &str) -> String {
    String::from_utf8(bre_to_ere(pattern.as_bytes())).unwrap()
}

#[test]
fn test_bre_group_translation() {
    assert_eq!(bre_to_ere_string(r"\(a\?b\+c\|\)"), "(a?b+c|)");
    assert_eq!(bre_to_ere_string(r"a\(b\)c"), "a(b)c");
}

#[test]
fn test_bre_brace_quantifier_translation() {
    assert_eq!(bre_to_ere_string(r"\{1,4\}"), "{1,4}");
}

#[test]
fn test_ere_metacharacters_escaped() {
    assert_eq!(bre_to_ere_string(r"a+b?c{1}|(d)"), r"a\+b\?c\{1\}\|\(d\)");
}

#[test]
fn test_literal_backslashes_preserved() {
    assert_eq!(bre_to_ere_string(r"foo\\bar"), r"foo\\bar");
    assert_eq!(bre_to_ere_string(r"\."), r"\.");
}

#[test]
fn test_character_classes_unchanged() {
    assert_eq!(bre_to_ere_string(r"[a-z]"), "[a-z]");
    assert_eq!(bre_to_ere_string(r"[^0-9]"), "[^0-9]");
}

#[test]
fn test_anchors_and_dot_and_star() {
    assert_eq!(bre_to_ere_string(r"^a.*b$"), "^a.*b$");
}

#[test]
fn test_trailing_backslash_is_preserved() {
    assert_eq!(bre_to_ere_string(r"abc\"), r"abc\");
}

#[test]
fn test_caret_escaped_in_middle() {
    assert_eq!(bre_to_ere_string(r"^a^[^x]c"), r"^a\^[^x]c");
}

#[test]
fn test_dollar_escaped_in_middle() {
    assert_eq!(bre_to_ere_string(r"a$c$"), r"a\$c$");
}

#[test]
fn test_bre_back_reference() {
    assert_eq!(bre_to_ere_string(r"\(.\)\1\(.\)\2"), r"(.)(?:\1)(.)(?:\2)");
}
