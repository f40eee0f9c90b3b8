//! Commands that take text.

use sedc::command::{Command, CommandData, ProcessingContext};
use sedc::compiler::text::compile_text_command;
use sedc::script_char_provider::ScriptCharProvider;
use sedc::script_line_provider::{ScriptLineProvider, ScriptValue};

// Return an empty line provider and a char provider for the specified str.
fn make_providers(input: &str) -> (ScriptLineProvider, ScriptCharProvider) {
    let lines = ScriptLineProvider::new(vec![]); // Empty for tests
    let line = ScriptCharProvider::new(input.as_bytes());
    (lines, line)
}

fn make_line_provider(lines: &[&str]) -> ScriptLineProvider {
    let input = lines
        .iter()
        .map(|s| ScriptValue::StringVal((*s).as_bytes().to_vec()))
        .collect();
    ScriptLineProvider::new(input)
}

fn make_char_provider(input: &str) -> ScriptCharProvider {
    ScriptCharProvider::new(input.as_bytes())
}

#[test]
fn test_compile_single_line_text_command() {
    let mut chars = make_char_provider("a\\");
    let mut lines = make_line_provider(&["line1", "line2"]);
    let mut cmd = Command::default();
    let mut context = ProcessingContext::default();

    compile_text_command(&mut lines, &mut chars, &mut cmd, &mut context).unwrap();
    match &cmd.data {
        CommandData::Text(text) => {
            assert_eq!(text.as_slice(), b"line1\n");
        }
        _ => panic!("Expected CommandData::Text"),
    }
}

#[test]
fn test_compile_text_command_posix_spaces_single_line() {
    let mut chars = make_char_provider("a \\ ");
    let mut lines = make_line_provider(&["line1", "line2"]);
    let mut cmd = Command::default();
    let mut context = ProcessingContext {
        posix: true,
        ..Default::default()
    };

    compile_text_command(&mut lines, &mut chars, &mut cmd, &mut context).unwrap();
    match &cmd.data {
        CommandData::Text(text) => {
            assert_eq!(text.as_slice(), b"line1\n");
        }
        _ => panic!("Expected CommandData::Text"),
    }
}

#[test]
fn test_compile_text_command_posix_incomplete() {
    let (mut lines, mut chars) = make_providers("i\\");
    let mut cmd = Command::default();
    let mut context = ProcessingContext {
        posix: true,
        ..Default::default()
    };
    let result = compile_text_command(&mut lines, &mut chars, &mut cmd, &mut context);
    let err = result.unwrap_err().to_string();
    assert!(err.contains("incomplete command"));
}

#[test]
fn test_compile_text_command_gnu_optional_backslash() {
    let mut chars = make_char_provider("athere");
    let mut lines = make_line_provider(&["line1", "line2"]);
    let mut cmd = Command::default();
    let mut context = ProcessingContext::default();

    compile_text_command(&mut lines, &mut chars, &mut cmd, &mut context).unwrap();
    match &cmd.data {
        CommandData::Text(text) => {
            assert_eq!(text.as_slice(), b"there\n");
        }
        _ => panic!("Expected CommandData::Text"),
    }
}

#[test]
fn test_compile_text_command_gnu_optional_backslash_spaces() {
    let mut chars = make_char_provider("a \t there");
    let mut lines = make_line_provider(&["line1", "line2"]);
    let mut cmd = Command::default();
    let mut context = ProcessingContext::default();

    compile_text_command(&mut lines, &mut chars, &mut cmd, &mut context).unwrap();
    match &cmd.data {
        CommandData::Text(text) => {
            assert_eq!(text.as_slice(), b"there\n");
        }
        _ => panic!("Expected CommandData::Text"),
    }
}

#[test]
fn test_compile_text_command_gnu_no_text() {
    let mut chars = make_char_provider("a");
    let mut lines = make_line_provider(&[]);
    let mut cmd = Command::default();
    let mut context = ProcessingContext::default();

    let result = compile_text_command(&mut lines, &mut chars, &mut cmd, &mut context);
    assert!(result.is_err());
    let err = result.unwrap_err().to_string();
    assert!(err.contains("expected \\ after `a', `c' or `i'"));
}

#[test]
fn test_compile_text_command_gnu_optional_backslash_escape_eof() {
    let mut chars = make_char_provider("a\\");
    let mut lines = make_line_provider(&[]);
    let mut cmd = Command::default();
    let mut context = ProcessingContext::default();

    compile_text_command(&mut lines, &mut chars, &mut cmd, &mut context).unwrap();
    match &cmd.data {
        CommandData::Text(text) => {
            assert_eq!(text.as_slice(), b"");
        }
        _ => panic!("Expected CommandData::Text"),
    }
}

#[test]
fn test_compile_text_command_gnu_no_first_escape() {
    let mut chars = make_char_provider("a\\tom");
    let mut lines = make_line_provider(&[]);
    let mut cmd = Command::default();
    let mut context = ProcessingContext::default();

    compile_text_command(&mut lines, &mut chars, &mut cmd, &mut context).unwrap();
    match &cmd.data {
        CommandData::Text(text) => {
            assert_eq!(text.as_slice(), b"tom\n");
        }
        _ => panic!("Expected CommandData::Text"),
    }
}

#[test]
fn test_compile_text_command_gnu_char_escapes() {
    let mut chars = make_char_provider("i\\>\\h\\elll\\bo\\nto\\");
    let mut lines = make_line_provider(&["all\\a", ""]);
    let mut cmd = Command::default();
    let mut context = ProcessingContext::default();

    compile_text_command(&mut lines, &mut chars, &mut cmd, &mut context).unwrap();
    match &cmd.data {
        CommandData::Text(text) => {
            assert_eq!(text.as_slice(), b">helll\x08o\nto\nall\x07\n");
        }
        _ => panic!("Expected CommandData::Text"),
    }
}

#[test]
fn test_compile_text_command_gnu_preserves_invalid_utf8_script_byte() {
    let mut chars = ScriptCharProvider::new(b"a\\\xC2");
    let mut lines = make_line_provider(&[]);
    let mut cmd = Command::default();
    let mut context = ProcessingContext::default();

    compile_text_command(&mut lines, &mut chars, &mut cmd, &mut context).unwrap();
    match &cmd.data {
        CommandData::Text(text) => {
            assert_eq!(text.as_slice(), b"\xC2\n");
        }
        _ => panic!("Expected CommandData::Text"),
    }
}

#[test]
fn test_compile_two_line_text_command() {
    let mut chars = make_char_provider("a\\");
    let mut lines = make_line_provider(&["line1\\", "line2"]);
    let mut cmd = Command::default();
    let mut context = ProcessingContext::default();

    compile_text_command(&mut lines, &mut chars, &mut cmd, &mut context).unwrap();
    match &cmd.data {
        CommandData::Text(text) => {
            assert_eq!(text.as_slice(), b"line1\nline2\n");
        }
        _ => panic!("Expected CommandData::Text"),
    }
}

#[test]
fn test_compile_text_command_posix_without_backslash() {
    let mut chars = make_char_provider("a");
    let mut lines = make_line_provider(&["line1", "line2"]);
    let mut cmd = Command::default();
    let mut context = ProcessingContext {
        posix: true,
        ..Default::default()
    };

    let result = compile_text_command(&mut lines, &mut chars, &mut cmd, &mut context);
    assert!(result.is_err());
    let err = result.unwrap_err().to_string();
    assert!(err.contains("expected \\ after `a', `c' or `i'"));
}

#[test]
fn test_compile_text_command_posix_with_trailing_chars() {
    let mut chars = make_char_provider("a \\ foo");
    let mut lines = make_line_provider(&["line1", "line2"]);
    let mut cmd = Command::default();
    let mut context = ProcessingContext {
        posix: true,
        ..Default::default()
    };

    let result = compile_text_command(&mut lines, &mut chars, &mut cmd, &mut context);
    assert!(result.is_err());
    let err = result.unwrap_err().to_string();
    assert!(err.contains("extra characters after \\"));
}
