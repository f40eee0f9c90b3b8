//! Diagnostics.

use sedc::error_handling::{SedResult, compilation_error};
use sedc::script_char_provider::ScriptCharProvider;
use sedc::script_line_provider::ScriptLineProvider;

// Utility to create a ScriptCharProvider from a &str
fn char_provider_from(s: &str) -> ScriptCharProvider {
    ScriptCharProvider::new(s.as_bytes())
}

// compilation_error
#[test]
fn test_compilation_error_message_format() {
    let lines = ScriptLineProvider::with_active_state("test.sed", 42);
    let mut line = char_provider_from("whatever");
    line.advance(); // move to position 1
    line.advance(); // move to position 2
    line.advance(); // move to position 3
    line.advance(); // now at position 4

    let msg = "unexpected token";
    let result: SedResult<()> = compilation_error(&lines, &line, msg);

    assert!(result.is_err());

    let err = result.unwrap_err();
    let msg = err.to_string();

    assert!(msg.contains("test.sed:42:5: error: unexpected token"));
}

#[test]
fn test_compilation_error_with_format_message() {
    let lines = ScriptLineProvider::with_active_state("input.txt", 3);
    let line = char_provider_from("x");
    // We're at position 0

    let result: SedResult<()> =
        compilation_error(&lines, &line, &format!("invalid command '{}'", 'x'));

    assert!(result.is_err());

    let err = result.unwrap_err();
    let msg = err.to_string();

    assert_eq!(msg, "input.txt:3:1: error: invalid command 'x'");
}
