//! The table of commands.

use sedc::command::{Command, ProcessingContext};
use sedc::compiler::arguments::parse_command_ending;
use sedc::compiler::table::{get_cmd_spec, get_verified_cmd_spec};
use sedc::script_char_provider::ScriptCharProvider;
use sedc::script_line_provider::ScriptLineProvider;

// Return an empty line provider and a char provider for the specified str.
fn make_providers(input: &str) -> (ScriptLineProvider, ScriptCharProvider) {
    let lines = ScriptLineProvider::new(vec![]); // Empty for tests
    let line = ScriptCharProvider::new(input.as_bytes());
    (lines, line)
}

// Utility to create a ScriptCharProvider from a &str
fn char_provider_from(s: &str) -> ScriptCharProvider {
    ScriptCharProvider::new(s.as_bytes())
}

/// Return a default ProcessingContext for use in tests.
fn ctx() -> ProcessingContext {
    ProcessingContext::default()
}

// get_cmd_spec
#[test]
fn test_lookup_empty_command() {
    let (lines, line) = make_providers("123abc");
    let cmd = get_cmd_spec(&lines, &line, 'd', false).unwrap();
    assert_eq!(cmd.n_addr, 2);
}

#[test]
fn test_lookup_text_command() {
    let (lines, line) = make_providers("123abc");
    let cmd = get_cmd_spec(&lines, &line, 'a', false).unwrap();
    assert_eq!(cmd.n_addr, 2);
}

#[test]
fn test_lookup_nonselect_command() {
    let (lines, line) = make_providers("123abc");
    let cmd = get_cmd_spec(&lines, &line, '!', false).unwrap();
    assert_eq!(cmd.n_addr, 2);
}

#[test]
fn test_lookup_endgroup_command() {
    let (lines, line) = make_providers("123abc");
    let cmd = get_cmd_spec(&lines, &line, '}', false).unwrap();
    assert_eq!(cmd.n_addr, 0);
}

#[test]
fn test_lookup_invalid_command() {
    let (lines, line) = make_providers("123abc");
    let result = get_cmd_spec(&lines, &line, 'Z', false);
    assert!(result.is_err());
}

#[test]
fn test_parse_command_ending_rejects_extra_characters() {
    let (lines, mut chars) = make_providers("extra");
    let mut cmd = Command {
        code: 'p',
        ..Default::default()
    };

    let err = parse_command_ending(&lines, &mut chars, &mut cmd).unwrap_err();
    assert!(
        err.to_string()
            .contains("extra characters at the end of the p command")
    );
}

#[test]
fn test_lookup_branch_commands() {
    // b, t, and T all share compile_label_command and accept 2 addresses.
    for code in ['b', 't', 'T'] {
        let (lines, line) = make_providers("123abc");
        let cmd = get_cmd_spec(&lines, &line, code, false).unwrap();
        assert_eq!(cmd.n_addr, 2, "command `{code}` should accept 2 addresses");
    }
}

// get_verified_cmd_spec
#[test]
fn test_missing_command_character() {
    let lines = ScriptLineProvider::with_active_state("test.sed", 1);
    let line = char_provider_from("");
    let result = get_verified_cmd_spec(&lines, &line, 0, ctx().posix);

    assert!(result.is_err());
    let msg = result.unwrap_err().to_string();
    assert!(msg.contains("test.sed:1:0: error: command expected"));
}

#[test]
fn test_invalid_command_character() {
    let lines = ScriptLineProvider::with_active_state("script.sed", 2);
    let line = char_provider_from("@");
    let result = get_verified_cmd_spec(&lines, &line, 0, ctx().posix);

    assert!(result.is_err());
    let msg = result.unwrap_err().to_string();
    assert!(msg.contains("script.sed:2:1: error: unknown command: `@'"));
}

#[test]
fn test_too_many_addresses() {
    let lines = ScriptLineProvider::with_active_state("input.sed", 3);
    let line = char_provider_from("q"); // q takes one address
    let result = get_verified_cmd_spec(&lines, &line, 2, true);

    assert!(result.is_err());
    let msg = result.unwrap_err().to_string();
    assert!(
        msg.contains("input.sed:3:1: error: command q expects up to 1 address(es), found 2")
    );
}

#[test]
fn test_valid_command_spec() {
    let lines = ScriptLineProvider::with_active_state("input.sed", 4);
    let line = char_provider_from("a"); // valid command
    let result = get_verified_cmd_spec(&lines, &line, 2, ctx().posix);
    assert!(result.is_ok());
    let spec = result.unwrap();
    assert_eq!(spec.n_addr, 2);
}

#[test]
fn test_invalid_address_range_posix() {
    let lines = ScriptLineProvider::with_active_state("input.sed", 1);
    let line = char_provider_from("i"); // valid command
    let result = get_verified_cmd_spec(&lines, &line, 2, true);
    assert!(result.is_err());
    let msg = result.unwrap_err().to_string();
    assert!(
        msg.contains("input.sed:1:1: error: command i expects up to 1 address(es), found 2")
    );
}
