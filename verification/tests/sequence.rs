//! Whole scripts.

use sedc::command::{Address, ProcessingContext};
use sedc::compiler::compile;
use sedc::compiler::sequence::compile_sequence;
use sedc::script_char_provider::ScriptCharProvider;
use sedc::script_line_provider::{ScriptLineProvider, ScriptValue};

fn make_line_provider(lines: &[&str]) -> ScriptLineProvider {
    let input = lines
        .iter()
        .map(|s| ScriptValue::StringVal((*s).as_bytes().to_vec()))
        .collect();
    ScriptLineProvider::new(input)
}

/// Return a default ProcessingContext for use in tests.
fn ctx() -> ProcessingContext {
    ProcessingContext::default()
}

fn empty_line() -> ScriptCharProvider {
    ScriptCharProvider::new(b"")
}

#[test]
fn test_compile_sequence_empty_input() {
    let mut provider = make_line_provider(&[]);
    let mut opts = ctx();

    let result = compile_sequence(&mut provider, &mut empty_line(), &mut opts).unwrap();
    assert!(result.is_none());
}

#[test]
fn test_compile_sequence_comment_only() {
    let mut provider = make_line_provider(&["# comment", "   ", ";;"]);
    let mut opts = ctx();

    let result = compile_sequence(&mut provider, &mut empty_line(), &mut opts).unwrap();
    assert!(result.is_none());
}

#[test]
fn test_compile_sequence_single_command() {
    let mut provider = make_line_provider(&["42q"]);
    let mut opts = ctx();

    let result = compile_sequence(&mut provider, &mut empty_line(), &mut opts).unwrap();
    let cmd = &opts.commands[result.unwrap()];

    assert_eq!(cmd.code, 'q');
    assert!(!cmd.non_select);

    assert!(matches!(cmd.addr1, Some(Address::Line(42))));
    assert!(cmd.next.is_none());
}

#[test]
fn test_compile_sequence_non_selected_single_command() {
    let mut provider = make_line_provider(&["42!p"]);
    let mut opts = ctx();

    let result = compile_sequence(&mut provider, &mut empty_line(), &mut opts).unwrap();
    let cmd = &opts.commands[result.unwrap()];

    assert_eq!(cmd.code, 'p');
    assert!(cmd.non_select);

    assert!(matches!(cmd.addr1, Some(Address::Line(42))));
    assert!(cmd.next.is_none());
}

#[test]
fn test_compile_sequence_multiple_lines() {
    let mut provider = make_line_provider(&["1q", "2d"]);
    let mut opts = ctx();

    let result = compile_sequence(&mut provider, &mut empty_line(), &mut opts).unwrap();
    let first = &opts.commands[result.unwrap()];

    assert_eq!(first.code, 'q');
    let second = &opts.commands[first.next.unwrap()];
    assert_eq!(second.code, 'd');
    assert!(second.next.is_none());
}

#[test]
fn test_compile_sequence_single_line_multiple_commands() {
    let mut provider = make_line_provider(&["1q;2d"]);
    let mut opts = ctx();

    let result = compile_sequence(&mut provider, &mut empty_line(), &mut opts).unwrap();
    let first = &opts.commands[result.unwrap()];

    assert_eq!(first.code, 'q');
    let second = &opts.commands[first.next.unwrap()];
    assert_eq!(second.code, 'd');
    assert!(second.next.is_none());
}

// compile
#[test]
fn test_compile_single_command() {
    let scripts = vec![ScriptValue::StringVal(b"1q".to_vec())];
    let mut opts = ProcessingContext::default();

    let result = compile(scripts, &mut opts).unwrap();
    let cmd = &opts.commands[result.unwrap()];

    assert_eq!(cmd.code, 'q');

    assert!(matches!(cmd.addr1, Some(Address::Line(1))));

    assert_eq!(cmd.location.line_number, 1);
    assert_eq!(cmd.location.column_number, 1);
    assert_eq!(cmd.location.input_name, "<script argument 1>");

    assert!(cmd.next.is_none());
}

#[test]
fn test_compile_two_commands() {
    let scripts = vec![ScriptValue::StringVal(b"l;q".to_vec())];
    let mut opts = ProcessingContext::default();

    let result = compile(scripts, &mut opts).unwrap();
    let cmd = &opts.commands[result.unwrap()];

    assert_eq!(cmd.code, 'l');
    assert_eq!(cmd.location.line_number, 1);
    assert_eq!(cmd.location.column_number, 1);
    assert_eq!(cmd.location.input_name, "<script argument 1>");

    let cmd2 = &opts.commands[cmd.next.unwrap()];
    assert_eq!(cmd2.code, 'q');
    assert_eq!(cmd2.location.line_number, 1);
    assert_eq!(cmd2.location.column_number, 3);
    assert_eq!(cmd2.location.input_name, "<script argument 1>");

    assert!(cmd2.next.is_none());
}
