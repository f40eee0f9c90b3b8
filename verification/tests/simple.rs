//! Commands with simple arguments.

use sedc::command::{Command, CommandData, ProcessingContext};
use sedc::compiler::arguments::{ERR_SANDBOX, read_file_path, read_named_path};
use sedc::compiler::simple::{
    compile_label_command, compile_read_file_command, compile_write_file_command,
};
use sedc::script_char_provider::ScriptCharProvider;
use sedc::script_line_provider::ScriptLineProvider;

// Return an empty line provider and a char provider for the specified str.
fn make_providers(input: &str) -> (ScriptLineProvider, ScriptCharProvider) {
    let lines = ScriptLineProvider::new(vec![]); // Empty for tests
    let line = ScriptCharProvider::new(input.as_bytes());
    (lines, line)
}

/// Return a default ProcessingContext for use in tests.
fn ctx() -> ProcessingContext {
    ProcessingContext::default()
}

// compile_read_file_command
#[test]
fn test_compile_read_file_command_rejected_under_sandbox() {
    let (mut lines, mut chars) = make_providers("r input.txt");
    let mut cmd = Command::default();
    let mut context = ctx();
    context.sandbox = true;

    let err =
        compile_read_file_command(&mut lines, &mut chars, &mut cmd, &mut context).unwrap_err();
    assert!(err.to_string().contains(ERR_SANDBOX));
}

#[test]
// `r`'s file is opened when the command *runs*, which for an embedder may be
// long after (and so against a different process directory than) when the script was
// compiled. Resolving to an absolute path at compile time, while the directory is
// still the right one, keeps the later read from landing in the wrong place.
fn test_compile_read_file_command_resolves_a_relative_path_to_absolute() {
    let (mut lines, mut chars) = make_providers("r input.txt");
    let mut cmd = Command::default();
    let mut context = ctx();
    context.current_dir = Some(b"/some/directory".to_vec());

    compile_read_file_command(&mut lines, &mut chars, &mut cmd, &mut context).unwrap();
    let CommandData::Path(path) = &cmd.data else {
        panic!("expected CommandData::Path, got {:?}", cmd.data);
    };
    assert!(path.starts_with(b"/"), "{path:?} is not absolute");
    assert!(path.ends_with(b"/input.txt"));
}

#[test]
fn test_compile_read_file_command_leaves_an_absolute_path_alone() {
    let (mut lines, mut chars) = make_providers("r /already/absolute.txt");
    let mut cmd = Command::default();
    let mut context = ctx();

    compile_read_file_command(&mut lines, &mut chars, &mut cmd, &mut context).unwrap();
    let CommandData::Path(path) = &cmd.data else {
        panic!("expected CommandData::Path, got {:?}", cmd.data);
    };
    assert_eq!(path, b"/already/absolute.txt");
}

// compile_write_file_command
#[test]
fn test_compile_write_file_command_rejected_under_sandbox() {
    let (mut lines, mut chars) = make_providers("w out.txt");
    let mut cmd = Command::default();
    let mut context = ctx();
    context.sandbox = true;

    let err =
        compile_write_file_command(&mut lines, &mut chars, &mut cmd, &mut context).unwrap_err();
    assert!(err.to_string().contains(ERR_SANDBOX));
}

// compile_label_command
#[test]
fn test_compile_label_command() {
    let (mut lines, mut chars) = make_providers(": foo");
    let mut cmd = Command::default();
    let mut context = ProcessingContext::default();

    compile_label_command(&mut lines, &mut chars, &mut cmd, &mut context).unwrap();
    match &cmd.data {
        CommandData::Label(label) => {
            let name = label.clone().unwrap();
            assert_eq!(name, "foo");
        }
        _ => panic!("Expected CommandData::Label"),
    }
}

#[test]
fn test_compile_missing_label_command() {
    let (mut lines, mut chars) = make_providers(": ;");
    let mut cmd = Command::default();
    let mut context = ProcessingContext::default();

    cmd.code = ':';
    let err =
        compile_label_command(&mut lines, &mut chars, &mut cmd, &mut context).unwrap_err();
    assert!(err.to_string().contains("empty label"));
}

#[test]
fn test_compile_empty_label_command() {
    let (mut lines, mut chars) = make_providers("b ;");
    let mut cmd = Command::default();
    let mut context = ProcessingContext::default();

    cmd.code = 'b';
    compile_label_command(&mut lines, &mut chars, &mut cmd, &mut context).unwrap();
    match &cmd.data {
        CommandData::Label(label) => {
            assert!(label.is_none());
        }
        _ => panic!("Expected CommandData::Label(None)"),
    }
}

// read_file_path
#[test]
fn test_read_existing_file_path() {
    let (lines, mut chars) = make_providers("r /etc/motd");

    let path = read_file_path(&lines, &mut chars).unwrap();
    assert_eq!(path, b"/etc/motd");
}

#[test]
fn test_read_missing_file_path() {
    let (lines, mut chars) = make_providers("w ");

    let err = read_file_path(&lines, &mut chars).unwrap_err();
    assert!(
        err.to_string()
            .contains("missing filename in r/R/w/W commands")
    );
}

#[test]
fn test_read_file_path_rejects_invalid_characters() {
    let lines = ScriptLineProvider::new(vec![]);
    let mut chars = ScriptCharProvider::new(b"w bad\xFFpath");
    let mut context = ProcessingContext::default();
    context.utf8_paths = true;

    let err = read_named_path(&lines, &mut chars, &context).unwrap_err();
    assert!(err.to_string().contains("invalid characters file path"));
}
