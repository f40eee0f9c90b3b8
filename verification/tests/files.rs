//! Scripts, and the files that they name.

use sedc::command::ProcessingContext;
use sedc::error_handling::ScriptLocation;
use sedc::in_place::{InPlace, OutputPlan};
use sedc::named_reader::NamedReader;
use sedc::named_writer::NamedWriter;
use sedc::script_line_provider::{FileContent, ScriptFile, ScriptLineProvider, ScriptValue};

// A script file of the specified name that holds the specified bytes.
fn file(name: &str, content: &[u8]) -> ScriptValue {
    ScriptValue::PathVal(ScriptFile {
        path: name.to_string(),
        content: FileContent::Opened(content.to_vec(), None),
    })
}

#[test]
fn test_string_source() {
    let input = vec![
        ScriptValue::StringVal(b"line one\nline two\n".to_vec()),
        ScriptValue::StringVal(b"line three".to_vec()),
    ];
    let mut provider = ScriptLineProvider::new(input);

    let mut lines = Vec::new();
    while let Some(line) = provider.next_line().unwrap() {
        lines.push(String::from_utf8(line).unwrap().trim_end().to_string());
    }

    assert_eq!(lines, vec!["line one", "line two", "line three"]);
}

#[test]
fn test_file_source() {
    let input = vec![file("script.sed", b"file line 1\nfile line 2\n")];
    let mut provider = ScriptLineProvider::new(input);

    let mut lines = Vec::new();
    while let Some(line) = provider.next_line().unwrap() {
        lines.push(String::from_utf8(line).unwrap().trim_end().to_string());
    }

    assert_eq!(lines, vec!["file line 1", "file line 2"]);
}

#[test]
fn test_mixed_source() {
    let input = vec![
        file("one.sed", b"file line 1\nfile line 2\n"),
        ScriptValue::StringVal(b"script line 1".to_vec()),
        file("one.sed", b"file line 1\nfile line 2\n"),
        ScriptValue::StringVal(Vec::new()),
        file("empty.sed", b""),
        ScriptValue::StringVal(b"other script line 1".to_vec()),
    ];
    let mut provider = ScriptLineProvider::new(input);

    let mut lines = Vec::new();
    while let Some(line) = provider.next_line().unwrap() {
        lines.push(String::from_utf8(line).unwrap().trim_end().to_string());
    }

    assert_eq!(
        lines,
        vec![
            "file line 1",
            "file line 2",
            "script line 1",
            "file line 1",
            "file line 2",
            "other script line 1",
        ]
    );
}

#[test]
fn test_getters() {
    let input = vec![
        ScriptValue::StringVal(b"l1\nl2\n".to_vec()),
        ScriptValue::StringVal(b"l3".to_vec()),
    ];
    let mut provider = ScriptLineProvider::new(input);

    if let Some(line) = provider.next_line().unwrap() {
        assert_eq!(String::from_utf8(line).unwrap().trim(), "l1");
        assert_eq!(provider.get_line_number(), 1);
        assert_eq!(provider.get_input_name(), "<script argument 1>");
    } else {
        panic!("Expected a line");
    }

    if let Some(line) = provider.next_line().unwrap() {
        assert_eq!(String::from_utf8(line).unwrap().trim(), "l2");
        assert_eq!(provider.get_line_number(), 2);
        assert_eq!(provider.get_input_name(), "<script argument 1>");
    } else {
        panic!("Expected a line");
    }

    if let Some(line) = provider.next_line().unwrap() {
        assert_eq!(String::from_utf8(line).unwrap().trim(), "l3");
        assert_eq!(provider.get_line_number(), 1);
        assert_eq!(provider.get_input_name(), "<script argument 2>");
    } else {
        panic!("Expected a line");
    }
}

#[test]
fn test_file_source_preserves_invalid_utf8_bytes() {
    let input = vec![file("script.sed", b"s/\xC2\xE7/X/\n")];
    let mut provider = ScriptLineProvider::new(input);

    assert_eq!(provider.next_line().unwrap().unwrap(), b"s/\xC2\xE7/X/");
}

#[test]
fn reads_one_line_at_a_time() {
    let mut reader = NamedReader::new(b"input.txt".to_vec()).opened(b"one\ntwo\nthree".to_vec(), false);
    assert_eq!(reader.next_line().unwrap(), Some(b"one\n".to_vec()));
    assert_eq!(reader.next_line().unwrap(), Some(b"two\n".to_vec()));
    assert_eq!(reader.next_line().unwrap(), Some(b"three".to_vec()));
    assert_eq!(reader.next_line().unwrap(), None);
}

#[test]
fn missing_file_reads_as_empty() {
    let mut reader = NamedReader::new(b"/nonexistent/does-not-exist".to_vec());
    assert_eq!(reader.next_line().unwrap(), None);
}

#[test]
fn test_write_line_bytes_appends_newline() {
    let writer = NamedWriter::new(b"out.txt".to_vec(), ScriptLocation::default());

    assert_eq!(
        writer.write_line_bytes(b"a\xE9", true),
        Some(b"a\xE9\n".to_vec())
    );
}

#[test]
fn test_write_line_bytes_appends_no_newline() {
    let writer = NamedWriter::new(b"out.txt".to_vec(), ScriptLocation::default());

    assert_eq!(
        writer.write_line_bytes(b"a\xE9", false),
        Some(b"a\xE9".to_vec())
    );
}

fn minimal_context() -> ProcessingContext {
    ProcessingContext {
        in_place: false,
        in_place_suffix: None,
        follow_symlinks: false,
        // fill in default values for the rest as needed
        ..Default::default()
    }
}

#[test]
fn test_in_place_editing() {
    let mut ctx = minimal_context();
    ctx.in_place = true;

    let mut inplace = InPlace::new(&ctx);
    let plan = inplace.begin(b"/tmp/file.txt", true).unwrap();
    assert_eq!(plan, OutputPlan::TemporaryFile);
    let replacement = inplace.end().unwrap();

    assert_eq!(replacement.original, b"/tmp/file.txt");
    assert_eq!(replacement.backup, None);
}

#[test]
fn test_in_place_backup() {
    let mut ctx = minimal_context();
    ctx.in_place = true;
    ctx.in_place_suffix = Some(".bak".to_string());

    let mut inplace = InPlace::new(&ctx);
    let plan = inplace.begin(b"/tmp/file.txt", true).unwrap();
    assert_eq!(plan, OutputPlan::TemporaryFile);
    let replacement = inplace.end().unwrap();

    assert_eq!(replacement.original, b"/tmp/file.txt");
    assert_eq!(replacement.backup, Some(b"/tmp/file.txt.bak".to_vec()));
}

#[test]
fn test_no_in_place_outputs_to_stdout() {
    let mut ctx = minimal_context();
    ctx.in_place = false;

    let mut inplace = InPlace::new(&ctx);
    let plan = inplace.begin(b"fake.txt", false).unwrap();
    assert_eq!(plan, OutputPlan::FreshStandardOutput);
    assert!(inplace.end().is_none());
}
