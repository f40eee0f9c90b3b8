//! Single cases of what holds in general.

use sedc::command::{CharacterMode, ProcessingContext, ReplacementPart};
use sedc::compiler::regex::bre_to_ere;
use sedc::compiler::replacement::compile_replacement;
use sedc::error_handling::{
    ScriptLocation, SedError, SedResult, char_column, input_runtime_error, location_prefix, quoted_input_error,
    remap_unterminated, runtime_error, semantic_error,
};
use sedc::fast_regex::Regex;
use sedc::in_place::{Attempt, InPlace, OutputPlan, not_regular_error};
use sedc::named_reader::NamedReader;
use sedc::named_writer::NamedWriter;
use sedc::script_char_provider::ScriptCharProvider;
use sedc::script_line_provider::{
    FileContent, ScriptFile, ScriptLineProvider, ScriptValue, describe_opening,
};

fn place() -> ScriptLocation {
    ScriptLocation { input_name: "script.sed".to_string(), line_number: 3, column_number: 7 }
}

#[test]
fn remapping_keeps_the_place() {
    for generic in ["unterminated regular expression", "Unterminated bracket expression"] {
        let result: SedResult<()> = semantic_error(&place(), generic);
        let error = remap_unterminated(result, "unterminated address regex").unwrap_err();
        assert_eq!(error.code, 1);
        assert_eq!(error.to_string(), "script.sed:3:7: error: unterminated address regex");
    }
}

#[test]
fn remapping_leaves_other_errors_alone() {
    let result: SedResult<()> = runtime_error(&place(), "unterminated thing");
    let error = remap_unterminated(result, "something else").unwrap_err();
    assert_eq!(error.code, 2);
    assert_eq!(error.to_string(), "script.sed:3:7: error: unterminated thing");
    assert_eq!(remap_unterminated(Ok(5), "something else").unwrap(), 5);
}

#[test]
fn a_place_is_an_expression_or_a_file() {
    assert_eq!(location_prefix("<script argument 12>", 4, 5), "-e expression #12, char 5");
    assert_eq!(location_prefix("<script argument 12", 4, 5), "<script argument 12:4:5: error");
    assert_eq!(location_prefix("a.sed", 4, 0), "a.sed:4:0: error");
}

#[test]
fn errors_on_input_show_its_name_in_quotes() {
    let mut context = ProcessingContext::default();
    context.input_name = "in put.txt".to_string();
    context.line_number = 12;
    let result: SedResult<()> = input_runtime_error(&place(), &context, "no match");
    let error = result.unwrap_err();
    assert_eq!(error.code, 2);
    assert_eq!(error.to_string(), "script.sed:3:7: 'in put.txt':12 error: no match");
    assert_eq!(
        quoted_input_error(&place(), "\"it's\"", 1, "no match").to_string(),
        "script.sed:3:7: \"it's\":1 error: no match"
    );
}

#[test]
fn errors_on_files_show_their_path_in_quotes() {
    let writer = NamedWriter::new(b"out file".to_vec(), place());
    let error = writer.creation_error("Permission denied");
    assert_eq!(error.code, 2);
    assert_eq!(
        error.to_string(),
        "script.sed:3:7: error: creating file 'out file': Permission denied"
    );
    assert_eq!(
        writer.write_error("No space").to_string(),
        "script.sed:3:7: error: writing to file 'out file': No space"
    );
    assert_eq!(
        writer.file_error("flushing ", "<out>", "No space").to_string(),
        "script.sed:3:7: error: flushing <out>: No space"
    );
    assert_eq!(describe_opening(b"a.sed"), "error opening script file 'a.sed'");
}

#[test]
fn standard_output_is_no_file() {
    let writer = NamedWriter::new(b"/dev/stdout".to_vec(), place());
    assert!(writer.is_standard_output());
    assert_eq!(writer.write_line("text", true), None);
    let writer = NamedWriter::new(b"/dev/stdouts".to_vec(), place());
    assert!(!writer.is_standard_output());
    assert_eq!(writer.write_line("t\u{e9}xt", true), Some("t\u{e9}xt\n".as_bytes().to_vec()));
}

#[test]
fn attempts_are_described() {
    let path = || b"dir/f".to_vec();
    assert_eq!(Attempt::ResolveLink(path()).describe(), "resolving symlink 'dir/f'");
    assert_eq!(
        Attempt::ReadMetadata(path()).describe(),
        "error Reading metadata of 'dir/f' for in-place edit"
    );
    assert_eq!(
        Attempt::CreateTemporary(b"dir".to_vec()).describe(),
        "error creating temporary file in 'dir'"
    );
    assert_eq!(
        Attempt::BackUp(path(), b"dir/f.bak".to_vec()).describe(),
        "error backing up 'dir/f' to 'dir/f.bak'"
    );
    assert_eq!(
        Attempt::RemoveOriginal(path()).describe(),
        "error removing original input file 'dir/f'"
    );
    assert_eq!(
        Attempt::Persist(b"dir/.tmp".to_vec(), path()).describe(),
        "error persisting temporary file 'dir/.tmp' to 'dir/f'"
    );
    assert_eq!(
        Attempt::BackUp(path(), path()).describe_with("a", "b"),
        "error backing up a to b"
    );
}

#[test]
fn only_regular_files_are_edited_in_place() {
    let mut context = ProcessingContext::default();
    context.in_place = true;
    let mut state = InPlace::new(&context);
    let error = state.begin(b"dir", false).unwrap_err();
    assert_eq!(error.code, 2);
    assert_eq!(error.to_string(), "cannot in-place edit non-regular file 'dir'");
    assert_eq!(state.original_path, None);
    assert_eq!(
        not_regular_error("<dir>").to_string(),
        "cannot in-place edit non-regular file <dir>"
    );
}

#[test]
fn the_file_begun_with_is_replaced() {
    let mut context = ProcessingContext::default();
    context.in_place = true;
    context.in_place_suffix = Some("~".to_string());
    context.null_data = true;
    let mut state = InPlace::new(&context);
    assert_eq!(state.delimiter, 0);
    for name in [&b"one"[..], &b"dir/two"[..]] {
        assert_eq!(state.begin(name, true).unwrap(), OutputPlan::TemporaryFile);
        let replacement = state.end().unwrap();
        assert_eq!(replacement.original, name);
        assert_eq!(replacement.backup, Some([name, b"~"].concat()));
        assert_eq!(state.original_path, None);
    }
}

#[test]
fn separate_streams_share_their_line_state() {
    let mut context = ProcessingContext::default();
    context.separate = true;
    let mut state = InPlace::new(&context);
    assert_eq!(state.begin(b"one", true).unwrap(), OutputPlan::KeepStandardOutput);
    assert!(state.end().is_none());
}

#[test]
fn literals_get_backslashes() {
    assert_eq!(bre_to_ere(b"a+b?{c}|(d)"), b"a\\+b\\?\\{c\\}\\|\\(d\\)");
}

#[test]
fn plain_patterns_stay() {
    assert_eq!(bre_to_ere(b"a.b*[c-d]"), b"a.b*[c-d]");
}

#[test]
fn operators_lose_their_backslash() {
    assert_eq!(bre_to_ere(b"\\(\\)\\{\\}\\+\\?\\|"), b"(){}+?|");
}

#[test]
fn a_replacement_joins_literal_text() {
    let mut lines = ScriptLineProvider::new(vec![]);
    let mut line = ScriptCharProvider::new(b"/a\\/b\\&&\\9\\0c/");
    let template = compile_replacement(&mut lines, &mut line, CharacterMode::Utf8).unwrap();
    assert_eq!(template.parts.len(), 5);
    assert!(matches!(&template.parts[0], ReplacementPart::Literal(t) if t == b"a/b&"));
    assert!(matches!(&template.parts[1], ReplacementPart::WholeMatch));
    assert!(matches!(&template.parts[2], ReplacementPart::Group(9)));
    assert!(matches!(&template.parts[3], ReplacementPart::WholeMatch));
    assert!(matches!(&template.parts[4], ReplacementPart::Literal(t) if t == b"c"));
    assert_eq!(template.max_group_number, 9);
}

#[test]
fn lines_make_up_their_script() {
    for (content, whole) in [
        (&b"one\n\ntwo\n"[..], &b"one\n\ntwo\n"[..]),
        (&b"one\ntwo"[..], &b"one\ntwo\n"[..]),
        (&b""[..], &b""[..]),
        (&b"\n"[..], &b"\n"[..]),
    ] {
        let mut provider = ScriptLineProvider::new(vec![ScriptValue::StringVal(content.to_vec())]);
        let mut joined = Vec::new();
        while let Some(line) = provider.next_line().unwrap() {
            joined.extend_from_slice(&line);
            joined.push(b'\n');
        }
        assert_eq!(joined, whole);
    }
}

#[test]
fn the_end_of_a_script_is_final() {
    let failed = ScriptValue::PathVal(ScriptFile {
        path: "a.sed".to_string(),
        content: FileContent::Opened(
            b"p\n".to_vec(),
            Some(SedError::new(1, "read error".to_string())),
        ),
    });
    let mut provider = ScriptLineProvider::new(vec![failed]);
    assert_eq!(provider.next_line().unwrap(), Some(b"p".to_vec()));
    for _ in 0..2 {
        assert_eq!(provider.next_line().unwrap_err().to_string(), "read error");
        assert_eq!((provider.get_input_name(), provider.get_line_number()), ("a.sed", 1));
    }
    let mut provider = ScriptLineProvider::new(vec![ScriptValue::StringVal(b"p".to_vec())]);
    assert_eq!(provider.next_line().unwrap(), Some(b"p".to_vec()));
    for _ in 0..2 {
        assert_eq!(provider.next_line().unwrap(), None);
        assert_eq!(provider.get_input_name(), "<script argument 1>");
        assert_eq!(provider.get_line_number(), 1);
    }
}

#[test]
fn lines_make_up_the_file_that_is_read() {
    let content = b"one\n\ntwo".to_vec();
    let mut reader = NamedReader::new(b"in".to_vec()).opened(content.clone(), false);
    assert_eq!(reader.path(), b"in");
    let mut joined = Vec::new();
    while let Some(line) = reader.next_line().unwrap() {
        joined.extend_from_slice(&line);
    }
    assert_eq!(joined, content);
    assert_eq!(reader.next_line().unwrap(), None);
}

#[test]
fn expressions_match_bytes_or_characters() {
    let bytes = Regex::new(b"^.$", CharacterMode::Byte).unwrap();
    let characters = Regex::new(b"^.$", CharacterMode::Utf8).unwrap();
    assert_eq!(bytes.is_match("\u{e9}".as_bytes()).unwrap(), false);
    assert_eq!(characters.is_match("\u{e9}".as_bytes()).unwrap(), true);
    assert_eq!(bytes.is_match(b"x").unwrap(), true);
    assert_eq!(Regex::new(b"(a)(b)", CharacterMode::Utf8).unwrap().captures_len(), 3);
    assert!(Regex::new(b"(a", CharacterMode::Utf8).is_err());
}

#[test]
fn a_failing_file_gives_its_whole_lines() {
    let mut reader = NamedReader::new(b"in".to_vec()).opened(b"one\ntw".to_vec(), true);
    assert_eq!(reader.next_line().unwrap(), Some(b"one\n".to_vec()));
    for _ in 0..2 {
        assert_eq!(reader.next_line().unwrap(), None);
    }
}

#[test]
fn a_directory_reads_as_empty() {
    let mut reader = NamedReader::new(b"/tmp".to_vec()).opened(Vec::new(), true);
    for _ in 0..2 {
        assert_eq!(reader.next_line().unwrap(), None);
    }
}

#[test]
fn the_end_names_the_last_script() {
    let scripts = vec![
        ScriptValue::StringVal(b"p\np\n".to_vec()),
        ScriptValue::StringVal(b"d\nd\nd".to_vec()),
    ];
    let mut provider = ScriptLineProvider::new(scripts);
    while provider.next_line().unwrap().is_some() {}
    assert_eq!(provider.get_input_name(), "<script argument 2>");
    assert_eq!(provider.get_line_number(), 3);
}

#[test]
fn an_ampersand_stands_for_group_zero() {
    let parts = |text: &[u8]| {
        let mut lines = ScriptLineProvider::new(vec![]);
        let mut line = ScriptCharProvider::new(text);
        let parts = compile_replacement(&mut lines, &mut line, CharacterMode::Utf8);
        format!("{:?}", parts.unwrap())
    };
    assert_eq!(parts(b"/a&b\\1&/"), parts(b"/a\\0b\\1\\0/"));
    assert_ne!(parts(b"/\\&/"), parts(b"/&/"));
}

#[test]
fn a_column_is_in_its_line() {
    let mut line = ScriptCharProvider::new(b"ab");
    assert_eq!(char_column(&line), 1);
    line.advance();
    assert_eq!(char_column(&line), 2);
    line.advance();
    assert_eq!(char_column(&line), 2);
    assert_eq!(char_column(&ScriptCharProvider::new(b"")), 0);
}
