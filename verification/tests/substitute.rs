//! Substitutions.

use sedc::command::{
    CharacterMode, Command, CommandData, ProcessingContext, ReplacementPart, ReplacementTemplate,
    Substitution,
};
use sedc::compiler::arguments::ERR_SANDBOX;
use sedc::compiler::flags::compile_subst_flags;
use sedc::compiler::replacement::compile_replacement;
use sedc::compiler::substitute::compile_subst_command;
use sedc::compiler::transliterate::compile_trans_command;
use sedc::error_handling::SedResult;
use sedc::script_char_provider::ScriptCharProvider;
use sedc::script_line_provider::{ScriptLineProvider, ScriptValue};

// Return an empty line provider and a char provider for the specified str.
fn make_providers(input: &str) -> (ScriptLineProvider, ScriptCharProvider) {
    let lines = ScriptLineProvider::new(vec![]); // Empty for tests
    let line = ScriptCharProvider::new(input.as_bytes());
    (lines, line)
}

/// Return a default ProcessingContext for use in tests.
fn ctx() -> ProcessingContext {
    ProcessingContext::default()
}

/// Compile a regular expression replacement string in UTF-8 mode.
fn compile_replacement_utf8(
    lines: &mut ScriptLineProvider,
    line: &mut ScriptCharProvider,
) -> SedResult<ReplacementTemplate> {
    compile_replacement(lines, line, CharacterMode::Utf8)
}

#[test]
fn test_compile_replacement_literal() {
    let (mut lines, mut chars) = make_providers("/hello/");
    let template = compile_replacement_utf8(&mut lines, &mut chars).unwrap();

    assert_eq!(template.parts.len(), 1);
    assert!(matches!(&template.parts[0], ReplacementPart::Literal(s) if s == b"hello"));
}

#[test]
fn test_compile_replacement_escaped_delimiter() {
    let (mut lines, mut chars) = make_providers(r"/hell\/o/");
    let template = compile_replacement_utf8(&mut lines, &mut chars).unwrap();

    assert_eq!(template.parts.len(), 1);
    assert!(matches!(&template.parts[0], ReplacementPart::Literal(s) if s == b"hell/o"));
}

#[test]
fn test_compile_replacement_backrefs_and_literal() {
    let (mut lines, mut chars) = make_providers("/prefix \\1 and \\2/");
    let template = compile_replacement_utf8(&mut lines, &mut chars).unwrap();

    assert_eq!(template.parts.len(), 4);
    assert!(matches!(&template.parts[0], ReplacementPart::Literal(s) if s == b"prefix "));
    assert!(matches!(&template.parts[1], ReplacementPart::Group(1)));
    assert!(matches!(&template.parts[2], ReplacementPart::Literal(s) if s == b" and "));
    assert!(matches!(&template.parts[3], ReplacementPart::Group(2)));
}

#[test]
fn test_compile_replacement_whole_match() {
    let (mut lines, mut chars) = make_providers("/The match was: &/");
    let template = compile_replacement_utf8(&mut lines, &mut chars).unwrap();

    assert_eq!(template.parts.len(), 2);
    assert!(
        matches!(&template.parts[0], ReplacementPart::Literal(s) if s == b"The match was: ")
    );
    assert!(matches!(&template.parts[1], ReplacementPart::WholeMatch));
}

#[test]
fn test_compile_replacement_whole_match_synonym() {
    let (mut lines, mut chars) = make_providers(r"/The match was: \0/");
    let template = compile_replacement_utf8(&mut lines, &mut chars).unwrap();

    assert_eq!(template.parts.len(), 2);
    assert!(
        matches!(&template.parts[0], ReplacementPart::Literal(s) if s == b"The match was: ")
    );
    assert!(matches!(&template.parts[1], ReplacementPart::WholeMatch));
}

#[test]
fn test_compile_replacement_ampersand() {
    let (mut lines, mut chars) = make_providers("/Simon \\& Garfunkel/");
    let template = compile_replacement_utf8(&mut lines, &mut chars).unwrap();

    assert_eq!(template.parts.len(), 1);
    assert!(
        matches!(&template.parts[0], ReplacementPart::Literal(s) if s == b"Simon & Garfunkel")
    );
}

#[test]
fn test_compile_replacement_escape_sequences() {
    let (mut lines, mut chars) = make_providers("/line\\nnewline\\tend/");
    let template = compile_replacement_utf8(&mut lines, &mut chars).unwrap();

    assert_eq!(template.parts.len(), 1);
    assert!(matches!(
        &template.parts[0],
        ReplacementPart::Literal(s) if s == b"line\nnewline\tend"
    ));
}

#[test]
fn test_compile_replacement_escape_byte_mode() {
    let (mut lines, mut chars) = make_providers("/\\xE9/");
    let template = compile_replacement(&mut lines, &mut chars, CharacterMode::Byte).unwrap();

    assert_eq!(template.parts.len(), 1);
    assert!(matches!(&template.parts[0], ReplacementPart::Literal(s) if s == b"\xE9"));
}

#[test]
fn test_compile_replacement_escape_utf8_mode() {
    // GNU inserts the literal byte a `\xHH` escape produces, never a UTF-8 encoding of it,
    // regardless of character mode: same expectation as `..._byte_mode` above.
    let (mut lines, mut chars) = make_providers("/\\xE9/");
    let template = compile_replacement(&mut lines, &mut chars, CharacterMode::Utf8).unwrap();

    assert_eq!(template.parts.len(), 1);
    assert!(matches!(&template.parts[0], ReplacementPart::Literal(s) if s == b"\xE9"));
}

#[test]
fn test_compile_replacement_line_continuation() {
    let script = vec![
        ScriptValue::StringVal(b"/first line\\".to_vec()),
        ScriptValue::StringVal(b" continued/".to_vec()),
    ];
    let mut provider = ScriptLineProvider::new(script);
    let first_line = provider.next_line().unwrap().unwrap();
    let mut chars = ScriptCharProvider::new(&first_line);

    let template = compile_replacement_utf8(&mut provider, &mut chars).unwrap();
    assert_eq!(template.parts.len(), 1);
    assert!(matches!(
        &template.parts[0],
        ReplacementPart::Literal(s) if s == b"first line\n continued"
    ));
}

#[test]
fn test_compile_replacement_preserves_invalid_utf8_script_byte() {
    let mut chars = ScriptCharProvider::new(b"/\xC2/");
    let mut lines = ScriptLineProvider::new(vec![]);

    let template = compile_replacement_utf8(&mut lines, &mut chars).unwrap();

    assert_eq!(template.parts.len(), 1);
    assert!(matches!(&template.parts[0], ReplacementPart::Literal(s) if s == b"\xC2"));
}

#[test]
fn test_compile_replacement_preserves_unknown_escape() {
    let (mut lines, mut chars) = make_providers(r"/a\q/");
    let template = compile_replacement_utf8(&mut lines, &mut chars).unwrap();

    assert_eq!(template.parts.len(), 1);
    assert!(matches!(&template.parts[0], ReplacementPart::Literal(s) if s == br"a\q"));
}

#[test]
fn test_compile_replacement_eof_after_backslash() {
    let (mut lines, mut chars) = make_providers(r"/abc\");
    let err = compile_replacement_utf8(&mut lines, &mut chars).unwrap_err();

    assert!(err.to_string().contains("unterminated `s' command"));
}

#[test]
fn test_compile_replacement_unescaped_newline() {
    let (mut lines, mut chars) = make_providers("/abc\n/");
    let err = compile_replacement_utf8(&mut lines, &mut chars).unwrap_err();

    assert!(
        err.to_string()
            .contains("unescaped newline inside substitute replacement")
    );
}

#[test]
fn test_compile_replacement_unterminated() {
    let (mut lines, mut chars) = make_providers("/abc");
    let err = compile_replacement_utf8(&mut lines, &mut chars).unwrap_err();

    assert!(err.to_string().contains("unterminated `s' command"));
}

// compile_subst_flags
#[test]
fn test_compile_subst_flag_g() {
    let (lines, mut chars) = make_providers("g");
    let mut subst = Substitution::default();

    compile_subst_flags(&lines, &mut chars, &mut subst, false, false).unwrap();
    assert_eq!(subst.occurrence, 0); // 'g' means all occurrences
}

#[test]
fn test_compile_subst_flag_p() {
    let (lines, mut chars) = make_providers("p");
    let mut subst = Substitution::default();

    compile_subst_flags(&lines, &mut chars, &mut subst, false, false).unwrap();
    assert!(subst.print_flag);
}

#[test]
fn test_compile_subst_flag_uppercase_i() {
    let (lines, mut chars) = make_providers("I");
    let mut subst = Substitution::default();

    compile_subst_flags(&lines, &mut chars, &mut subst, false, false).unwrap();
    assert!(subst.ignore_case);
}

#[test]
fn test_compile_subst_flag_i_lowercase() {
    let (lines, mut chars) = make_providers("i");
    let mut subst = Substitution::default();

    compile_subst_flags(&lines, &mut chars, &mut subst, false, false).unwrap();
    assert!(subst.ignore_case);
}

#[test]
fn test_compile_subst_flag_uppercase_m() {
    let (lines, mut chars) = make_providers("M");
    let mut subst = Substitution::default();

    compile_subst_flags(&lines, &mut chars, &mut subst, false, false).unwrap();
    assert!(subst.multiline);
}

#[test]
fn test_compile_subst_flag_m_lowercase() {
    let (lines, mut chars) = make_providers("m");
    let mut subst = Substitution::default();

    compile_subst_flags(&lines, &mut chars, &mut subst, false, false).unwrap();
    assert!(subst.multiline);
}

#[test]
fn test_compile_subst_flag_number() {
    let (lines, mut chars) = make_providers("3");
    let mut subst = Substitution::default();

    compile_subst_flags(&lines, &mut chars, &mut subst, false, false).unwrap();
    assert_eq!(subst.occurrence, 3);
}

#[test]
fn test_compile_subst_flag_g_and_number_combine() {
    // GNU: replace the Nth match and every later one, in either order.
    for flags in ["g3", "3g"] {
        let (lines, mut chars) = make_providers(flags);
        let mut subst = Substitution::default();
        compile_subst_flags(&lines, &mut chars, &mut subst, false, false).unwrap();
        assert_eq!((subst.occurrence, subst.global), (3, true));
    }
    let (lines, mut chars) = make_providers("1g");
    let mut subst = Substitution::default();
    compile_subst_flags(&lines, &mut chars, &mut subst, false, false).unwrap();
    assert_eq!((subst.occurrence, subst.global), (0, false));
}

#[test]
fn test_compile_subst_flag_repeated_g_or_number_fails() {
    for flags in ["gg", "3g4"] {
        let (lines, mut chars) = make_providers(flags);
        let mut subst = Substitution::default();
        let err =
            compile_subst_flags(&lines, &mut chars, &mut subst, false, false).unwrap_err();
        assert!(
            err.to_string()
                .contains("multiple `g' options to `s' command")
        );
    }
}

#[test]
fn test_compile_subst_flag_w_missing_filename() {
    let (lines, mut chars) = make_providers("w ");
    let mut subst = Substitution::default();

    let err = compile_subst_flags(&lines, &mut chars, &mut subst, false, false).unwrap_err();
    assert!(
        err.to_string()
            .contains("missing filename in r/R/w/W commands")
    );
}

#[test]
fn test_compile_subst_flag_w_with_filename() {
    let tmp_dir = tempfile::tempdir().expect("failed to create tmp folder");
    let out = tmp_dir.path().join("out.txt");
    let (lines, mut chars) = make_providers(&format!("w {}", out.display()));
    let mut subst = Substitution::default();

    compile_subst_flags(&lines, &mut chars, &mut subst, false, false).unwrap();
    assert_eq!(
        subst.write_file.as_ref().map(|w| w.path.clone()),
        Some(out.display().to_string().into_bytes())
    );
}

#[test]
fn test_compile_subst_flag_w_rejected_under_sandbox() {
    let (lines, mut chars) = make_providers("w out.txt");
    let mut subst = Substitution::default();

    let err = compile_subst_flags(&lines, &mut chars, &mut subst, false, true).unwrap_err();
    assert!(err.to_string().contains(ERR_SANDBOX));
}

#[test]
fn test_compile_subst_flag_e() {
    let (lines, mut chars) = make_providers("e");
    let mut subst = Substitution::default();

    compile_subst_flags(&lines, &mut chars, &mut subst, false, false).unwrap();
    assert!(subst.execute);
}

#[test]
fn test_compile_subst_flag_e_rejected_under_posix() {
    let (lines, mut chars) = make_providers("e");
    let mut subst = Substitution::default();

    let err = compile_subst_flags(&lines, &mut chars, &mut subst, true, false).unwrap_err();
    assert!(
        err.to_string()
            .contains("not allowed with --posix or --sandbox")
    );
}

#[test]
fn test_compile_subst_flag_e_rejected_under_sandbox() {
    let (lines, mut chars) = make_providers("e");
    let mut subst = Substitution::default();

    let err = compile_subst_flags(&lines, &mut chars, &mut subst, false, true).unwrap_err();
    assert!(
        err.to_string()
            .contains("not allowed with --posix or --sandbox")
    );
}

#[test]
fn test_compile_subst_flag_invalid_flag() {
    let (lines, mut chars) = make_providers("z");
    let mut subst = Substitution::default();

    let err = compile_subst_flags(&lines, &mut chars, &mut subst, false, false).unwrap_err();
    assert!(err.to_string().contains("unknown option to `s'"));
}

// compile_subst_command
#[test]
fn test_compile_subst_invalid_delimiter_backslash() {
    let (mut lines, mut chars) = make_providers("s\\foo\\bar\\");
    let mut cmd = Command::default();
    let mut context = ctx();

    let err =
        compile_subst_command(&mut lines, &mut chars, &mut cmd, &mut context).unwrap_err();
    assert!(
        err.to_string()
            .contains("substitute pattern cannot be delimited")
    );
}

#[test]
fn test_compile_subst_extra_characters_at_end() {
    let (mut lines, mut chars) = make_providers("s/foo/bar/x");
    let mut cmd = Command::default();
    let mut context = ctx();

    let err =
        compile_subst_command(&mut lines, &mut chars, &mut cmd, &mut context).unwrap_err();
    assert!(err.to_string().contains("unknown option to `s'"));
}

#[test]
fn test_compile_subst_semicolon_indicates_continue() {
    let (mut lines, mut chars) = make_providers("s/foo/bar/;");
    let mut cmd = Command::default();
    let mut context = ctx();

    compile_subst_command(&mut lines, &mut chars, &mut cmd, &mut context).unwrap();

    if let CommandData::Substitution(subst) = &cmd.data {
        assert_eq!(subst.replacement.parts.len(), 1);
    } else {
        panic!("Expected CommandData::Substitution");
    }
}

#[test]
fn test_compile_subst_sets_command_data() {
    let (mut lines, mut chars) = make_providers("s/foo/bar/");
    let mut cmd = Command::default();
    let mut context = ctx();

    compile_subst_command(&mut lines, &mut chars, &mut cmd, &mut context).unwrap();
    match &cmd.data {
        CommandData::Substitution(subst) => {
            assert_eq!(subst.replacement.parts.len(), 1);
            assert!(
                matches!(&subst.replacement.parts[0], ReplacementPart::Literal(s) if s == b"bar")
            );
        }
        _ => panic!("Expected CommandData::Substitution"),
    }
}

#[test]
fn test_compile_subst_invalid_group_reference() {
    let (mut lines, mut chars) = make_providers(r"s/f(o)o/\2/");
    let mut cmd = Command::default();
    let mut context = ctx();

    let err =
        compile_subst_command(&mut lines, &mut chars, &mut cmd, &mut context).unwrap_err();
    assert!(err.to_string().contains("invalid reference \\2"));
}

#[test]
fn test_compile_subst_empty_re_rejects_modifiers() {
    let (mut lines, mut chars) = make_providers("s//x/I");
    let mut cmd = Command::default();
    let mut context = ctx();

    let err =
        compile_subst_command(&mut lines, &mut chars, &mut cmd, &mut context).unwrap_err();
    assert!(
        err.to_string()
            .contains("cannot specify modifiers on an empty regular expression")
    );
}

#[test]
fn test_compile_trans_command_sets_command_data() {
    let (mut lines, mut chars) = make_providers("y/ab/xy/");
    let mut cmd = Command::default();
    let mut context = ProcessingContext {
        character_mode: CharacterMode::Byte,
        ..ctx()
    };

    compile_trans_command(&mut lines, &mut chars, &mut cmd, &mut context).unwrap();
    match &cmd.data {
        CommandData::Transliteration(trans) => {
            assert_eq!(trans.lookup_byte(b'a'), b'x');
            assert_eq!(trans.lookup_byte(b'b'), b'y');
            assert_eq!(trans.lookup_byte(b'c'), b'c');
        }
        _ => panic!("Expected CommandData::Transliteration"),
    }
}
