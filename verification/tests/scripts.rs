//! What becomes of whole scripts: the diagnostics of wrong ones, and the structure of right ones.

use sedc::command::{Address, CommandData, ProcessingContext, Transliteration};
use sedc::compiler::compile;
use sedc::error_handling::{SedError, SedResult};
use sedc::script_line_provider::{FileContent, ScriptFile, ScriptValue};

fn string(script: &str) -> ScriptValue {
    ScriptValue::StringVal(script.as_bytes().to_vec())
}

fn file(name: &str, content: &str) -> ScriptValue {
    ScriptValue::PathVal(ScriptFile {
        path: name.to_string(),
        content: FileContent::Opened(content.as_bytes().to_vec(), None),
    })
}

fn compile_in(context: &mut ProcessingContext, script: &str) -> SedResult<Option<usize>> {
    compile(vec![string(script)], context)
}

// The context of a script that compiles, and its first command.
fn compiled(script: &str) -> (ProcessingContext, Option<usize>) {
    let mut context = ProcessingContext::default();
    let first = compile_in(&mut context, script).unwrap();
    (context, first)
}

// The diagnostic of a script that does not compile.
fn error_in(context: &mut ProcessingContext, script: &str) -> String {
    let error = compile_in(context, script).unwrap_err();
    assert_eq!(error.code, 1);
    error.to_string()
}

fn error(script: &str) -> String {
    error_in(&mut ProcessingContext::default(), script)
}

fn posix_error(script: &str) -> String {
    let mut context = ProcessingContext::default();
    context.posix = true;
    error_in(&mut context, script)
}

fn sandbox_error(script: &str) -> String {
    let mut context = ProcessingContext::default();
    context.sandbox = true;
    let message = error_in(&mut context, script);
    assert!(context.writers.is_empty());
    message
}

fn codes(context: &ProcessingContext) -> String {
    context.commands.iter().map(|c| c.code).collect()
}

fn nexts(context: &ProcessingContext) -> Vec<Option<usize>> {
    context.commands.iter().map(|c| c.next).collect()
}

fn target(context: &ProcessingContext, id: usize) -> Option<usize> {
    match &context.commands[id].data {
        CommandData::BranchTarget(target) => *target,
        other => panic!("no branch target: {other:?}"),
    }
}

#[test]
fn a_closing_brace_needs_an_opening_one() {
    assert_eq!(error("p}"), "-e expression #1, char 2: unexpected `}'");
}

#[test]
fn an_opening_brace_needs_a_closing_one() {
    assert_eq!(error("p;{p"), "-e expression #1, char 0: unmatched `{'");
    assert_eq!(error("{{p}"), "-e expression #1, char 0: unmatched `{'");
}

#[test]
fn an_unknown_command_is_shown() {
    assert_eq!(error("k"), "-e expression #1, char 1: unknown command: `k'");
}

#[test]
fn an_address_needs_a_command() {
    assert_eq!(error("12"), "-e expression #1, char 2: command expected");
}

#[test]
fn a_label_takes_no_address() {
    assert_eq!(
        error("1,2:a"),
        "-e expression #1, char 4: command : expects up to 0 address(es), found 2"
    );
}

#[test]
fn a_substitution_needs_all_its_delimiters() {
    assert_eq!(error("s/a/b"), "-e expression #1, char 5: unterminated `s' command");
    assert_eq!(error("s/a"), "-e expression #1, char 3: unterminated `s' command");
    assert_eq!(error("s/[a"), "-e expression #1, char 4: unterminated `s' command");
    assert_eq!(error("s"), "-e expression #1, char 1: unterminated `s' command");
}

#[test]
fn an_address_regex_needs_its_delimiter() {
    assert_eq!(error("/abc"), "-e expression #1, char 4: unterminated address regex");
}

#[test]
fn a_separator_needs_a_second_address() {
    assert_eq!(error("1,d"), "-e expression #1, char 3: unexpected `,'");
    assert_eq!(error("1~d"), "-e expression #1, char 3: unexpected `~'");
}

#[test]
fn line_zero_is_restricted() {
    let usage =
        "address 0 can only be used with ~step, a second regular expression, or a read command";
    assert_eq!(error("0p"), format!("-e expression #1, char 2: {usage}"));
    assert_eq!(error("0,3p"), format!("-e expression #1, char 4: {usage}"));
    assert!(compile_in(&mut ProcessingContext::default(), "0,/x/p").is_ok());
    assert!(compile_in(&mut ProcessingContext::default(), "0~4p").is_ok());
}

#[test]
fn posix_mode_refuses_extensions() {
    assert_eq!(
        posix_error("0~4p"),
        "-e expression #1, char 2: address 0 is invalid in POSIX mode"
    );
    assert_eq!(
        posix_error("1~4p"),
        "-e expression #1, char 3: ~step is invalid in POSIX mode"
    );
    assert_eq!(posix_error("z"), "-e expression #1, char 1: unknown command: `z'");
    assert_eq!(posix_error("s/a/b/I"), "-e expression #1, char 7: unknown option to `s'");
    assert_eq!(
        posix_error("e"),
        "-e expression #1, char 1: the 'e' command is not allowed with --posix or --sandbox"
    );
    assert_eq!(
        posix_error("1,2="),
        "-e expression #1, char 4: command = expects up to 1 address(es), found 2"
    );
}

#[test]
fn the_sandbox_refuses_files_and_programs() {
    let files = "e/r/w commands disabled in sandbox mode";
    for script in ["r in", "R in", "w out", "W out"] {
        assert_eq!(sandbox_error(script), format!("-e expression #1, char 1: {files}"));
    }
    assert_eq!(sandbox_error("s/a/b/w out"), format!("-e expression #1, char 7: {files}"));
    assert_eq!(
        sandbox_error("e"),
        "-e expression #1, char 1: the 'e' command is not allowed with --posix or --sandbox"
    );
    assert_eq!(
        sandbox_error("s/a/b/e"),
        "-e expression #1, char 7: the 'e' substitute flag is not allowed with --posix or --sandbox"
    );
}

#[test]
fn a_branch_needs_its_label() {
    assert_eq!(error("p;b x"), "-e expression #1, char 3: undefined label `x'");
}

#[test]
fn a_label_is_defined_once() {
    assert_eq!(error(":a\n{:a\n}"), "-e expression #1, char 2: duplicate label `a'");
    assert_eq!(error(":"), "-e expression #1, char 1: empty label");
}

#[test]
fn a_command_is_negated_once() {
    assert_eq!(error("!!p"), "-e expression #1, char 3: multiple `!'s");
    let (context, _) = compiled("1!{p}");
    assert!(context.commands[0].non_select);
    assert_eq!(context.commands[0].code, '{');
}

#[test]
fn nothing_follows_a_command_without_argument() {
    assert_eq!(
        error("dp"),
        "-e expression #1, char 2: extra characters at the end of the d command"
    );
}

#[test]
fn blocks_nest_up_to_a_limit() {
    let deepest = format!("{}p{}", "{".repeat(5000), "}".repeat(5000));
    let (context, first) = compiled(&deepest);
    assert_eq!(first, Some(0));
    assert_eq!(context.commands.len(), 5001);
    assert_eq!(
        error(&"{".repeat(5001)),
        "-e expression #1, char 5001: `{' blocks are nested too deeply"
    );
}

#[test]
fn a_version_is_not_newer_than_this_one() {
    assert_eq!(codes(&compiled("v 4.9;p").0), "vp");
    assert_eq!(codes(&compiled("v").0), "v");
    assert_eq!(codes(&compiled("v 3.99.255").0), "v");
    assert_eq!(error("v 4.10"), "-e expression #1, char 6: expected newer version of sed");
    assert_eq!(error("v 4.9.1"), "-e expression #1, char 7: expected newer version of sed");
    assert_eq!(error("v 4.x"), "-e expression #1, char 5: invalid version of sed");
    assert_eq!(error("v 256"), "-e expression #1, char 5: invalid version of sed");
    assert_eq!(error("v 1.2.3.4"), "-e expression #1, char 9: invalid version of sed");
}

#[test]
fn a_transliteration_needs_strings_of_one_length() {
    assert_eq!(
        error("y/abc/de/"),
        "-e expression #1, char 9: strings for `y' command are different lengths"
    );
    assert_eq!(
        error("y\\a\\b\\"),
        "-e expression #1, char 2: transliteration string cannot be delimited by newline or backslash"
    );
}

#[test]
fn a_transliteration_pairs_its_strings() {
    let (context, _) = compiled("y/abc/xyz/");
    let CommandData::Transliteration(trans) = &context.commands[0].data else {
        panic!("no transliteration");
    };
    assert!(matches!(**trans, Transliteration::Text(..)));
    assert_eq!(trans.lookup_char('b'), 'y');
    assert_eq!(trans.lookup_char('d'), 'd');
}

#[test]
fn bytes_are_transliterated_by_themselves() {
    let trans = Transliteration::from_bytes(b"aba", b"xyz");
    assert_eq!(trans.lookup_byte(b'a'), b'z');
    assert_eq!(trans.lookup_byte(b'b'), b'y');
    assert_eq!(trans.lookup_byte(b'c'), b'c');
    let trans = Transliteration::from_strings("äb", "bä");
    assert_eq!(trans.lookup_char('ä'), 'b');
    assert_eq!(trans.lookup_char('b'), 'ä');
}

#[test]
fn a_number_must_fit() {
    assert_eq!(
        error("99999999999999999999p"),
        "-e expression #1, char 21: invalid number '99999999999999999999'"
    );
    assert_eq!(error("1,+p"), "-e expression #1, char 4: number expected");
    assert_eq!(
        error("s/a/b/99999999999999999999"),
        "-e expression #1, char 26: overflow in numeric substitute flag"
    );
}

#[test]
fn a_group_must_exist() {
    assert_eq!(
        error("s/\\(a\\)/\\2/"),
        "-e expression #1, char 11: invalid reference \\2 on `s' command's RHS"
    );
    assert!(compile_in(&mut ProcessingContext::default(), "s//\\9/").is_ok());
}

#[test]
fn a_wrong_expression_is_shown_as_compiled() {
    let message = error("/a\\(/p");
    assert!(message.starts_with("-e expression #1, char 6: invalid regex 'a(': "), "{message}");
}

#[test]
fn text_needs_to_be_there() {
    assert_eq!(error("a"), "-e expression #1, char 1: expected \\ after `a', `c' or `i'");
    assert_eq!(
        posix_error("a text"),
        "-e expression #1, char 3: expected \\ after `a', `c' or `i'"
    );
    assert_eq!(posix_error("a\\"), "-e expression #1, char 2: incomplete command");
}

#[test]
fn later_expressions_are_counted() {
    let mut context = ProcessingContext::default();
    let error = compile(vec![string("p"), string("p\ndp")], &mut context).unwrap_err();
    assert_eq!(
        error.to_string(),
        "-e expression #2, char 2: extra characters at the end of the d command"
    );
}

#[test]
fn files_are_named_with_line_and_column() {
    let mut context = ProcessingContext::default();
    let error = compile(vec![file("script.sed", "p\n  k\n")], &mut context).unwrap_err();
    assert_eq!(error.to_string(), "script.sed:2:3: error: unknown command: `k'");
    let error = compile(vec![file("-", "k\n")], &mut context).unwrap_err();
    assert_eq!(error.to_string(), "<stdin>:1:1: error: unknown command: `k'");
}

#[test]
fn a_file_that_cannot_be_read_fails_the_script() {
    let failure = || {
        let message = "error opening script file 'missing': No such file or directory";
        SedError::new(1, message.to_string())
    };
    let missing = ScriptValue::PathVal(ScriptFile {
        path: "missing".to_string(),
        content: FileContent::Unopened(failure()),
    });
    let mut context = ProcessingContext::default();
    let error = compile(vec![string("p"), missing], &mut context).unwrap_err();
    assert_eq!(error.to_string(), failure().to_string());
    // Reading stops behind the lines that are complete.
    let broken = ScriptValue::PathVal(ScriptFile {
        path: "broken".to_string(),
        content: FileContent::Opened(b"p\nk".to_vec(), Some(failure())),
    });
    let mut context = ProcessingContext::default();
    let error = compile(vec![broken], &mut context).unwrap_err();
    assert_eq!(error.to_string(), failure().to_string());
    assert_eq!(codes(&context), "p");
}

#[test]
fn a_first_comment_can_suppress_output() {
    assert!(compiled("#n\np").0.quiet);
    assert!(compiled("#nothing").0.quiet);
    assert!(!compiled("# n\np").0.quiet);
    assert!(!compiled(" #n\np").0.quiet);
    assert!(!compiled("p\n#n").0.quiet);
}

#[test]
fn only_the_first_line_of_all_scripts_can_suppress_output() {
    for (scripts, quiet) in [
        (vec!["#n", "p"], true),
        (vec!["", "#n"], true),
        (vec!["p", "#n"], false),
        (vec!["\n", "#n"], false),
        (vec!["# a comment", "#n\np"], false),
    ] {
        let mut context = ProcessingContext::default();
        let sources = scripts.iter().map(|script| string(script)).collect();
        compile(sources, &mut context).unwrap();
        assert_eq!(context.quiet, quiet, "{:?}", scripts);
    }
}

#[test]
fn paths_may_have_to_be_utf8() {
    for script in [&b"r\xFF"[..], b"R a\xFF", b"w \xFF", b"W \xFFb", b"s/a/b/w \xFF"] {
        let mut context = ProcessingContext::default();
        let source = ScriptValue::StringVal(script.to_vec());
        compile(vec![source], &mut context).unwrap();
        let mut context = ProcessingContext::default();
        context.utf8_paths = true;
        let source = ScriptValue::StringVal(script.to_vec());
        let error = compile(vec![source], &mut context).unwrap_err();
        assert_eq!(error.code, 1);
        assert!(error.to_string().contains("invalid characters file path"));
        assert!(context.writers.is_empty());
    }
    let mut context = ProcessingContext::default();
    context.utf8_paths = true;
    compile_in(&mut context, "r f\u{e9}").unwrap();
    match &context.commands[0].data {
        CommandData::Path(path) => assert_eq!(path, "f\u{e9}".as_bytes()),
        data => panic!("Expected a path: {:?}", data),
    }
}

#[test]
fn an_error_tells_what_the_engine_said() {
    let mut context = ProcessingContext::default();
    let error = compile_in(&mut context, "s/\\(a/b/").unwrap_err();
    let reason = error.reason.clone().unwrap();
    assert!(!reason.is_empty());
    assert!(error.to_string().ends_with(&reason));
    let error = compile_in(&mut ProcessingContext::default(), "k").unwrap_err();
    assert_eq!(error.reason, None);
}

#[test]
fn layout_is_no_matter() {
    let cmds = ["3p", "G", "12=", "l", "N", "x", "2q"];
    let mut contexts = Vec::new();
    for sources in [
        vec![string(&cmds.join(";"))],
        vec![string(&cmds.join("\n"))],
        vec![string(&format!("{}\n", cmds.join("\n")))],
        cmds.iter().map(|cmd| string(cmd)).collect(),
    ] {
        let mut context = ProcessingContext::default();
        assert_eq!(compile(sources, &mut context).unwrap(), Some(0));
        contexts.push(context);
    }
    for context in &contexts {
        assert_eq!(codes(context), "pG=lNxq");
        assert_eq!(
            nexts(context),
            vec![Some(1), Some(2), Some(3), Some(4), Some(5), Some(6), None]
        );
        for (command, other) in context.commands.iter().zip(&contexts[0].commands) {
            assert_eq!(format!("{:?}", command.addr1), format!("{:?}", other.addr1));
            assert!(command.addr2.is_none());
            assert!(!command.non_select);
            assert_eq!(format!("{:?}", command.data), format!("{:?}", other.data));
        }
    }
    assert!(matches!(contexts[0].commands[0].addr1, Some(Address::Line(3))));
    assert!(matches!(contexts[0].commands[6].data, CommandData::Number(0)));
    assert_eq!(contexts[3].commands[2].location.input_name, "<script argument 3>");
}

#[test]
fn blocks_that_are_open_before_the_script_stay_open() {
    let open = |depth: usize, script: &str| {
        let mut context = ProcessingContext::default();
        context.parsed_block_nesting = depth;
        error_in(&mut context, script)
    };
    assert_eq!(open(1, "p"), "-e expression #1, char 0: unmatched `{'");
    assert_eq!(open(2, "p;{d}"), "-e expression #1, char 0: unmatched `{'");
    assert_eq!(open(1, "p\nk"), "-e expression #1, char 1: unknown command: `k'");
    assert_eq!(open(1, "}\n}"), "-e expression #1, char 1: unexpected `}'");
    assert_eq!(open(2, "}\n}"), "-e expression #1, char 1: unexpected `}'");
    assert_eq!(open(1, "}\nk"), "-e expression #1, char 1: unknown command: `k'");
    assert_eq!(open(5000, "{"), "-e expression #1, char 1: `{' blocks are nested too deeply");
}

#[test]
fn a_script_without_commands_has_no_first() {
    let (context, first) = compiled("# nothing\n;;\n  \n");
    assert_eq!(first, None);
    assert!(context.commands.is_empty());
}

#[test]
fn the_end_of_a_block_leads_behind_it() {
    let (context, first) = compiled("1{p;d};q");
    assert_eq!(first, Some(0));
    assert_eq!(codes(&context), "{pdq");
    assert_eq!(nexts(&context), vec![Some(3), Some(2), Some(3), None]);
    assert_eq!(target(&context, 0), Some(1));
}

#[test]
fn the_ends_of_nested_blocks_lead_behind_all_of_them() {
    let (context, _) = compiled("{{p}};q");
    assert_eq!(codes(&context), "{{pq");
    assert_eq!(nexts(&context), vec![Some(3), Some(3), Some(3), None]);
    // The inner block is followed by another command of the outer one.
    let (context, _) = compiled("{{p};d}");
    assert_eq!(codes(&context), "{{pd");
    assert_eq!(nexts(&context), vec![None, Some(3), Some(3), None]);
    assert_eq!(target(&context, 0), Some(1));
    assert_eq!(target(&context, 1), Some(2));
}

#[test]
fn different_blocks_end_apart() {
    let (context, _) = compiled("{p};{d};q");
    assert_eq!(codes(&context), "{p{dq");
    assert_eq!(nexts(&context), vec![Some(2), Some(2), Some(4), Some(4), None]);
}

#[test]
fn an_empty_block_leads_nowhere() {
    let (context, _) = compiled("{};p");
    assert_eq!(target(&context, 0), None);
    assert_eq!(nexts(&context), vec![Some(1), None]);
}

#[test]
fn branches_lead_to_their_labels() {
    let (context, _) = compiled("b end;:a\n{t a\n};T;:end");
    assert_eq!(codes(&context), "b:{tT:");
    assert_eq!(target(&context, 0), Some(5));
    assert_eq!(target(&context, 3), Some(1));
    assert_eq!(target(&context, 4), None);
    assert_eq!(context.label_to_command_map.get("end"), Some(&5));
    assert_eq!(context.label_to_command_map.get("a"), Some(&1));
    assert_eq!(context.label_to_command_map.get("b"), None);
}

#[test]
fn commands_with_two_addresses_are_noted() {
    let (context, _) = compiled("1,3p;p;{2,/x/d};$p");
    assert_eq!(codes(&context), "pp{dp");
    assert_eq!(context.range_commands, vec![0, 3]);
    assert!(matches!(context.commands[3].addr1, Some(Address::Line(2))));
    assert!(matches!(context.commands[4].addr1, Some(Address::Last)));
}

#[test]
fn output_files_are_noted_in_order() {
    let (context, _) = compiled("w one\ns/a/b/w two\nw /dev/stdout\nw one");
    let paths: Vec<&[u8]> = context.writers.iter().map(|w| w.path.as_slice()).collect();
    assert_eq!(paths, vec![&b"one"[..], &b"two"[..], &b"one"[..]]);
    assert_eq!(context.writers[1].location.column_number, 7);
    // A script that does not compile has named those before its error.
    let mut context = ProcessingContext::default();
    assert!(compile_in(&mut context, "w one\nk").is_err());
    assert_eq!(context.writers.len(), 1);
}

#[test]
fn another_script_leaves_earlier_commands_alone() {
    let (mut context, _) = compiled(":a\n{p\n}");
    let first = compile_in(&mut context, "b a;{d};q").unwrap();
    assert_eq!(first, Some(3));
    assert_eq!(codes(&context), ":{pb{dq");
    assert_eq!(nexts(&context)[..3], [Some(1), None, None]);
    assert_eq!(target(&context, 3), Some(0));
    assert_eq!(nexts(&context)[3..], [Some(4), Some(6), Some(6), None]);
}

#[test]
fn numbers_have_defaults() {
    let mut context = ProcessingContext::default();
    context.length = 42;
    compile_in(&mut context, "l;l 7;q;Q3").unwrap();
    let numbers: Vec<usize> = context
        .commands
        .iter()
        .map(|c| match &c.data {
            CommandData::Number(n) => *n,
            other => panic!("no number: {other:?}"),
        })
        .collect();
    assert_eq!(numbers, vec![42, 7, 0, 3]);
}

#[test]
fn programs_keep_their_text() {
    let (context, _) = compiled("e ls; p\ne\ne a\\\\nb\\\nc");
    assert_eq!(codes(&context), "eee");
    assert!(matches!(&context.commands[0].data, CommandData::Text(t) if t == b"ls; p"));
    assert!(matches!(&context.commands[1].data, CommandData::Empty));
    assert!(matches!(&context.commands[2].data, CommandData::Text(t) if t == b"a\\nb\nc"));
}

#[test]
fn a_relative_path_to_read_is_made_absolute() {
    let mut context = ProcessingContext::default();
    context.current_dir = Some(b"/work".to_vec());
    compile_in(&mut context, "r in.txt\nr /abs").unwrap();
    assert!(matches!(&context.commands[0].data, CommandData::Path(p) if p == b"/work/in.txt"));
    assert!(matches!(&context.commands[1].data, CommandData::Path(p) if p == b"/abs"));
}
