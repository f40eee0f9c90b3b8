//! The embeddable editor.

use sedc::command::{InputAction, ProcessingContext};
use sedc::incremental::{CompileFailure, Engine, Flow};
use sedc::script_line_provider::ScriptValue;

fn engine_with(script: &str, context: ProcessingContext) -> Result<Engine, CompileFailure> {
    Engine::new(vec![ScriptValue::StringVal(script.as_bytes().to_vec())], context)
}

fn engine(script: &str) -> Engine {
    match engine_with(script, ProcessingContext::default()) {
        Ok(engine) => engine,
        Err(failure) => panic!("{}", failure.error.to_string()),
    }
}

fn failure(script: &str) -> CompileFailure {
    match engine_with(script, ProcessingContext::default()) {
        Ok(_) => panic!("{script} compiles"),
        Err(failure) => failure,
    }
}

#[test]
fn exec_is_refused() {
    assert!(engine_with("s/x/y/e", ProcessingContext::default()).is_err());
}

#[test]
fn programs_are_refused_with_their_place() {
    let refusal = "the 'e' command and substitute flag are unsupported here: no shell to run";
    assert_eq!(
        failure("s/x/y/e").error.to_string(),
        format!("-e expression #1, char 7: {refusal}")
    );
    assert_eq!(failure("p;e ls").error.to_string(), format!("-e expression #1, char 3: {refusal}"));
}

#[test]
fn a_failure_tells_the_output_files_before_it() {
    let failure = failure("w one\ns/a/b/ew two");
    let paths: Vec<&[u8]> = failure.writers.iter().map(|w| w.path.as_slice()).collect();
    assert_eq!(paths, vec![&b"one"[..], &b"two"[..]]);
}

#[test]
fn the_last_line_matters_to_what_can_be_reached() {
    for script in ["$p", "1,$p", "n", "c\\text", "{p;{$d}}", "b x;:x;n", "t;p;$q"] {
        assert!(engine(script).needs_last(), "{script}");
    }
    for script in ["", "p", "1,2d", "N", "{p;d}", ":a\nb a"] {
        assert!(!engine(script).needs_last(), "{script}");
    }
}

#[test]
fn a_branch_makes_no_command_unreachable() {
    // What follows a branch is counted in, taken or not.
    assert!(engine("b;$p").needs_last());
}

#[test]
fn separate_files_are_not_for_an_engine() {
    assert!(!engine("p").needs_files());
    let mut context = ProcessingContext::default();
    context.separate = true;
    assert!(engine_with("p", context).is_ok_and(|e| e.needs_files()));
    let mut context = ProcessingContext::default();
    context.in_place = true;
    assert!(engine_with("p", context).is_ok_and(|e| e.needs_files()));
}

#[test]
fn a_record_is_a_line_and_its_delimiter() {
    let mut engine = engine("p");
    assert_eq!(engine.delimiter(), b'\n');
    let record = engine.record(b"one\n");
    assert!(record.first);
    assert_eq!((record.content.as_slice(), record.terminated), (&b"one"[..], true));
    let record = engine.record(b"two");
    assert!(!record.first);
    assert_eq!((record.content.as_slice(), record.terminated), (&b"two"[..], false));
    let record = engine.record(b"");
    assert_eq!((record.content.as_slice(), record.terminated), (&b""[..], false));
    let record = engine.record(b"\n");
    assert_eq!((record.content.as_slice(), record.terminated), (&b""[..], true));
}

#[test]
fn records_can_end_with_nul() {
    let mut context = ProcessingContext::default();
    context.null_data = true;
    let Ok(mut engine) = engine_with("p", context) else {
        panic!("no engine");
    };
    assert_eq!(engine.delimiter(), 0);
    let record = engine.record(b"one\n\0");
    assert_eq!((record.content.as_slice(), record.terminated), (&b"one\n"[..], true));
    let record = engine.record(b"two\n");
    assert_eq!((record.content.as_slice(), record.terminated), (&b"two\n"[..], false));
}

#[test]
fn a_pending_line_is_given_once() {
    let mut engine = engine("N");
    engine.context().input_action = Some(InputAction { prepend: Some(b"last".to_vec()) });
    let ending = engine.finish();
    assert!(ending.first);
    assert_eq!(ending.pending, Some(b"last\n".to_vec()));
    let ending = engine.finish();
    assert!(!ending.first);
    assert_eq!(ending.pending, None);
}

#[test]
fn a_pending_line_is_dropped_when_quiet_or_stopped() {
    let mut engine = engine("N");
    engine.context().input_action = Some(InputAction { prepend: Some(b"last".to_vec()) });
    engine.context().quiet = true;
    assert_eq!(engine.finish().pending, None);
    engine.context().quiet = false;
    engine.context().stop_processing = true;
    assert_eq!(engine.finish().pending, None);
}

#[test]
fn stopping_ends_the_flow() {
    let mut engine = engine("q");
    assert_eq!(engine.flow(), Flow::Continue);
    engine.context().stop_processing = true;
    assert_eq!(engine.flow(), Flow::Quit);
}

#[test]
fn a_new_engine_has_no_exit_code() {
    uucore::error::set_exit_code(5);
    let engine = engine("p");
    assert_eq!(engine.exit_code(), 0);
    uucore::error::set_exit_code(3);
    assert_eq!(engine.exit_code(), 3);
}

#[test]
fn an_engine_reads_one_stream() {
    let mut engine = engine("p;d");
    assert_eq!(engine.commands(), Some(0));
    assert!(engine.context().last_file);
    assert!(engine.context().no_exec);
    assert_eq!(engine.context().commands.len(), 2);
}

#[test]
fn an_engine_starts_without_open_blocks() {
    let mut context = ProcessingContext::default();
    context.parsed_block_nesting = 3;
    assert!(engine_with("p;{d}", context).is_ok());
}
