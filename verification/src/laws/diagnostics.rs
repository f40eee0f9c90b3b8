//! Where diagnostics point to, and what they say.

use crate::command::{CharacterMode, default_context, empty_substitution};
use crate::compiler::cursor::Cursor;
use crate::error_handling::{
    ErrorView, LocationView, input_error, located_error, remapped, unknown_location,
};
use crate::script_line_provider::argument_name;
use crate::text::{decimal, without_prefix, without_suffix};
use vstd::prelude::*;

verus! {

/// A compilation error has status 1, and points to the place where it is found: to the script,
/// the line and the character there, or to the last character at the end of the line.
pub proof fn law_error_points_to_place(at: Cursor, message: Seq<char>)
    requires
        0 <= at.line.pos <= at.line.text.len(),
    ensures
        at.error(message) == located_error(
            LocationView {
                name: at.script.name,
                line: at.script.number,
                column: if at.line.pos < at.line.text.len() {
                    (at.line.pos + 1) as nat
                } else {
                    at.line.text.len()
                },
            },
            message,
            1,
        ),
        at.error(message).code == 1,
        at.location() == (LocationView {
            name: at.script.name,
            line: at.script.number,
            column: if at.line.pos < at.line.text.len() {
                (at.line.pos + 1) as nat
            } else {
                at.line.text.len()
            },
        }),
{
    reveal(located_error);
}

/// What nothing is said of has its usual value: options are off, text is handled by characters,
/// `l` wraps lines at 70 characters, and a command that no script defines stands at an unknown
/// place.
pub proof fn law_usual_values()
    ensures
        ({
            let usual = default_context();
            let options = usual.options;
            &&& !options.posix && !options.sandbox && !options.no_exec && !options.regex_extended
            &&& !options.null_data && !options.in_place && !options.follow_symlinks
            &&& !options.separate && !options.utf8_paths && !options.drive_paths
            &&& options.in_place_suffix is None && options.current_dir is None
            &&& options.character_mode == CharacterMode::Utf8
            &&& options.length == 70
            &&& !usual.quiet && usual.parsed_block_nesting == 0
            &&& usual.commands.len() == 0 && usual.range_commands.len() == 0
            &&& usual.writers.len() == 0 && usual.labels == Map::<Seq<char>, usize>::empty()
            &&& usual.input.line_number == 0 && usual.input.input_name.len() == 0
            &&& !usual.input.last_file && !usual.input.stop_processing
            &&& usual.input.input_action is None
        }),
        unknown_location() == (LocationView { name: "<unknown>"@, line: 1, column: 1 }),
        empty_substitution().occurrence == 0 && empty_substitution().regex is None,
        empty_substitution().replacement.parts.len() == 0,
        empty_substitution().replacement.max_group_number == 0,
{
}

/// What is between a prefix and a suffix is found there.
proof fn lemma_between(before: Seq<char>, middle: Seq<char>, after: Seq<char>)
    ensures
        without_prefix(before + middle + after, before) == Some(middle + after),
        without_suffix(middle + after, after) == Some(middle),
{
    let whole = before + middle + after;
    assert(whole.subrange(0, before.len() as int) =~= before);
    assert(whole.skip(before.len() as int) =~= middle + after);
    let rest = middle + after;
    assert(rest.subrange(middle.len() as int, rest.len() as int) =~= after);
    assert(rest.take(middle.len() as int) =~= middle);
}

/// A diagnostic for a script that is given as an argument says which one it is and which
/// character of it is meant.
pub proof fn law_place_in_argument(
    n: nat,
    line: nat,
    column: nat,
    message: Seq<char>,
    code: int,
)
    ensures
        located_error(
            LocationView { name: argument_name(n), line, column },
            message,
            code,
        ) == (ErrorView {
            code,
            message: "-e expression #"@ + decimal(n) + ", char "@ + decimal(column) + ": "@
                + message,
            reason: None,
        }),
{
    reveal(located_error);
    lemma_between("<script argument "@, decimal(n), ">"@);
}

/// A diagnostic for any other script says its name, and which line and column of it are meant.
pub proof fn law_place_in_file(
    name: Seq<char>,
    line: nat,
    column: nat,
    message: Seq<char>,
    code: int,
)
    requires
        forall|rest: Seq<char>| name != #[trigger] ("<script argument "@ + rest + ">"@),
    ensures
        located_error(LocationView { name, line, column }, message, code) == (ErrorView {
            code,
            message: name + ":"@ + decimal(line) + ":"@ + decimal(column) + ": error"@ + ": "@
                + message,
            reason: None,
        }),
{
    reveal(located_error);
    let before = "<script argument "@;
    let after = ">"@;
    if let Some(rest) = without_prefix(name, before) {
        if let Some(index) = without_suffix(rest, after) {
            assert(name =~= before + rest);
            assert(rest =~= index + after);
            assert(name =~= before + index + after);
        }
    }
}

/// A diagnostic for a command that fails on a line of input has status 2. It says where the
/// command stands, which input is read, and which line of it.
pub proof fn law_place_in_input(
    place: LocationView,
    input: Seq<char>,
    input_line: nat,
    message: Seq<char>,
)
    ensures
        input_error(place, input, input_line, message) == (ErrorView {
            code: 2,
            message: place.name + ":"@ + decimal(place.line) + ":"@ + decimal(place.column)
                + ": "@ + input + ":"@ + decimal(input_line) + " error: "@ + message,
            reason: None,
        }),
{
}

/// A diagnostic that does not end in the general report of a missing end stays as it is.
pub proof fn law_other_errors_stay(error: ErrorView, replacement: Seq<char>)
    requires
        forall|prefix: Seq<char>|
            error.message != #[trigger] (prefix + "unterminated regular expression"@),
        forall|prefix: Seq<char>|
            error.message != #[trigger] (prefix + "Unterminated bracket expression"@),
    ensures
        remapped(error, replacement) == error,
{
    if let Some(prefix) = without_suffix(error.message, "unterminated regular expression"@) {
        assert(error.message =~= prefix + "unterminated regular expression"@);
    }
    if let Some(prefix) = without_suffix(error.message, "Unterminated bracket expression"@) {
        assert(error.message =~= prefix + "Unterminated bracket expression"@);
    }
}

} // verus!
