//! Diagnostics: where in the script they point, and what they say.

use crate::command::{ProcessingContext, opt_view};
use crate::quoting::{quote, shows_name};
use crate::script_char_provider::{LineView, ScriptCharProvider};
use crate::script_line_provider::ScriptLineProvider;
use crate::text::{
    decimal, push_decimal, strip_prefix, strip_suffix, without_prefix, without_suffix,
};
use vstd::prelude::*;

verus! {

/// What a [`SedError`] holds.
#[verifier::ext_equal]
pub struct ErrorView {
    /// The exit status that the error stands for.
    pub code: int,
    /// The text of the diagnostic.
    pub message: Seq<char>,
    /// The words of the regular expression engine that the text ends with, if it does.
    pub reason: Option<Seq<char>>,
}

/// A failure: its exit status and its diagnostic.
#[derive(Debug)]
pub struct SedError {
    /// The exit status that the error stands for.
    pub code: i32,
    /// The text of the diagnostic.
    pub message: String,
    /// The words of the regular expression engine that the text ends with, if it does.
    pub reason: Option<String>,
}

impl View for SedError {
    type V = ErrorView;

    open spec fn view(&self) -> ErrorView {
        ErrorView {
            code: self.code as int,
            message: self.message@,
            reason: opt_view(self.reason),
        }
    }
}

/// The result of an operation that can fail with a diagnostic.
pub type SedResult<T> = Result<T, SedError>;

impl SedError {
    /// The error with the given status and diagnostic.
    pub fn new(code: i32, message: String) -> (error: SedError)
        ensures
            error@ == (ErrorView { code: code as int, message: message@, reason: None }),
    {
        SedError { code, message, reason: None }
    }

    /// An error with the same status and diagnostic.
    pub fn duplicate(&self) -> (copy: SedError)
        ensures
            copy@ == self@,
    {
        SedError {
            code: self.code,
            message: self.message.clone(),
            reason: match &self.reason {
                Some(reason) => Some(reason.clone()),
                None => None,
            },
        }
    }

    /// The text of the diagnostic.
    pub fn to_string(&self) -> (text: String)
        ensures
            text@ == self@.message,
    {
        self.message.clone()
    }
}

/// What a [`ScriptLocation`] holds.
#[verifier::ext_equal]
pub struct LocationView {
    /// The name of the script.
    pub name: Seq<char>,
    /// The line in the script, from 1.
    pub line: nat,
    /// The column in the line, from 1.
    pub column: nat,
}

/// The location in a script where a command is defined.
#[derive(Debug)]
pub struct ScriptLocation {
    /// The name of the script.
    pub input_name: String,
    /// The line in the script, from 1.
    pub line_number: usize,
    /// The column in the line, from 1.
    pub column_number: usize,
}

impl View for ScriptLocation {
    type V = LocationView;

    open spec fn view(&self) -> LocationView {
        LocationView {
            name: self.input_name@,
            line: self.line_number as nat,
            column: self.column_number as nat,
        }
    }
}

/// The location of a command that no script defines.
pub open spec fn unknown_location() -> LocationView {
    LocationView { name: "<unknown>"@, line: 1, column: 1 }
}

impl Default for ScriptLocation {
    fn default() -> (location: Self)
        ensures
            location@ == unknown_location(),
    {
        ScriptLocation {
            input_name: String::from_str("<unknown>"),
            line_number: 1,
            column_number: 1,
        }
    }
}

impl ScriptLocation {
    /// The location that the given providers have reached.
    pub fn at_position(lines: &ScriptLineProvider, line: &ScriptCharProvider) -> (location: Self)
        ensures
            location@ == (LocationView {
                name: lines@.name,
                line: lines@.number,
                column: column_of(line@),
            }),
    {
        ScriptLocation {
            input_name: String::from_str(lines.get_input_name()),
            line_number: lines.get_line_number(),
            column_number: char_column(line),
        }
    }

    /// The same location.
    pub fn duplicate(&self) -> (copy: ScriptLocation)
        ensures
            copy@ == self@,
    {
        ScriptLocation {
            input_name: self.input_name.clone(),
            line_number: self.line_number,
            column_number: self.column_number,
        }
    }
}

/// The column that a diagnostic reports: that of the next character, from 1, but
/// never past the last character of the line.
pub open spec fn column_of(line: LineView) -> nat {
    if line.pos >= line.text.len() {
        line.pos as nat
    } else {
        (line.pos + 1) as nat
    }
}

/// A diagnostic points to a character of the line: the one at the current position, or, at the
/// end, the last one. Only in an empty line there is none.
pub proof fn law_column_is_in_line(line: LineView)
    requires
        0 <= line.pos <= line.text.len(),
    ensures
        column_of(line) <= line.text.len(),
        column_of(line) >= 1 <==> line.text.len() > 0,
        line.pos < line.text.len() ==> column_of(line) == line.pos + 1,
        line.pos == line.text.len() ==> column_of(line) == line.text.len(),
{
}

/// The column that a diagnostic reports at the current position.
pub fn char_column(line: &ScriptCharProvider) -> (column: usize)
    ensures
        column == column_of(line@),
{
    if line.eol() {
        line.get_pos()
    } else {
        line.get_pos() + 1
    }
}

/// The number that the name of a script given as an argument carries, if the name is
/// that of such a script.
pub open spec fn argument_index(name: Seq<char>) -> Option<Seq<char>> {
    match without_prefix(name, "<script argument "@) {
        Some(rest) => without_suffix(rest, ">"@),
        None => None,
    }
}

/// The text that a diagnostic starts with. A script given as an argument is called an
/// expression and the place in it is a character; any other script is called by its
/// name and the place in it is a line and a column.
pub open spec fn prefix_text(name: Seq<char>, line: nat, column: nat) -> Seq<char> {
    match argument_index(name) {
        Some(index) => "-e expression #"@ + index + ", char "@ + decimal(column),
        None => name + ":"@ + decimal(line) + ":"@ + decimal(column) + ": error"@,
    }
}

/// The text that a diagnostic starts with, before the `: ` and the message.
pub fn location_prefix(input_name: &str, line_number: usize, column: usize) -> (prefix: String)
    ensures
        prefix@ == prefix_text(input_name@, line_number as nat, column as nat),
{
    let index = match strip_prefix(input_name, "<script argument ") {
        Some(rest) => strip_suffix(rest.as_str(), ">"),
        None => None,
    };
    let mut out = String::new();
    match index {
        Some(index) => {
            out.append("-e expression #");
            out.append(index.as_str());
            out.append(", char ");
            push_decimal(&mut out, column);
            assert(out@ =~= prefix_text(input_name@, line_number as nat, column as nat));
        },
        None => {
            out.append(input_name);
            out.append(":");
            push_decimal(&mut out, line_number);
            out.append(":");
            push_decimal(&mut out, column);
            out.append(": error");
            assert(out@ =~= prefix_text(input_name@, line_number as nat, column as nat));
        },
    }
    out
}

/// The error with the given exit status and message at the given place.
#[verifier::opaque]
pub open spec fn located_error(place: LocationView, message: Seq<char>, code: int) -> ErrorView {
    ErrorView {
        code,
        message: prefix_text(place.name, place.line, place.column) + ": "@ + message,
        reason: None,
    }
}

/// The error that points at a place in the script.
fn error_at(
    input_name: &str,
    line_number: usize,
    column: usize,
    msg: &str,
    exit_code: i32,
) -> (error: SedError)
    ensures
        error@ == located_error(
            LocationView { name: input_name@, line: line_number as nat, column: column as nat },
            msg@,
            exit_code as int,
        ),
{
    reveal(located_error);
    let mut message = location_prefix(input_name, line_number, column);
    message.append(": ");
    message.append(msg);
    SedError::new(exit_code, message)
}

/// Fails with `msg` as a compilation error at the place that the providers have reached.
/// The exit status is 1 (compilation phase).
pub fn compilation_error<T>(
    lines: &ScriptLineProvider,
    line: &ScriptCharProvider,
    msg: &str,
) -> (result: SedResult<T>)
    ensures
        result matches Err(e) && e@ == located_error(
            LocationView { name: lines@.name, line: lines@.number, column: column_of(line@) },
            msg@,
            1,
        ),
{
    Err(error_at(lines.get_input_name(), lines.get_line_number(), char_column(line), msg, 1))
}

/// Fails with `msg` at the location of a command, with the given exit status.
fn location_error<T>(location: &ScriptLocation, msg: &str, exit_code: i32) -> (result: SedResult<T>)
    ensures
        result matches Err(e) && e@ == located_error(location@, msg@, exit_code as int),
{
    Err(
        error_at(
            location.input_name.as_str(),
            location.line_number,
            location.column_number,
            msg,
            exit_code,
        ),
    )
}

/// Fails with `msg` as a compilation error at the location of a command.
/// The exit status is 1 (compilation phase).
pub fn semantic_error<T>(location: &ScriptLocation, msg: &str) -> (result: SedResult<T>)
    ensures
        result matches Err(e) && e@ == located_error(location@, msg@, 1),
{
    location_error(location, msg, 1)
}

/// Fails with `msg` as a runtime error at the location of a command.
/// The exit status is 2 (processing phase).
pub fn runtime_error<T>(location: &ScriptLocation, msg: &str) -> (result: SedResult<T>)
    ensures
        result matches Err(e) && e@ == located_error(location@, msg@, 2),
{
    location_error(location, msg, 2)
}

/// The error of a command at the given place that fails on a line of the given input,
/// which is shown in quotes.
pub open spec fn input_error(
    place: LocationView,
    quoted_input: Seq<char>,
    input_line: nat,
    message: Seq<char>,
) -> ErrorView {
    ErrorView {
        code: 2,
        message: place.name + ":"@ + decimal(place.line) + ":"@ + decimal(place.column) + ": "@
            + quoted_input + ":"@ + decimal(input_line) + " error: "@ + message,
        reason: None,
    }
}

/// The error of a command that fails on a line of the given input, whose name is already
/// in quotes. The exit status is 2 (processing phase).
pub fn quoted_input_error(
    location: &ScriptLocation,
    quoted_input: &str,
    input_line: usize,
    msg: &str,
) -> (error: SedError)
    ensures
        error@ == input_error(location@, quoted_input@, input_line as nat, msg@),
{
    let mut message = location.input_name.clone();
    message.append(":");
    push_decimal(&mut message, location.line_number);
    message.append(":");
    push_decimal(&mut message, location.column_number);
    message.append(": ");
    message.append(quoted_input);
    message.append(":");
    push_decimal(&mut message, input_line);
    message.append(" error: ");
    message.append(msg);
    SedError::new(2, message)
}

/// Fails with `msg` as a runtime error at the location of the command and of the input.
/// This is for errors that depend on both, such as a regular expression applied to input
/// that is no valid UTF-8. The exit status is 2 (processing phase). The message holds the name
/// of the input in the quotes of the platform's shell; what they are is left open for names
/// that need more than single quotes.
pub fn input_runtime_error<T>(
    location: &ScriptLocation,
    context: &ProcessingContext,
    msg: &str,
) -> (result: SedResult<T>)
    ensures
        result matches Err(e) && exists|quoted: Seq<char>|
            e@ == #[trigger] input_error(
                location@,
                quoted,
                context.line_number as nat,
                msg@,
            ) && shows_name(quoted, context.input_name@),
{
    let quoted = quote(context.input_name.as_str());
    Err(quoted_input_error(location, quoted.as_str(), context.line_number, msg))
}

/// What [`remap_unterminated`] makes of an error: one whose message ends in one of the
/// general reports of a missing end keeps the place it points at and says `replacement`
/// instead; any other stays as it is.
pub open spec fn remapped(error: ErrorView, replacement: Seq<char>) -> ErrorView {
    match without_suffix(error.message, "unterminated regular expression"@) {
        Some(prefix) => ErrorView { code: 1, message: prefix + replacement, reason: None },
        None => match without_suffix(error.message, "Unterminated bracket expression"@) {
            Some(prefix) => ErrorView { code: 1, message: prefix + replacement, reason: None },
            None => error,
        },
    }
}

/// The general report of a missing end becomes the one that fits, at the same place.
pub proof fn law_remapping_keeps_place(place: LocationView, replacement: Seq<char>)
    ensures
        remapped(located_error(place, "unterminated regular expression"@, 1), replacement)
            == located_error(place, replacement, 1),
        remapped(located_error(place, "Unterminated bracket expression"@, 1), replacement)
            == located_error(place, replacement, 1),
{
    reveal(located_error);
    let prefix = prefix_text(place.name, place.line, place.column) + ": "@;
    let regex = "unterminated regular expression"@;
    let bracket = "Unterminated bracket expression"@;
    assert(regex.is_suffix_of(prefix + regex)) by {
        assert((prefix + regex).subrange(prefix.len() as int, (prefix + regex).len() as int)
            =~= regex);
    }
    assert((prefix + regex).take(prefix.len() as int) =~= prefix);
    assert(bracket.is_suffix_of(prefix + bracket)) by {
        assert((prefix + bracket).subrange(prefix.len() as int, (prefix + bracket).len() as int)
            =~= bracket);
    }
    assert((prefix + bracket).take(prefix.len() as int) =~= prefix);
    assert(!regex.is_suffix_of(prefix + bracket)) by {
        reveal_strlit("unterminated regular expression");
        reveal_strlit("Unterminated bracket expression");
        let whole = prefix + bracket;
        assert(whole.last() == 'n');
        assert(whole[whole.len() - regex.len()] == bracket[bracket.len() - regex.len()]);
    }
}

/// Replaces the general message of an unterminated regular expression by one that fits
/// where the expression stands, and keeps the place that the message points at.
pub fn remap_unterminated<T>(result: SedResult<T>, replacement: &str) -> (out: SedResult<T>)
    ensures
        match (result, out) {
            (Ok(v), Ok(w)) => w == v,
            (Err(e), Err(f)) => f@ == remapped(e@, replacement@),
            _ => false,
        },
{
    match result {
        Ok(v) => Ok(v),
        Err(error) => {
            if let Some(prefix) = strip_suffix(
                error.message.as_str(),
                "unterminated regular expression",
            ) {
                return Err(SedError::new(1, prefix.concat(replacement)));
            }
            if let Some(prefix) = strip_suffix(
                error.message.as_str(),
                "Unterminated bracket expression",
            ) {
                return Err(SedError::new(1, prefix.concat(replacement)));
            }
            Err(error)
        },
    }
}

} // verus!
