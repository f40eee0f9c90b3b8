//! Arguments that several commands take.

use crate::command::{Command, ContextView, ProcessingContext};
use crate::compiler::cursor::{Cursor, Outcome, ahead, cursor, done, fail, viewed};
use crate::error_handling::{SedResult, compilation_error};
use crate::script_char_provider::ScriptCharProvider;
use crate::script_line_provider::ScriptLineProvider;
use crate::text::{around_char, utf8_text};
use vstd::prelude::*;
use vstd::utf8::valid_utf8;

verus! {

/// The message for a command that a sandbox does not allow.
pub const ERR_SANDBOX: &'static str = "e/r/w commands disabled in sandbox mode";

/// The message for a command that needs a shell where there is none.
pub const ERR_NO_EXEC: &'static str =
    "the 'e' command and substitute flag are unsupported here: no shell to run";

/// The message for a file path that the platform does not have.
pub const ERR_PATH: &'static str = "invalid characters file path: invalid UTF-8";

/// What the end of the command `code` gives at `at`: it is the end of the line, a `;`, which
/// is skipped, or a `}`.
pub open spec fn ending_at(at: Cursor, code: char) -> Outcome<()> {
    if at.sees(';') {
        done(at.next(), ())
    } else if at.eol() || at.char() == '}' {
        done(at, ())
    } else {
        fail(at, "extra characters at the end of the "@ + seq![code] + " command"@)
    }
}

/// Reads the end of a command. Extra characters are an error.
pub fn parse_command_ending(
    lines: &ScriptLineProvider,
    line: &mut ScriptCharProvider,
    cmd: &Command,
) -> (result: SedResult<()>)
    ensures
        viewed(result) == ending_at(cursor(lines, old(line)), cmd@.code).result,
        cursor(lines, final(line)) == ending_at(cursor(lines, old(line)), cmd@.code).at,
        ahead(cursor(lines, old(line)), cursor(lines, final(line))),
{
    if line.eol() || line.current() == '}' {
        return Ok(());
    }
    if line.current() == ';' {
        line.advance();
        return Ok(());
    }
    let message = around_char("extra characters at the end of the ", cmd.code, " command");
    compilation_error(lines, line, message.as_str())
}

/// The file path behind the command character at `at`: the rest of the line, without white
/// space before it.
pub open spec fn path_at(at: Cursor) -> Outcome<Seq<u8>> {
    let path = at.next().past_spaces().remaining();
    if path.len() == 0 {
        fail(at.line_end(), "missing filename in r/R/w/W commands"@)
    } else {
        done(at.line_end(), path)
    }
}

/// Reads the rest of the line behind the command character as a file path.
pub fn read_file_path(lines: &ScriptLineProvider, line: &mut ScriptCharProvider) -> (result: SedResult<
    Vec<u8>,
>)
    requires
        old(line)@.pos < old(line)@.text.len(),
    ensures
        viewed(result) == path_at(cursor(lines, old(line))).result,
        cursor(lines, final(line)) == path_at(cursor(lines, old(line))).at,
        ahead(cursor(lines, old(line)), cursor(lines, final(line))),
{
    let ghost start = cursor(lines, line);
    line.advance();
    line.eat_spaces();
    let ghost from = line@.pos;
    let ghost text = line@.text;
    let mut path: Vec<u8> = Vec::new();
    while !line.eol()
        invariant
            start == cursor(lines, old(line)),
            text == start.line.text,
            from == start.next().past_spaces().line.pos,
            line@.text == text,
            0 <= start.line.pos <= from <= line@.pos <= text.len(),
            path@ == text.subrange(from, line@.pos),
        decreases line@.text.len() - line@.pos,
    {
        path.push(line.current_byte());
        line.advance();
        assert(path@ =~= text.subrange(from, line@.pos));
    }
    assert(path@ =~= text.skip(from));
    if path.len() == 0 {
        compilation_error(lines, line, "missing filename in r/R/w/W commands")
    } else {
        Ok(path)
    }
}

/// Whether the platform has such a path.
pub open spec fn is_path(path: Seq<u8>, utf8_paths: bool) -> bool {
    utf8_paths ==> valid_utf8(path)
}

/// Whether the platform has such a path.
pub fn has_path(path: &[u8], utf8_paths: bool) -> (yes: bool)
    ensures
        yes == is_path(path@, utf8_paths),
{
    !utf8_paths || utf8_text(path).is_some()
}

/// The path behind the command character at `at` of a file that the command names.
pub open spec fn named_path(at: Cursor, context: ContextView) -> Outcome<Seq<u8>> {
    let path = path_at(at);
    match path.result {
        Ok(p) => if is_path(p, context.options.utf8_paths) {
            path
        } else {
            fail(path.at, ERR_PATH@)
        },
        Err(_) => path,
    }
}

/// Reads the rest of the line behind the command character as the path of a file that the
/// command names. One that the platform does not have is an error.
pub fn read_named_path(
    lines: &ScriptLineProvider,
    line: &mut ScriptCharProvider,
    context: &ProcessingContext,
) -> (result: SedResult<Vec<u8>>)
    requires
        old(line)@.pos < old(line)@.text.len(),
    ensures
        viewed(result) == named_path(cursor(lines, old(line)), context@).result,
        cursor(lines, final(line)) == named_path(cursor(lines, old(line)), context@).at,
        ahead(cursor(lines, old(line)), cursor(lines, final(line))),
{
    let path = match read_file_path(lines, line) {
        Ok(path) => path,
        Err(e) => {
            return Err(e);
        },
    };
    if !has_path(&path, context.utf8_paths) {
        return compilation_error(lines, line, ERR_PATH);
    }
    Ok(path)
}

} // verus!
