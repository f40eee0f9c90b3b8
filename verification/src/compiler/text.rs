//! Compiling commands that take text: `a`, `c`, `i` and `e`.

use crate::command::{Command, CommandData, CommandView, ContextView, DataView, ProcessingContext};
use crate::compiler::arguments::ERR_NO_EXEC;
use crate::compiler::cursor::{
    Cursor, Outcome, advance_line, ahead, cursor, done, fail_with, viewed,
};
use crate::compiler::handling::{CommandHandling, Handled, compiled, failed, handled, refused};
use crate::delimited_parser::{escape_at, lemma_escape_end, parse_char_escape};
use crate::error_handling::{ErrorView, SedResult, compilation_error};
use crate::script_char_provider::ScriptCharProvider;
use crate::script_line_provider::{Script, ScriptLineProvider, after_line, line_read};
use crate::text::around_char;
use vstd::prelude::*;

verus! {

/// What a text gives from `at` on, when `out` was given before: its bytes, and whether it goes
/// on over more than one line. `escaped` tells whether the line has ended in a backslash, so
/// that the next line belongs to the text; `continued` tells whether such a line was read
/// before; `with_end` tells whether the end of the last line is part of the text.
pub open spec fn text_from(
    at: Cursor,
    out: Seq<u8>,
    escaped: bool,
    continued: bool,
    with_end: bool,
) -> Outcome<(Seq<u8>, bool)>
    decreases at.script.rest.lines.len(), at.line.text.len() - at.line.pos,
{
    let text = at.line.text;
    let pos = at.line.pos;
    if pos < 0 {
        arbitrary()
    } else if escaped {
        match at.read() {
            Ok(Some(_)) => text_from(at.after_read(), out, false, true, with_end),
            Ok(None) => done(at.after_read(), (out, continued)),
            Err(e) => fail_with(at.after_read(), e),
        }
    } else if at.eol() {
        done(
            at,
            (
                if with_end {
                    out.push(10)
                } else {
                    out
                },
                continued,
            ),
        )
    } else if at.char() == '\\' {
        if pos + 1 >= text.len() {
            text_from(at.next(), out.push(10), true, continued, with_end)
        } else {
            match escape_at(text, pos + 1) {
                Some((b, end)) => if pos < end <= text.len() {
                    text_from(at.at_pos(end), out.push(b), false, continued, with_end)
                } else {
                    arbitrary()
                },
                // An unknown escape sequence gives the escaped character.
                None => text_from(
                    at.at_pos(pos + 2),
                    out.push(text[pos + 1]),
                    false,
                    continued,
                    with_end,
                ),
            }
        }
    } else {
        text_from(at.next(), out.push(at.byte()), false, continued, with_end)
    }
}

/// What a text gives at `at`, where a backslash may come before it.
#[verifier::opaque]
pub open spec fn text_at(at: Cursor, with_end: bool) -> Outcome<(Seq<u8>, bool)> {
    if at.sees('\\') {
        text_from(at.next(), Seq::empty(), at.next().eol(), false, with_end)
    } else {
        text_from(at, Seq::empty(), false, false, with_end)
    }
}

/// Reads a text, up to a line end that no backslash escapes. Returns it, and whether it goes
/// on over more than one line.
fn parse_text(lines: &mut ScriptLineProvider, line: &mut ScriptCharProvider, with_end: bool) -> (result:
    SedResult<(Vec<u8>, bool)>)
    ensures
        viewed(result) == text_at(cursor(old(lines), old(line)), with_end).result,
        cursor(final(lines), final(line)) == text_at(
            cursor(old(lines), old(line)),
            with_end,
        ).at,
        ahead(cursor(old(lines), old(line)), cursor(final(lines), final(line))),
{
    reveal(text_at);
    let ghost start = cursor(lines, line);
    let ghost spec = text_at(start, with_end);
    // True after a \ at the end of a line
    let mut escaped_newline = false;
    // True once a continuation line has been read
    let mut continued = false;
    // Skip optional \
    if !line.eol() && line.current() == '\\' {
        line.advance();
        escaped_newline = line.eol();
    }
    let mut text: Vec<u8> = Vec::new();
    loop
        invariant
            start == cursor(old(lines), old(line)),
            spec == text_at(start, with_end),
            spec == text_from(
                cursor(lines, line),
                text@,
                escaped_newline,
                continued,
                with_end,
            ),
            ahead(start, cursor(lines, line)),
            0 <= line@.pos,
        decreases lines@.rest.lines.len(), line@.text.len() - line@.pos,
    {
        let ghost here = cursor(lines, line);
        if escaped_newline {
            match advance_line(lines, line) {
                Ok(true) => {
                    continued = true;
                    escaped_newline = false;
                },
                Ok(false) => {
                    return Ok((text, continued));
                },
                Err(e) => {
                    return Err(e);
                },
            }
            continue ;
        }
        // Non-escaped newline
        if line.eol() {
            if with_end {
                text.push(10);
            }
            return Ok((text, continued));
        }
        let b = line.current_byte();
        if line.current() != '\\' {
            text.push(b);
            line.advance();
            continue ;
        }
        line.advance();
        if line.eol() {
            escaped_newline = true;
            text.push(10);
            continue ;
        }
        proof {
            lemma_escape_end(here.line.text, here.line.pos + 1);
        }
        let d = line.current_byte();
        match parse_char_escape(line) {
            Some(decoded) => {
                text.push(decoded);
            },
            None => {
                // Invalid escapes result in the escaped character.
                text.push(d);
                line.advance();
            },
        }
    }
}

/// The message for a text that is missing.
pub const ERR_EXPECTED_TEXT: &'static str = "expected \\ after `a', `c' or `i'";

/// What the text of `a`, `c` or `i` gives at `at` in GNU syntax.
pub open spec fn gnu_text(at: Cursor, cmd: CommandView, context: ContextView) -> Handled {
    let text = text_at(at, true);
    if at.eol() {
        refused(at, cmd, context, ERR_EXPECTED_TEXT@)
    } else {
        match text.result {
            Err(e) => failed(text.at, cmd, context, e),
            Ok(t) => compiled(
                text.at,
                CommandView { data: DataView::Text(t.0), ..cmd },
                context,
            ),
        }
    }
}

/// Compiles the text of `a`, `c` or `i` (GNU syntax), behind the command character and white
/// space. POSIX expects a backslash and then the text; here the backslash may be missing, and
/// escape sequences are honored.
pub fn compile_text_command_gnu(
    lines: &mut ScriptLineProvider,
    line: &mut ScriptCharProvider,
    cmd: &mut Command,
    context: &mut ProcessingContext,
) -> (result: SedResult<CommandHandling>)
    ensures
        handled(
            result,
            cursor(final(lines), final(line)),
            final(cmd),
            final(context),
        ) == gnu_text(cursor(old(lines), old(line)), old(cmd)@, old(context)@),
        ahead(cursor(old(lines), old(line)), cursor(final(lines), final(line))),
{
    if line.eol() {
        return compilation_error(lines, line, ERR_EXPECTED_TEXT);
    }
    match parse_text(lines, line, true) {
        Ok((text, _)) => {
            cmd.data = CommandData::Text(text);
            Ok(CommandHandling::Continue)
        },
        Err(e) => Err(e),
    }
}

/// What POSIX text gives from the lines to come on, when `out` was given before: its bytes or
/// an error, and the script behind it. It goes on for as long as its lines end in a backslash.
pub open spec fn posix_lines(script: Script, out: Seq<u8>) -> (Result<Seq<u8>, ErrorView>, Script)
    decreases script.rest.lines.len(),
{
    match line_read(script) {
        Err(e) => (Err(e), after_line(script)),
        Ok(None) => (Ok(out), after_line(script)),
        Ok(Some(text)) => if script.rest.lines.len() > 0 && text.len() > 0 && text.last()
            == '\\' as u8 {
            posix_lines(after_line(script), out + text.drop_last().push(10))
        } else {
            (Ok(out + text.push(10)), after_line(script))
        },
    }
}

/// What the text of `a`, `c` or `i` gives at `at` in POSIX syntax.
#[verifier::opaque]
pub open spec fn posix_text(at: Cursor, cmd: CommandView, context: ContextView) -> Handled {
    let behind = at.next().past_spaces();
    if !at.sees('\\') {
        refused(at, cmd, context, ERR_EXPECTED_TEXT@)
    } else if !behind.eol() {
        refused(
            behind,
            cmd,
            context,
            "extra characters after \\ at the end of `"@ + seq![cmd.code] + "' command"@,
        )
    } else {
        let (text, script) = posix_lines(behind.script, Seq::empty());
        let end = Cursor { script, ..behind };
        match text {
            Err(e) => failed(end, cmd, context, e),
            Ok(t) => if t.len() == 0 {
                refused(end, cmd, context, "incomplete command"@)
            } else {
                compiled(end, CommandView { data: DataView::Text(t), ..cmd }, context)
            },
        }
    }
}

/// Reads POSIX text from the lines to come.
fn parse_posix_lines(lines: &mut ScriptLineProvider) -> (result: SedResult<Vec<u8>>)
    ensures
        viewed(result) == posix_lines(old(lines)@, Seq::empty()).0,
        final(lines)@ == posix_lines(old(lines)@, Seq::empty()).1,
        final(lines)@.rest.lines.len() <= old(lines)@.rest.lines.len(),
{
    let ghost start = lines@;
    let ghost spec = posix_lines(start, Seq::empty());
    let mut text: Vec<u8> = Vec::new();
    loop
        invariant
            start == old(lines)@,
            spec == posix_lines(start, Seq::empty()),
            spec == posix_lines(lines@, text@),
            lines@.rest.lines.len() <= start.rest.lines.len(),
        decreases lines@.rest.lines.len(),
    {
        let ghost before = text@;
        match lines.next_line() {
            Err(e) => {
                return Err(e);
            },
            Ok(None) => {
                return Ok(text);
            },
            Ok(Some(line)) => {
                if line.len() > 0 && line[line.len() - 1] == '\\' as u8 {
                    // Line ends with \ to escape \n; remove the trailing \.
                    let ghost whole = line@;
                    let mut line = line;
                    line.truncate(line.len() - 1);
                    line.push(10);
                    text.extend_from_slice(&line);
                    assert(text@ =~= before + whole.drop_last().push(10));
                } else {
                    text.extend_from_slice(&line);
                    text.push(10);
                    assert(text@ =~= before + line@.push(10));
                    return Ok(text);
                }
            },
        }
    }
}

/// Compiles the text of `a`, `c` or `i` (POSIX syntax), behind the command character and white
/// space: a backslash, and then the lines of the text.
pub fn compile_text_command_posix(
    lines: &mut ScriptLineProvider,
    line: &mut ScriptCharProvider,
    cmd: &mut Command,
    context: &mut ProcessingContext,
) -> (result: SedResult<CommandHandling>)
    ensures
        handled(
            result,
            cursor(final(lines), final(line)),
            final(cmd),
            final(context),
        ) == posix_text(cursor(old(lines), old(line)), old(cmd)@, old(context)@),
        ahead(cursor(old(lines), old(line)), cursor(final(lines), final(line))),
{
    reveal(posix_text);
    if line.eol() || line.current() != '\\' {
        return compilation_error(lines, line, ERR_EXPECTED_TEXT);
    }
    line.advance();  // Skip \.
    line.eat_spaces();  // Skip any whitespace at the end of \.
    if !line.eol() {
        let message = around_char(
            "extra characters after \\ at the end of `",
            cmd.code,
            "' command",
        );
        return compilation_error(lines, line, message.as_str());
    }
    match parse_posix_lines(lines) {
        Ok(text) => {
            if text.len() == 0 {
                return compilation_error(lines, line, "incomplete command");
            }
            cmd.data = CommandData::Text(text);
            Ok(CommandHandling::Continue)
        },
        Err(e) => Err(e),
    }
}

/// What `a`, `c` or `i` gives at `at`.
#[verifier::opaque]
pub open spec fn text_command(at: Cursor, cmd: CommandView, context: ContextView) -> Handled {
    let start = at.next().past_spaces();
    if context.options.posix {
        posix_text(start, cmd, context)
    } else {
        gnu_text(start, cmd, context)
    }
}

/// Compiles `a`, `c` or `i`, which is the current character.
pub fn compile_text_command(
    lines: &mut ScriptLineProvider,
    line: &mut ScriptCharProvider,
    cmd: &mut Command,
    context: &mut ProcessingContext,
) -> (result: SedResult<CommandHandling>)
    requires
        old(line)@.pos < old(line)@.text.len(),
    ensures
        handled(
            result,
            cursor(final(lines), final(line)),
            final(cmd),
            final(context),
        ) == text_command(cursor(old(lines), old(line)), old(cmd)@, old(context)@),
        ahead(cursor(old(lines), old(line)).next(), cursor(final(lines), final(line))),
{
    reveal(text_command);
    line.advance();  // Skip the command character.
    line.eat_spaces();  // Skip any leading whitespace.
    if context.posix {
        compile_text_command_posix(lines, line, cmd, context)
    } else {
        compile_text_command_gnu(lines, line, cmd, context)
    }
}

/// What `e` gives at `at`. Without an argument, the pattern space is executed. A backslash with
/// no line behind it counts as no argument.
#[verifier::opaque]
pub open spec fn execute_command(at: Cursor, cmd: CommandView, context: ContextView) -> Handled {
    let start = at.next().past_spaces();
    if context.options.posix || context.options.sandbox {
        refused(
            at,
            cmd,
            context,
            "the 'e' command is not allowed with --posix or --sandbox"@,
        )
    } else if context.options.no_exec {
        refused(at, cmd, context, ERR_NO_EXEC@)
    } else if start.eol() {
        compiled(start, CommandView { data: DataView::Empty, ..cmd }, context)
    } else {
        let text = text_at(start, false);
        match text.result {
            Err(e) => failed(text.at, cmd, context, e),
            Ok((t, continued)) => compiled(
                text.at,
                CommandView {
                    data: if t.len() == 0 && !continued {
                        DataView::Empty
                    } else {
                        DataView::Text(t)
                    },
                    ..cmd
                },
                context,
            ),
        }
    }
}

/// Compiles `e`, which is the current character. Without an argument, the command executes the
/// pattern space. With one, the rest of the line is the command to run, under the same rules
/// as the text of `a`, `c` and `i`.
pub fn compile_execute_command(
    lines: &mut ScriptLineProvider,
    line: &mut ScriptCharProvider,
    cmd: &mut Command,
    context: &mut ProcessingContext,
) -> (result: SedResult<CommandHandling>)
    requires
        old(line)@.pos < old(line)@.text.len(),
    ensures
        handled(
            result,
            cursor(final(lines), final(line)),
            final(cmd),
            final(context),
        ) == execute_command(cursor(old(lines), old(line)), old(cmd)@, old(context)@),
        ahead(cursor(old(lines), old(line)), cursor(final(lines), final(line))),
        result is Ok ==> ahead(
            cursor(old(lines), old(line)).next(),
            cursor(final(lines), final(line)),
        ),
{
    reveal(execute_command);
    let _at_end = line.eol();
    if context.posix || context.sandbox {
        return compilation_error(
            lines,
            line,
            "the 'e' command is not allowed with --posix or --sandbox",
        );
    }
    if context.no_exec {
        return compilation_error(lines, line, ERR_NO_EXEC);
    }
    line.advance();  // Skip the command character.
    line.eat_spaces();  // Skip any leading whitespace.
    if line.eol() {
        // No argument: execute the pattern space itself at runtime.
        cmd.data = CommandData::Empty;
        return Ok(CommandHandling::Continue);
    }
    match parse_text(lines, line, false) {
        Ok((text, continued)) => {
            cmd.data = if text.len() == 0 && !continued {
                // A dangling leading backslash with nothing left to continue into.
                CommandData::Empty
            } else {
                CommandData::Text(text)
            };
            Ok(CommandHandling::Continue)
        },
        Err(e) => Err(e),
    }
}

} // verus!
