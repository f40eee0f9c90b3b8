//! Compiling commands with simple arguments.

use crate::command::{
    Command, CommandData, CommandView, ContextView, DataView, OptionsView, ProcessingContext,
    with_writer,
};
use crate::compiler::address::{as_chars, number_at, parse_number};
use crate::compiler::arguments::{
    ERR_SANDBOX, ending_at, named_path, parse_command_ending, read_named_path,
};
use crate::compiler::cursor::{Cursor, ahead, cursor};
use crate::compiler::handling::{
    CommandHandling, Handled, compiled, ended, failed, handled, refused,
};
use crate::error_handling::{ScriptLocation, SedResult, compilation_error};
use crate::named_reader::{NamedReader, ReaderView};
use crate::named_writer::{NamedWriter, WriterView};
use crate::paths::{join, joined};
use crate::script_char_provider::{LineView, ScriptCharProvider};
use crate::script_line_provider::ScriptLineProvider;
use vstd::prelude::*;

verus! {

/// How deep blocks may be nested.
pub const MAX_BLOCK_NESTING: usize = 5_000;

/// The message for blocks that are nested deeper.
pub const ERR_BLOCK_NESTING_TOO_DEEP: &'static str = "`{' blocks are nested too deeply";

/// What `!` gives at `at`.
pub open spec fn negation_command(at: Cursor, cmd: CommandView, context: ContextView) -> Handled {
    let end = at.next().past_spaces();
    if cmd.non_select {
        refused(end, cmd, context, "multiple `!'s"@)
    } else {
        Handled {
            result: Ok(CommandHandling::GetNext),
            at: end,
            cmd: CommandView { non_select: true, ..cmd },
            context,
        }
    }
}

/// Compiles `!`, which is the current character.
pub fn compile_negation_command(
    lines: &mut ScriptLineProvider,
    line: &mut ScriptCharProvider,
    cmd: &mut Command,
    context: &mut ProcessingContext,
) -> (result: SedResult<CommandHandling>)
    requires
        old(line)@.pos < old(line)@.text.len(),
    ensures
        handled(
            result,
            cursor(final(lines), final(line)),
            final(cmd),
            final(context),
        ) == negation_command(cursor(old(lines), old(line)), old(cmd)@, old(context)@),
        ahead(cursor(old(lines), old(line)).next(), cursor(final(lines), final(line))),
{
    line.advance();
    line.eat_spaces();
    if cmd.non_select {
        return compilation_error(lines, line, "multiple `!'s");
    }
    cmd.non_select = true;
    Ok(CommandHandling::GetNext)
}

/// What a command without an argument gives at `at`.
pub open spec fn empty_command(at: Cursor, cmd: CommandView, context: ContextView) -> Handled {
    ended(at.next().past_spaces(), cmd, context)
}

/// Compiles a command that takes no argument, at whose character the line is.
// Handles d D g G h H n N p P x z F =
pub fn compile_empty_command(
    lines: &mut ScriptLineProvider,
    line: &mut ScriptCharProvider,
    cmd: &mut Command,
    context: &mut ProcessingContext,
) -> (result: SedResult<CommandHandling>)
    requires
        old(line)@.pos < old(line)@.text.len(),
    ensures
        handled(
            result,
            cursor(final(lines), final(line)),
            final(cmd),
            final(context),
        ) == empty_command(cursor(old(lines), old(line)), old(cmd)@, old(context)@),
        ahead(cursor(old(lines), old(line)).next(), cursor(final(lines), final(line))),
{
    line.advance();  // Skip the command character
    line.eat_spaces();  // Skip any trailing whitespace
    match parse_command_ending(lines, line, cmd) {
        Ok(_) => Ok(CommandHandling::Continue),
        Err(e) => Err(e),
    }
}

/// What `}` gives at `at`.
pub open spec fn end_group_command(at: Cursor, cmd: CommandView, context: ContextView) -> Handled {
    if context.parsed_block_nesting == 0 {
        refused(at, cmd, context, "unexpected `}'"@)
    } else {
        let closed = ContextView {
            parsed_block_nesting: (context.parsed_block_nesting - 1) as usize,
            ..context
        };
        let ending = ending_at(at.next().past_spaces(), cmd.code);
        Handled {
            result: match ending.result {
                Ok(_) => Ok(CommandHandling::Return),
                Err(e) => Err(e),
            },
            at: ending.at,
            cmd,
            context: closed,
        }
    }
}

/// Compiles `}`, which is the current character.
pub fn compile_end_group_command(
    lines: &mut ScriptLineProvider,
    line: &mut ScriptCharProvider,
    cmd: &mut Command,
    context: &mut ProcessingContext,
) -> (result: SedResult<CommandHandling>)
    requires
        old(line)@.pos < old(line)@.text.len(),
    ensures
        handled(
            result,
            cursor(final(lines), final(line)),
            final(cmd),
            final(context),
        ) == end_group_command(cursor(old(lines), old(line)), old(cmd)@, old(context)@),
        ahead(cursor(old(lines), old(line)), cursor(final(lines), final(line))),
        result is Ok ==> ahead(
            cursor(old(lines), old(line)).next(),
            cursor(final(lines), final(line)),
        ),
{
    let _at_end = line.eol();
    if context.parsed_block_nesting == 0 {
        return compilation_error(lines, line, "unexpected `}'");
    }
    context.set_block_nesting(context.parsed_block_nesting - 1);
    line.advance();
    line.eat_spaces();
    match parse_command_ending(lines, line, cmd) {
        Ok(_) => Ok(CommandHandling::Return),
        Err(e) => Err(e),
    }
}

/// What `{` gives at `at`. Its block is filled in when it closes.
pub open spec fn block_command(at: Cursor, cmd: CommandView, context: ContextView) -> Handled {
    let opened = ContextView {
        parsed_block_nesting: (context.parsed_block_nesting + 1) as usize,
        ..context
    };
    if opened.parsed_block_nesting > MAX_BLOCK_NESTING {
        refused(at.next(), cmd, opened, ERR_BLOCK_NESTING_TOO_DEEP@)
    } else {
        compiled(at.next(), CommandView { data: DataView::BranchTarget(None), ..cmd }, opened)
    }
}

/// Compiles `{`, which is the current character. Its block is filled in when it closes.
pub fn compile_block_command(
    lines: &mut ScriptLineProvider,
    line: &mut ScriptCharProvider,
    cmd: &mut Command,
    context: &mut ProcessingContext,
) -> (result: SedResult<CommandHandling>)
    requires
        old(line)@.pos < old(line)@.text.len(),
        old(context)@.parsed_block_nesting < usize::MAX,
    ensures
        handled(
            result,
            cursor(final(lines), final(line)),
            final(cmd),
            final(context),
        ) == block_command(cursor(old(lines), old(line)), old(cmd)@, old(context)@),
        ahead(cursor(old(lines), old(line)).next(), cursor(final(lines), final(line))),
{
    line.advance();  // move past '{'
    context.set_block_nesting(context.parsed_block_nesting + 1);
    if context.parsed_block_nesting > MAX_BLOCK_NESTING {
        return compilation_error(lines, line, ERR_BLOCK_NESTING_TOO_DEEP);
    }
    cmd.data = CommandData::BranchTarget(None);
    Ok(CommandHandling::Continue)
}

/// Whether the byte is in the POSIX portable filename character set.
pub open spec fn portable(b: u8) -> bool {
    ||| 'A' as u8 <= b <= 'Z' as u8
    ||| 'a' as u8 <= b <= 'z' as u8
    ||| '0' as u8 <= b <= '9' as u8
    ||| b == '.' as u8
    ||| b == '_' as u8
    ||| b == '-' as u8
}

/// Whether the byte is in the POSIX portable filename character set.
fn is_portable_filename_char(b: u8) -> (yes: bool)
    ensures
        yes == portable(b),
{
    let c = b as char;
    ('A' <= c && c <= 'Z') || ('a' <= c && c <= 'z') || ('0' <= c && c <= '9') || c == '.' || c
        == '_' || c == '-'
}

/// The end of the label from `pos` on.
pub open spec fn label_end(text: Seq<u8>, pos: int) -> int
    decreases text.len() - pos,
{
    if 0 <= pos < text.len() && portable(text[pos]) {
        label_end(text, pos + 1)
    } else {
        pos
    }
}

/// What a command that takes a label gives at `at`. `:` needs one.
#[verifier::opaque]
pub open spec fn label_command(at: Cursor, cmd: CommandView, context: ContextView) -> Handled {
    let start = at.next().past_spaces();
    let text = start.line.text;
    let end = label_end(text, start.line.pos);
    let label = as_chars(text.subrange(start.line.pos, end));
    if label.len() == 0 && cmd.code == ':' {
        refused(start, cmd, context, "empty label"@)
    } else {
        let data = if label.len() == 0 {
            DataView::Label(None)
        } else {
            DataView::Label(Some(label))
        };
        ended(start.at_pos(end).past_spaces(), CommandView { data, ..cmd }, context)
    }
}

/// Compiles a command that takes a label, at whose character the line is.
// Handles b t T :
pub fn compile_label_command(
    lines: &mut ScriptLineProvider,
    line: &mut ScriptCharProvider,
    cmd: &mut Command,
    context: &mut ProcessingContext,
) -> (result: SedResult<CommandHandling>)
    requires
        old(line)@.pos < old(line)@.text.len(),
    ensures
        handled(
            result,
            cursor(final(lines), final(line)),
            final(cmd),
            final(context),
        ) == label_command(cursor(old(lines), old(line)), old(cmd)@, old(context)@),
        ahead(cursor(old(lines), old(line)).next(), cursor(final(lines), final(line))),
{
    reveal(label_command);
    line.advance();  // Skip the command character
    line.eat_spaces();  // Skip any leading whitespace
    let ghost start = cursor(lines, line);
    let ghost text = line@.text;
    let ghost from = line@.pos;
    let mut label = String::new();
    let mut empty = true;
    while !line.eol() && is_portable_filename_char(line.current_byte())
        invariant
            start.script == lines@,
            start.line == (LineView { text, pos: from }),
            line@.text == text,
            0 <= from <= line@.pos <= text.len(),
            label_end(text, line@.pos) == label_end(text, from),
            label@ == as_chars(text.subrange(from, line@.pos)),
            empty == (line@.pos == from),
        decreases line@.text.len() - line@.pos,
    {
        label.push(line.current());
        line.advance();
        empty = false;
        assert(label@ =~= as_chars(text.subrange(from, line@.pos)));
    }
    if empty {
        if cmd.code == ':' {
            return compilation_error(lines, line, "empty label");
        }
        cmd.data = CommandData::Label(None);
    } else {
        cmd.data = CommandData::Label(Some(label));
    }
    line.eat_spaces();  // Skip any trailing whitespace
    match parse_command_ending(lines, line, cmd) {
        Ok(_) => Ok(CommandHandling::Continue),
        Err(e) => Err(e),
    }
}

/// The number that a command has when the script gives none: a length for `l`, a status for
/// the others.
pub open spec fn default_number(code: char, context: ContextView) -> usize {
    if code == 'l' {
        context.options.length
    } else {
        0
    }
}

/// What a command that takes a number gives at `at`.
#[verifier::opaque]
pub open spec fn number_command(at: Cursor, cmd: CommandView, context: ContextView) -> Handled {
    let number = number_at(at.next().past_spaces(), false);
    match number.result {
        Err(e) => failed(number.at, cmd, context, e),
        Ok(n) => {
            let value = match n {
                Some(v) => v,
                None => default_number(cmd.code, context),
            };
            ended(
                number.at.past_spaces(),
                CommandView { data: DataView::Number(value), ..cmd },
                context,
            )
        },
    }
}

/// Compiles a command that takes a number, at whose character the line is.
// Handles l q Q
pub fn compile_number_command(
    lines: &mut ScriptLineProvider,
    line: &mut ScriptCharProvider,
    cmd: &mut Command,
    context: &mut ProcessingContext,
) -> (result: SedResult<CommandHandling>)
    requires
        old(line)@.pos < old(line)@.text.len(),
        old(cmd)@.code == 'l' || old(cmd)@.code == 'q' || old(cmd)@.code == 'Q',
    ensures
        handled(
            result,
            cursor(final(lines), final(line)),
            final(cmd),
            final(context),
        ) == number_command(cursor(old(lines), old(line)), old(cmd)@, old(context)@),
        ahead(cursor(old(lines), old(line)).next(), cursor(final(lines), final(line))),
{
    reveal(number_command);
    line.advance();  // Skip the command character
    line.eat_spaces();  // Skip any leading whitespace
    let value: usize = match parse_number(lines, line, false) {
        Ok(Some(n)) => n,
        Ok(None) => {
            if cmd.code == 'l' {
                context.length
            } else {
                0
            }
        },
        Err(e) => {
            return Err(e);
        },
    };
    cmd.data = CommandData::Number(value);
    line.eat_spaces();  // Skip any trailing whitespace
    match parse_command_ending(lines, line, cmd) {
        Ok(_) => Ok(CommandHandling::Continue),
        Err(e) => Err(e),
    }
}

/// The path from the root, if the directory that relative paths start from is known.
pub open spec fn resolved(path: Seq<u8>, options: OptionsView) -> Seq<u8> {
    match options.current_dir {
        Some(dir) => joined(dir, path, options.drive_paths),
        None => path,
    }
}

/// The path from the root, if the directory that relative paths start from is known.
fn resolve_path(path: Vec<u8>, context: &ProcessingContext) -> (out: Vec<u8>)
    ensures
        out@ == resolved(path@, context@.options),
{
    match &context.current_dir {
        Some(dir) => join(dir, &path, context.drive_paths),
        None => path,
    }
}

/// What `r` gives at `at`. Its file is read when it runs, so the path is resolved now.
#[verifier::opaque]
pub open spec fn read_file_command(at: Cursor, cmd: CommandView, context: ContextView) -> Handled {
    let path = named_path(at, context);
    if context.options.sandbox {
        refused(at, cmd, context, ERR_SANDBOX@)
    } else {
        match path.result {
            Err(e) => failed(path.at, cmd, context, e),
            Ok(p) => compiled(
                path.at,
                CommandView { data: DataView::Path(resolved(p, context.options)), ..cmd },
                context,
            ),
        }
    }
}

/// Compiles `r`, which is the current character. Its file is read when it runs, possibly long
/// after, so the path is resolved now.
pub fn compile_read_file_command(
    lines: &mut ScriptLineProvider,
    line: &mut ScriptCharProvider,
    cmd: &mut Command,
    context: &mut ProcessingContext,
) -> (result: SedResult<CommandHandling>)
    requires
        old(line)@.pos < old(line)@.text.len(),
    ensures
        handled(
            result,
            cursor(final(lines), final(line)),
            final(cmd),
            final(context),
        ) == read_file_command(cursor(old(lines), old(line)), old(cmd)@, old(context)@),
        ahead(cursor(old(lines), old(line)), cursor(final(lines), final(line))),
        result is Ok ==> final(line)@.pos > old(line)@.pos,
{
    reveal(read_file_command);
    let _at_end = line.eol();
    if context.sandbox {
        return compilation_error(lines, line, ERR_SANDBOX);
    }
    match read_named_path(lines, line, context) {
        Ok(path) => {
            cmd.data = CommandData::Path(resolve_path(path, context));
            Ok(CommandHandling::Continue)
        },
        Err(e) => Err(e),
    }
}

/// What `w` gives at `at`.
#[verifier::opaque]
pub open spec fn write_file_command(at: Cursor, cmd: CommandView, context: ContextView) -> Handled {
    let path = named_path(at, context);
    if context.options.sandbox {
        refused(at, cmd, context, ERR_SANDBOX@)
    } else {
        match path.result {
            Err(e) => failed(path.at, cmd, context, e),
            Ok(p) => {
                let writer = WriterView { path: p, location: at.location() };
                compiled(
                    path.at,
                    CommandView { data: DataView::NamedWriter(writer), ..cmd },
                    ContextView { writers: with_writer(context.writers, writer), ..context },
                )
            },
        }
    }
}

/// Compiles `w` or `W`, which is the current character.
pub fn compile_write_file_command(
    lines: &mut ScriptLineProvider,
    line: &mut ScriptCharProvider,
    cmd: &mut Command,
    context: &mut ProcessingContext,
) -> (result: SedResult<CommandHandling>)
    requires
        old(line)@.pos < old(line)@.text.len(),
    ensures
        handled(
            result,
            cursor(final(lines), final(line)),
            final(cmd),
            final(context),
        ) == write_file_command(cursor(old(lines), old(line)), old(cmd)@, old(context)@),
        ahead(cursor(old(lines), old(line)), cursor(final(lines), final(line))),
        result is Ok ==> final(line)@.pos > old(line)@.pos,
{
    reveal(write_file_command);
    let _at_end = line.eol();
    if context.sandbox {
        return compilation_error(lines, line, ERR_SANDBOX);
    }
    let location = ScriptLocation::at_position(lines, line);
    match read_named_path(lines, line, context) {
        Ok(path) => {
            let writer = NamedWriter::new(path, location);
            context.register_writer(&writer);
            cmd.data = CommandData::NamedWriter(writer);
            Ok(CommandHandling::Continue)
        },
        Err(e) => Err(e),
    }
}

/// What `R` gives at `at`.
#[verifier::opaque]
pub open spec fn read_line_command(at: Cursor, cmd: CommandView, context: ContextView) -> Handled {
    let path = named_path(at, context);
    if context.options.sandbox {
        refused(at, cmd, context, ERR_SANDBOX@)
    } else {
        match path.result {
            Err(e) => failed(path.at, cmd, context, e),
            Ok(p) => compiled(
                path.at,
                CommandView {
                    data: DataView::NamedReader(ReaderView { path: p, rest: None, fails: false }),
                    ..cmd
                },
                context,
            ),
        }
    }
}

/// Compiles `R` (GNU), which is the current character: like `r`, but for one line of the file
/// each time it runs.
pub fn compile_read_line_command(
    lines: &mut ScriptLineProvider,
    line: &mut ScriptCharProvider,
    cmd: &mut Command,
    context: &mut ProcessingContext,
) -> (result: SedResult<CommandHandling>)
    requires
        old(line)@.pos < old(line)@.text.len(),
    ensures
        handled(
            result,
            cursor(final(lines), final(line)),
            final(cmd),
            final(context),
        ) == read_line_command(cursor(old(lines), old(line)), old(cmd)@, old(context)@),
        ahead(cursor(old(lines), old(line)), cursor(final(lines), final(line))),
        result is Ok ==> final(line)@.pos > old(line)@.pos,
{
    reveal(read_line_command);
    let _at_end = line.eol();
    if context.sandbox {
        return compilation_error(lines, line, ERR_SANDBOX);
    }
    match read_named_path(lines, line, context) {
        Ok(path) => {
            cmd.data = CommandData::NamedReader(NamedReader::new(path));
            Ok(CommandHandling::Continue)
        },
        Err(e) => Err(e),
    }
}

} // verus!
