//! The commands that there are.

use crate::command::{Command, CommandView, ContextView, ProcessingContext};
use crate::compiler::cursor::{Cursor, ahead, beyond, cursor, in_words};
use crate::compiler::handling::{CommandHandling, Handled, handled};
use crate::compiler::limits::{lemma_within_limits, may_be_allowed, within_limits};
use crate::compiler::simple::{
    block_command, compile_block_command, compile_empty_command, compile_end_group_command,
    compile_label_command, compile_negation_command, compile_number_command,
    compile_read_file_command, compile_read_line_command, compile_write_file_command,
    empty_command, end_group_command, label_command, negation_command, number_command,
    read_file_command, read_line_command, write_file_command,
};
use crate::compiler::substitute::{compile_subst_command, subst_command};
use crate::compiler::text::{
    compile_execute_command, compile_text_command, execute_command, text_command,
};
use crate::compiler::transliterate::{compile_trans_command, trans_command};
use crate::compiler::version::{compile_version_command, version_command};
use crate::error_handling::{ErrorView, SedResult, compilation_error};
use crate::script_char_provider::ScriptCharProvider;
use crate::script_line_provider::ScriptLineProvider;
use crate::text::{around_char, decimal, push_decimal};
use vstd::prelude::*;

verus! {

/// The ways in which commands are compiled.
#[derive(Debug, Clone, Copy, PartialEq, Eq, Structural)]
pub enum CommandHandler {
    /// `!`
    Negation,
    /// Commands without an argument.
    Empty,
    /// Commands that take a label.
    Label,
    /// `{`
    Block,
    /// `}`
    EndGroup,
    /// Commands that take text.
    Text,
    /// Commands that take a number.
    Number,
    /// `e`
    Execute,
    /// `r`
    ReadFile,
    /// `R`
    ReadLine,
    /// `s`
    Subst,
    /// `w` and `W`
    WriteFile,
    /// `y`
    Trans,
    /// `v`
    Version,
}

/// What is known of a command by its letter.
#[derive(Debug, Clone, Copy, PartialEq, Eq, Structural)]
pub struct CommandSpec {
    /// The number of addresses that it takes at most.
    pub n_addr: usize,
    /// The way in which it is compiled.
    pub handler: CommandHandler,
}

/// A command that takes two addresses.
pub open spec fn two_addresses(handler: CommandHandler) -> Option<CommandSpec> {
    Some(CommandSpec { n_addr: 2, handler })
}

/// A command that takes two addresses, but only one if `posix` holds.
pub open spec fn one_address_in_posix(handler: CommandHandler, posix: bool) -> Option<CommandSpec> {
    Some(
        CommandSpec {
            n_addr: if posix {
                1
            } else {
                2
            },
            handler,
        },
    )
}

/// A command that takes two addresses and does not exist if `posix` holds.
pub open spec fn not_in_posix(handler: CommandHandler, posix: bool) -> Option<CommandSpec> {
    if posix {
        None
    } else {
        two_addresses(handler)
    }
}

/// What is known of the command with the letter `code`, if there is one.
pub open spec fn spec_of(code: char, posix: bool) -> Option<CommandSpec> {
    if code == '!' {
        two_addresses(CommandHandler::Negation)
    } else if code == '=' {
        one_address_in_posix(CommandHandler::Empty, posix)
    } else if code == ':' {
        Some(CommandSpec { n_addr: 0, handler: CommandHandler::Label })
    } else if code == '{' {
        two_addresses(CommandHandler::Block)
    } else if code == '}' {
        Some(CommandSpec { n_addr: 0, handler: CommandHandler::EndGroup })
    } else if code == 'a' || code == 'i' {
        one_address_in_posix(CommandHandler::Text, posix)
    } else if code == 'b' || code == 't' {
        two_addresses(CommandHandler::Label)
    } else if code == 'c' {
        two_addresses(CommandHandler::Text)
    } else if code == 'd' || code == 'D' || code == 'g' || code == 'G' || code == 'h' || code == 'H'
        || code == 'n' || code == 'N' || code == 'p' || code == 'P' || code == 'x' {
        two_addresses(CommandHandler::Empty)
    } else if code == 'z' || code == 'F' {
        not_in_posix(CommandHandler::Empty, posix)
    } else if code == 'l' {
        two_addresses(CommandHandler::Number)
    } else if code == 'q' {
        one_address_in_posix(CommandHandler::Number, posix)
    } else if code == 'Q' {
        Some(CommandSpec { n_addr: 1, handler: CommandHandler::Number })
    } else if code == 'e' {
        two_addresses(CommandHandler::Execute)
    } else if code == 'r' {
        one_address_in_posix(CommandHandler::ReadFile, posix)
    } else if code == 'R' {
        not_in_posix(CommandHandler::ReadLine, posix)
    } else if code == 's' {
        two_addresses(CommandHandler::Subst)
    } else if code == 'T' {
        not_in_posix(CommandHandler::Label, posix)
    } else if code == 'W' {
        not_in_posix(CommandHandler::WriteFile, posix)
    } else if code == 'w' {
        two_addresses(CommandHandler::WriteFile)
    } else if code == 'y' {
        two_addresses(CommandHandler::Trans)
    } else if code == 'v' && !posix {
        Some(CommandSpec { n_addr: 0, handler: CommandHandler::Version })
    } else {
        None
    }
}

/// The message for a command that does not exist.
pub open spec fn unknown_command(code: char) -> Seq<char> {
    "unknown command: `"@ + seq![code] + "'"@
}

/// Looks a command up by its letter.
pub fn get_cmd_spec(
    lines: &ScriptLineProvider,
    line: &ScriptCharProvider,
    cmd_code: char,
    posix: bool,
) -> (result: SedResult<CommandSpec>)
    ensures
        match spec_of(cmd_code, posix) {
            Some(spec) => result == Ok::<CommandSpec, crate::error_handling::SedError>(spec),
            None => result matches Err(e) && e@ == cursor(lines, line).error(
                unknown_command(cmd_code),
            ),
        },
{
    let one_or_two: usize = if posix {
        1
    } else {
        2
    };
    match cmd_code {
        '!' => Ok(CommandSpec { n_addr: 2, handler: CommandHandler::Negation }),
        '=' => Ok(CommandSpec { n_addr: one_or_two, handler: CommandHandler::Empty }),
        ':' => Ok(CommandSpec { n_addr: 0, handler: CommandHandler::Label }),
        '{' => Ok(CommandSpec { n_addr: 2, handler: CommandHandler::Block }),
        '}' => Ok(CommandSpec { n_addr: 0, handler: CommandHandler::EndGroup }),
        'a' | 'i' => Ok(CommandSpec { n_addr: one_or_two, handler: CommandHandler::Text }),
        'b' | 't' => Ok(CommandSpec { n_addr: 2, handler: CommandHandler::Label }),
        'c' => Ok(CommandSpec { n_addr: 2, handler: CommandHandler::Text }),
        'd' | 'D' | 'g' | 'G' | 'h' | 'H' | 'n' | 'N' | 'p' | 'P' | 'x' => Ok(
            CommandSpec { n_addr: 2, handler: CommandHandler::Empty },
        ),
        'z' if !posix => Ok(CommandSpec { n_addr: 2, handler: CommandHandler::Empty }),
        'l' => Ok(CommandSpec { n_addr: 2, handler: CommandHandler::Number }),
        'q' => Ok(CommandSpec { n_addr: one_or_two, handler: CommandHandler::Number }),
        // Q is a GNU extension
        'Q' => Ok(CommandSpec { n_addr: 1, handler: CommandHandler::Number }),
        // e is a GNU extension
        'e' => Ok(CommandSpec { n_addr: 2, handler: CommandHandler::Execute }),
        'F' if !posix => Ok(CommandSpec { n_addr: 2, handler: CommandHandler::Empty }),
        'r' => Ok(CommandSpec { n_addr: one_or_two, handler: CommandHandler::ReadFile }),
        'R' if !posix => Ok(CommandSpec { n_addr: 2, handler: CommandHandler::ReadLine }),
        's' => Ok(CommandSpec { n_addr: 2, handler: CommandHandler::Subst }),
        'T' if !posix => Ok(CommandSpec { n_addr: 2, handler: CommandHandler::Label }),
        'W' if !posix => Ok(CommandSpec { n_addr: 2, handler: CommandHandler::WriteFile }),
        'w' => Ok(CommandSpec { n_addr: 2, handler: CommandHandler::WriteFile }),
        'y' => Ok(CommandSpec { n_addr: 2, handler: CommandHandler::Trans }),
        'v' if !posix => Ok(CommandSpec { n_addr: 0, handler: CommandHandler::Version }),
        _ => compilation_error(
            lines,
            line,
            around_char("unknown command: `", cmd_code, "'").as_str(),
        ),
    }
}

/// The message for a command that has too many addresses.
pub open spec fn too_many_addresses(code: char, most: nat, found: nat) -> Seq<char> {
    "command "@ + seq![code] + " expects up to "@ + decimal(most) + " address(es), found "@
        + decimal(found)
}

/// What is known of the command at `at`, which has `n_addr` addresses, or what is wrong with
/// it.
#[verifier::opaque]
pub open spec fn verified_spec(at: Cursor, n_addr: usize, posix: bool) -> Result<
    CommandSpec,
    ErrorView,
> {
    if at.eol() {
        Err(at.error("command expected"@))
    } else {
        match spec_of(at.char(), posix) {
            None => Err(at.error(unknown_command(at.char()))),
            Some(spec) => if n_addr > spec.n_addr {
                Err(
                    at.error(
                        too_many_addresses(at.char(), spec.n_addr as nat, n_addr as nat),
                    ),
                )
            } else {
                Ok(spec)
            },
        }
    }
}

/// Looks up the command at the current position, which has `n_addr` addresses, and checks that
/// it can be there.
pub fn get_verified_cmd_spec(
    lines: &ScriptLineProvider,
    line: &ScriptCharProvider,
    n_addr: usize,
    posix: bool,
) -> (result: SedResult<CommandSpec>)
    ensures
        match result {
            Ok(spec) => {
                &&& verified_spec(cursor(lines, line), n_addr, posix) == Ok::<
                    CommandSpec,
                    ErrorView,
                >(spec)
                &&& !cursor(lines, line).eol()
                &&& spec_of(cursor(lines, line).char(), posix) == Some(spec)
            },
            Err(e) => verified_spec(cursor(lines, line), n_addr, posix) == Err::<
                CommandSpec,
                ErrorView,
            >(e@),
        },
{
    reveal(verified_spec);
    if line.eol() {
        return compilation_error(lines, line, "command expected");
    }
    let ch = line.current();
    let spec = match get_cmd_spec(lines, line, ch, posix) {
        Ok(spec) => spec,
        Err(e) => {
            return Err(e);
        },
    };
    if n_addr > spec.n_addr {
        let mut message = around_char("command ", ch, " expects up to ");
        push_decimal(&mut message, spec.n_addr);
        message.append(" address(es), found ");
        push_decimal(&mut message, n_addr);
        return compilation_error(lines, line, message.as_str());
    }
    Ok(spec)
}

/// What compiling the command at `at` in the given way gives, if `reason` are the words of the
/// regular expression engine should it refuse.
#[verifier::opaque]
pub open spec fn handle(
    handler: CommandHandler,
    at: Cursor,
    cmd: CommandView,
    context: ContextView,
    reason: Seq<char>,
) -> Handled {
    match handler {
        CommandHandler::Negation => negation_command(at, cmd, context),
        CommandHandler::Empty => empty_command(at, cmd, context),
        CommandHandler::Label => label_command(at, cmd, context),
        CommandHandler::Block => block_command(at, cmd, context),
        CommandHandler::EndGroup => end_group_command(at, cmd, context),
        CommandHandler::Text => text_command(at, cmd, context),
        CommandHandler::Number => number_command(at, cmd, context),
        CommandHandler::Execute => execute_command(at, cmd, context),
        CommandHandler::ReadFile => read_file_command(at, cmd, context),
        CommandHandler::ReadLine => read_line_command(at, cmd, context),
        CommandHandler::Subst => subst_command(at, cmd, context, reason),
        CommandHandler::WriteFile => write_file_command(at, cmd, context),
        CommandHandler::Trans => trans_command(at, cmd, context),
        CommandHandler::Version => version_command(at, cmd, context),
    }
}

/// Compiles the command whose letter is the current character in the given way.
pub fn run_handler(
    handler: CommandHandler,
    lines: &mut ScriptLineProvider,
    line: &mut ScriptCharProvider,
    cmd: &mut Command,
    context: &mut ProcessingContext,
) -> (result: SedResult<CommandHandling>)
    requires
        old(line)@.pos < old(line)@.text.len(),
        old(context)@.parsed_block_nesting < usize::MAX,
        handler == CommandHandler::Number ==> (old(cmd)@.code == 'l' || old(cmd)@.code == 'q'
            || old(cmd)@.code == 'Q'),
    ensures
        forall|reason: Seq<char>|
            in_words(result, reason) ==> handled(
                result,
                cursor(final(lines), final(line)),
                final(cmd),
                final(context),
            ) == #[trigger] handle(
                handler,
                cursor(old(lines), old(line)),
                old(cmd)@,
                old(context)@,
                reason,
            ),
        ahead(cursor(old(lines), old(line)), cursor(final(lines), final(line))),
        result is Ok ==> beyond(
            cursor(old(lines), old(line)),
            cursor(final(lines), final(line)),
        ),
        may_be_allowed(handler, old(cmd)@, old(context)@.options) ==> within_limits(
            handled(result, cursor(final(lines), final(line)), final(cmd), final(context)),
            old(context)@,
        ),
{
    reveal(handle);
    proof {
        if handler != CommandHandler::Subst && may_be_allowed(handler, cmd@, context@.options) {
            lemma_within_limits(handler, cursor(lines, line), cmd@, context@, Seq::empty());
        }
    }
    match handler {
        CommandHandler::Negation => compile_negation_command(lines, line, cmd, context),
        CommandHandler::Empty => compile_empty_command(lines, line, cmd, context),
        CommandHandler::Label => compile_label_command(lines, line, cmd, context),
        CommandHandler::Block => compile_block_command(lines, line, cmd, context),
        CommandHandler::EndGroup => compile_end_group_command(lines, line, cmd, context),
        CommandHandler::Text => compile_text_command(lines, line, cmd, context),
        CommandHandler::Number => compile_number_command(lines, line, cmd, context),
        CommandHandler::Execute => compile_execute_command(lines, line, cmd, context),
        CommandHandler::ReadFile => compile_read_file_command(lines, line, cmd, context),
        CommandHandler::ReadLine => compile_read_line_command(lines, line, cmd, context),
        CommandHandler::Subst => compile_subst_command(lines, line, cmd, context),
        CommandHandler::WriteFile => compile_write_file_command(lines, line, cmd, context),
        CommandHandler::Trans => compile_trans_command(lines, line, cmd, context),
        CommandHandler::Version => compile_version_command(lines, line, cmd, context),
    }
}

} // verus!
