//! What the options keep out of a compiled script.

use crate::command::{
    AddressView, CommandView, ContextView, DataView, OptionsView, SubstitutionView,
};
use crate::compiler::address::{address_at, range_at, second_address, with_addresses};
use crate::compiler::cursor::Cursor;
use crate::compiler::handling::Handled;
use crate::compiler::simple::{
    label_command, number_command, read_file_command, read_line_command, write_file_command,
};
use crate::compiler::transliterate::trans_command;
use crate::compiler::table::{CommandHandler, handle, spec_of};
use crate::compiler::text::{execute_command, posix_text, text_command};
use crate::compiler::version::version_command;
use vstd::prelude::*;

verus! {

/// Whether the command runs a program.
pub open spec fn executes(cmd: CommandView) -> bool {
    ||| cmd.code == 'e'
    ||| cmd.data matches DataView::Substitution(subst) && subst.execute
}

/// Whether the command reads or writes a file that the script names.
pub open spec fn touches_files(cmd: CommandView) -> bool {
    ||| cmd.data is Path
    ||| cmd.data is NamedWriter
    ||| cmd.data is NamedReader
    ||| cmd.data matches DataView::Substitution(subst) && subst.write_file is Some
}

/// Whether POSIX mode admits such addresses.
pub open spec fn posix_addresses(cmd: CommandView) -> bool {
    &&& cmd.addr1 != Some(AddressView::Line(0))
    &&& !(cmd.addr2 matches Some(AddressView::StepMatch(_)))
    &&& !(cmd.addr2 matches Some(AddressView::StepEnd(_)))
}

/// Whether the table of commands admits the command in POSIX mode, and that mode its addresses
/// and its flags.
pub open spec fn posix_admits(cmd: CommandView) -> bool {
    &&& spec_of(cmd.code, true) is Some
    &&& posix_addresses(cmd)
    &&& cmd.data matches DataView::Substitution(subst) ==> !subst.ignore_case && !subst.multiline
}

/// Whether the options allow the command: a sandbox keeps out programs and files, the lack of
/// a shell keeps out programs, and POSIX mode keeps out programs and whatever it does not admit.
pub open spec fn allowed(cmd: CommandView, options: OptionsView) -> bool {
    &&& options.sandbox ==> !executes(cmd) && !touches_files(cmd)
    &&& options.no_exec ==> !executes(cmd)
    &&& options.posix ==> !executes(cmd) && posix_admits(cmd)
}

/// Whether the options allow all commands from `base` on.
pub open spec fn all_allowed(commands: Seq<CommandView>, base: int, options: OptionsView) -> bool {
    forall|i: int| base <= i < commands.len() ==> allowed(#[trigger] commands[i], options)
}

/// Whether the options allow the flags of the substitution, but for the lack of a shell.
pub open spec fn flags_allowed(subst: SubstitutionView, posix: bool, sandbox: bool) -> bool {
    &&& sandbox ==> !subst.execute && subst.write_file is None
    &&& posix ==> !subst.execute && !subst.ignore_case && !subst.multiline
}

/// Whether a command that is about to be compiled can become an allowed one: it has no
/// argument yet, its letter is that of a command, and its addresses are allowed.
pub open spec fn may_be_allowed(handler: CommandHandler, cmd: CommandView, options: OptionsView) -> bool {
    &&& cmd.data is Empty
    &&& spec_of(cmd.code, options.posix) matches Some(spec) && spec.handler == handler
    &&& options.posix ==> posix_addresses(cmd)
}

/// What compiling a command does under the options: it leaves them and the labels as they are,
/// its result is allowed, and in a sandbox it names no output file.
pub open spec fn within_limits(after: Handled, context: ContextView) -> bool {
    &&& after.context.options == context.options
    &&& after.context.labels == context.labels
    &&& after.result is Ok ==> allowed(after.cmd, context.options)
    &&& context.options.sandbox ==> after.context.writers == context.writers
}

/// Addresses that compile in POSIX mode are those that it admits.
pub proof fn lemma_range_allowed(
    at: Cursor,
    cmd: CommandView,
    context: ContextView,
    reason: Seq<char>,
)
    requires
        cmd.addr1 is None,
        cmd.addr2 is None,
        context.options.posix,
        range_at(at, context, reason).result is Ok,
    ensures
        posix_addresses(with_addresses(cmd, range_at(at, context, reason))),
{
    let range = range_at(at, context, reason);
    if range.addr1 is Some {
        lemma_second_allowed(
            address_at(at.past_spaces(), context, reason).at,
            context,
            range.addr1->0,
            reason,
        );
    }
}

/// A second address that compiles in POSIX mode has no step, unless it is written as one.
proof fn lemma_second_allowed(
    at: Cursor,
    context: ContextView,
    addr1: AddressView,
    reason: Seq<char>,
)
    requires
        context.options.posix,
    ensures
        second_address(at, context, addr1, reason).result is Ok ==> {
            let addr2 = second_address(at, context, addr1, reason).addr2;
            &&& !(addr2 matches Some(AddressView::StepMatch(_)))
            &&& !(addr2 matches Some(AddressView::StepEnd(_)))
        },
{
    let behind = at.past_spaces().next().past_spaces();
    lemma_address_has_no_step(behind, context, reason);
}

/// A single address has no step.
proof fn lemma_address_has_no_step(at: Cursor, context: ContextView, reason: Seq<char>)
    ensures
        address_at(at, context, reason).result matches Ok(addr) ==> !(addr is StepMatch) && !(
        addr is StepEnd),
{
    reveal(address_at);
}

/// All commands but `s` keep within the limits.
pub proof fn lemma_within_limits(
    handler: CommandHandler,
    at: Cursor,
    cmd: CommandView,
    context: ContextView,
    reason: Seq<char>,
)
    requires
        handler != CommandHandler::Subst,
        may_be_allowed(handler, cmd, context.options),
    ensures
        within_limits(handle(handler, at, cmd, context, reason), context),
{
    reveal(handle);
    match handler {
        CommandHandler::Label => {
            reveal(label_command);
        },
        CommandHandler::Text => {
            reveal(text_command);
            reveal(posix_text);
        },
        CommandHandler::Number => {
            reveal(number_command);
        },
        CommandHandler::Execute => {
            reveal(execute_command);
        },
        CommandHandler::ReadFile => {
            reveal(read_file_command);
        },
        CommandHandler::ReadLine => {
            reveal(read_line_command);
        },
        CommandHandler::WriteFile => {
            reveal(write_file_command);
        },
        CommandHandler::Trans => {
            reveal(trans_command);
        },
        CommandHandler::Version => {
            reveal(version_command);
        },
        _ => {},
    }
}

} // verus!
