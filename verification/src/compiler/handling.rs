//! What compiling one command gives.

use crate::command::{Command, CommandView, ContextView, ProcessingContext};
use crate::compiler::arguments::ending_at;
use crate::compiler::cursor::Cursor;
use crate::error_handling::{ErrorView, SedResult};
use vstd::prelude::*;

verus! {

/// How compiling goes on behind a command.
#[derive(Debug, Clone, Copy, PartialEq, Eq, Structural)]
pub enum CommandHandling {
    /// With the command that the addresses belong to: `!`.
    GetNext,
    /// With the commands around the block: `}`.
    Return,
    /// With the next command: all other commands.
    Continue,
}

/// What compiling a command gives: how to go on or an error, the place reached, and the
/// command and the context afterwards.
pub struct Handled {
    /// How to go on, or the error.
    pub result: Result<CommandHandling, ErrorView>,
    /// The place reached.
    pub at: Cursor,
    /// The command.
    pub cmd: CommandView,
    /// The context.
    pub context: ContextView,
}

/// What compiling a command gave.
pub open spec fn handled(
    result: SedResult<CommandHandling>,
    at: Cursor,
    cmd: &Command,
    context: &ProcessingContext,
) -> Handled {
    Handled {
        result: match result {
            Ok(handling) => Ok(handling),
            Err(e) => Err(e@),
        },
        at,
        cmd: cmd@,
        context: context@,
    }
}

/// The command is in error, with the given error.
pub open spec fn failed(at: Cursor, cmd: CommandView, context: ContextView, error: ErrorView) -> Handled {
    Handled { result: Err(error), at, cmd, context }
}

/// The command is in error, with a message that points to `at`.
pub open spec fn refused(
    at: Cursor,
    cmd: CommandView,
    context: ContextView,
    message: Seq<char>,
) -> Handled {
    failed(at, cmd, context, at.error(message))
}

/// The command is compiled, up to `at`, and the next one follows.
pub open spec fn compiled(at: Cursor, cmd: CommandView, context: ContextView) -> Handled {
    Handled { result: Ok(CommandHandling::Continue), at, cmd, context }
}

/// The command is compiled if it ends at `at`.
pub open spec fn ended(at: Cursor, cmd: CommandView, context: ContextView) -> Handled {
    let ending = ending_at(at, cmd.code);
    match ending.result {
        Ok(_) => compiled(ending.at, cmd, context),
        Err(e) => failed(ending.at, cmd, context, e),
    }
}

} // verus!
