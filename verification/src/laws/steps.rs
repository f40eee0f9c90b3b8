//! Compiling a script step by step: comments, separators, commands and blocks.

use crate::command::{CommandView, ContextView, DataView};
use crate::compiler::cursor::Cursor;
use crate::compiler::handling::CommandHandling;
use crate::compiler::sequence::{
    CompileFrame, Progress, SequenceStep, command_at, sequence_at, sequence_from, sequence_start,
    step,
};
use crate::error_handling::ErrorView;
use vstd::prelude::*;

verus! {

/// Whether the progress goes on at `at`, with all else as it was.
pub open spec fn goes_on(after: Progress, before: Progress, at: Cursor) -> bool {
    &&& after.at == at
    &&& after.context == before.context
    &&& after.stack == before.stack
}

/// A `;` is skipped, and so is white space.
pub proof fn law_semicolon_is_skipped(p: Progress, reason: Seq<char>)
    requires
        !p.at.past_spaces().eol(),
        p.at.past_spaces().byte() == 59,
    ensures
        step(p, reason) matches SequenceStep::More(q) && goes_on(
            q,
            p,
            p.at.past_spaces().next(),
        ),
{
    reveal(step);
}

/// Behind the end of a line, or where a comment starts, the next line is read; where there is
/// none, the script ends. Nothing comes before the first line.
pub proof fn law_comment_is_skipped(p: Progress, reason: Seq<char>)
    requires
        ({
            let at = p.at.past_spaces();
            at.eol() || at.byte() == 35 && !(p.first && at.script.number == 1 && at.line.pos == 0)
        }),
        p.stack.len() > 0,
    ensures
        ({
            let at = p.at.past_spaces();
            match at.read() {
                Ok(Some(text)) => step(p, reason) matches SequenceStep::More(q) && goes_on(
                    q,
                    p,
                    at.after_read(),
                ) && q.at.line.text == text && q.at.line.pos == 0 && q.first == (at.script.number == 0),
                Ok(None) => step(p, reason) matches SequenceStep::End(q) && q.context == p.context
                    && q.stack == p.stack,
                Err(e) => step(p, reason) matches SequenceStep::Wrong(_, error) && error == e,
            }
        }),
{
    reveal(step);
}

/// A comment at the very start of the script is skipped, too. If its first letter is an `n`,
/// lines are not printed by default.
pub proof fn law_first_comment(p: Progress, reason: Seq<char>)
    requires
        p.first,
        p.at.script.number == 1,
        p.at.line.pos == 0,
        p.at.line.text.len() > 0,
        p.at.line.text[0] == 35,
        p.stack.len() > 0,
    ensures
        ({
            let quiet = p.at.line.text.len() > 1 && p.at.line.text[1] == 110;
            let end = p.at.line_end();
            match end.read() {
                Ok(Some(text)) => step(p, reason) matches SequenceStep::More(q) && q.stack
                    == p.stack && q.at == end.after_read() && q.at.line.text == text
                    && q.context == (ContextView { quiet: p.context.quiet || quiet, ..p.context }),
                Ok(None) => step(p, reason) matches SequenceStep::End(q) && q.stack == p.stack
                    && q.context == (ContextView { quiet: p.context.quiet || quiet, ..p.context }),
                Err(e) => step(p, reason) matches SequenceStep::Wrong(_, error) && error == e,
            }
        }),
{
    reveal(step);
    assert(p.at.past_spaces() == p.at);
    assert(p.at.line_end().eol());
}

/// Whether a command starts where the progress is, behind white space.
pub open spec fn starts_command(p: Progress) -> bool {
    let at = p.at.past_spaces();
    !at.eol() && at.byte() != 35 && at.byte() != 59
}

/// A command that is in error ends the script with that error.
pub proof fn law_error_stops(p: Progress, reason: Seq<char>)
    requires
        starts_command(p),
    ensures
        command_at(p.at.past_spaces(), p.context, reason).result matches Err(e) ==> (step(
            p,
            reason,
        ) matches SequenceStep::Wrong(_, error) && error == e),
{
    reveal(step);
}

/// A command comes behind all others, and behind the last one of its block. A `{` opens a block
/// of its own.
pub proof fn law_command_is_added(p: Progress, reason: Seq<char>)
    requires
        starts_command(p),
        p.stack.len() > 0,
        p.stack.last().tail matches Some(t) ==> t < p.context.commands.len(),
        command_at(p.at.past_spaces(), p.context, reason).result == Ok::<
            CommandHandling,
            ErrorView,
        >(CommandHandling::Continue),
        command_at(p.at.past_spaces(), p.context, reason).context.commands == p.context.commands,
        p.context.commands.len() < usize::MAX,
    ensures
        ({
            let after = command_at(p.at.past_spaces(), p.context, reason);
            let id = p.context.commands.len();
            let last = p.stack.last();
            step(p, reason) matches SequenceStep::More(q) && {
                let commands = q.context.commands;
                &&& q.at == after.at
                &&& q.context == ContextView { commands, ..after.context }
                &&& commands.len() == id + 1
                &&& commands[id as int] == after.cmd
                &&& forall|i: int|
                    0 <= i < id && last.tail != Some(i as usize) ==> #[trigger] commands[i]
                        == p.context.commands[i]
                &&& last.tail matches Some(t) ==> commands[t as int] == CommandView {
                    next: Some(id as usize),
                    ..p.context.commands[t as int]
                }
                &&& q.stack[p.stack.len() - 1] == CompileFrame {
                    head: if last.tail is Some {
                        last.head
                    } else {
                        Some(id as usize)
                    },
                    tail: Some(id as usize),
                    opener: last.opener,
                }
                &&& q.stack.take(p.stack.len() - 1) == p.stack.drop_last()
                &&& if after.cmd.code == '{' {
                    &&& q.stack.len() == p.stack.len() + 1
                    &&& q.stack.last() == CompileFrame {
                        head: None,
                        tail: None,
                        opener: Some(id as usize),
                    }
                } else {
                    q.stack.len() == p.stack.len()
                }
            }
        }),
{
    reveal(step);
    let after = command_at(p.at.past_spaces(), p.context, reason);
    if let SequenceStep::More(q) = step(p, reason) {
        assert(q.stack.take(p.stack.len() - 1) =~= p.stack.drop_last());
    }
}

/// A `}` closes the innermost block: its `{` leads to the first command in it.
pub proof fn law_block_is_closed(p: Progress, reason: Seq<char>)
    requires
        starts_command(p),
        p.stack.len() > 0,
        p.stack.last().opener matches Some(o) ==> o < p.context.commands.len(),
        command_at(p.at.past_spaces(), p.context, reason).result == Ok::<
            CommandHandling,
            ErrorView,
        >(CommandHandling::Return),
        command_at(p.at.past_spaces(), p.context, reason).context.commands == p.context.commands,
    ensures
        ({
            let after = command_at(p.at.past_spaces(), p.context, reason);
            let last = p.stack.last();
            step(p, reason) matches SequenceStep::More(q) && {
                let commands = q.context.commands;
                &&& q.at == after.at
                &&& q.context == ContextView { commands, ..after.context }
                &&& q.stack == p.stack.drop_last()
                &&& commands.len() == p.context.commands.len()
                &&& forall|i: int|
                    0 <= i < commands.len() && last.opener != Some(i as usize)
                        ==> #[trigger] commands[i] == p.context.commands[i]
                &&& last.opener matches Some(o) ==> commands[o as int] == CommandView {
                    data: DataView::BranchTarget(last.head),
                    ..p.context.commands[o as int]
                }
            }
        }),
{
    reveal(step);
}

/// A script starts with no command, and where it ends, its first command is that of the
/// outermost block.
pub proof fn law_first_command(at: Cursor, context: ContextView, reason: Seq<char>)
    ensures
        ({
            let start = sequence_start(at, context);
            &&& sequence_at(at, context, reason) == sequence_from(start, reason)
            &&& start.at == at && start.context == context && start.first
            &&& start.stack.len() == 1
            &&& start.stack[0] == CompileFrame { head: None, tail: None, opener: None }
        }),
        forall|p: Progress|
            #![trigger sequence_from(p, reason)]
            step(p, reason) matches SequenceStep::End(q) ==> q.stack.len() == 1 ==> {
                let out = sequence_from(p, reason);
                &&& out.result == Ok::<Option<usize>, ErrorView>(q.stack[0].head)
                &&& out.context == q.context
                &&& out.at == q.at
            },
        forall|p: Progress|
            #![trigger sequence_from(p, reason)]
            step(p, reason) matches SequenceStep::Wrong(_, e) ==> sequence_from(p, reason).result
                == Err::<Option<usize>, ErrorView>(e),
{
    reveal(sequence_at);
}

} // verus!
