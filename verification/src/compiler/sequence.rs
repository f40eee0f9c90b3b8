//! Compiling a script into a tree of commands.

use crate::command::{
    Command, CommandData, CommandView, ContextView, DataView, OptionsView, ProcessingContext, SubstitutionView,
    blank_command, commands_view,
};
use crate::compiler::address::{compile_address_range, range_at, with_addresses};
use crate::compiler::cursor::{
    Cursor, advance_line, ahead, beyond, cursor, in_words, viewed, words_of,
};
use crate::compiler::graph::{forward_at, forward_from};
use crate::compiler::handling::{CommandHandling, Handled, failed, handled};
use crate::compiler::limits::{
    all_allowed, allowed, lemma_range_allowed, posix_addresses, within_limits,
};
use crate::compiler::shape::{
    lemma_closed_tidy, lemma_command_tidy, lemma_one_tree, lemma_start_tidy, one_tree, tidy,
};
use crate::compiler::simple::{
    MAX_BLOCK_NESTING, empty_command, label_command, number_command, read_file_command, read_line_command,
    write_file_command,
};
use crate::compiler::substitute::{assembled, subst_argument, subst_command, with_flag_writer};
use crate::compiler::table::{
    CommandHandler, get_verified_cmd_spec, handle, run_handler, verified_spec,
};
use crate::compiler::text::{execute_command, posix_text, text_command};
use crate::compiler::transliterate::trans_command;
use crate::compiler::version::version_command;
use crate::error_handling::{ErrorView, SedResult, compilation_error};
use crate::script_char_provider::ScriptCharProvider;
use crate::script_line_provider::ScriptLineProvider;
use vstd::prelude::*;

verus! {

/// What the command at `at` gives, with its addresses, if `reason` are the words of the regular
/// expression engine should it refuse. Behind `!`, it is the command that the `!` stands before.
#[verifier::opaque]
pub open spec fn command_at(at: Cursor, context: ContextView, reason: Seq<char>) -> Handled {
    let range = range_at(at, context, reason);
    let addressed = with_addresses(blank_command(at.location()), range);
    let start = range.at.past_spaces();
    match range.result {
        Err(e) => failed(range.at, addressed, context, e),
        Ok(n_addr) => match verified_spec(start, n_addr, context.options.posix) {
            Err(e) => failed(start, addressed, context, e),
            Ok(spec) => {
                let first = handle(
                    spec.handler,
                    start,
                    CommandView { code: start.char(), ..addressed },
                    context,
                    reason,
                );
                if first.result == Ok::<CommandHandling, ErrorView>(CommandHandling::GetNext) {
                    negated_at(first, n_addr, reason)
                } else {
                    first
                }
            },
        },
    }
}

/// What the command behind a `!` gives, which was compiled into `negation`.
pub open spec fn negated_at(negation: Handled, n_addr: usize, reason: Seq<char>) -> Handled {
    match verified_spec(negation.at, n_addr, negation.context.options.posix) {
        Err(e) => failed(negation.at, negation.cmd, negation.context, e),
        Ok(spec) => {
            let second = handle(
                spec.handler,
                negation.at,
                CommandView { code: negation.at.char(), ..negation.cmd },
                negation.context,
                reason,
            );
            Handled {
                result: match second.result {
                    Ok(_) => Ok(CommandHandling::Continue),
                    Err(e) => Err(e),
                },
                ..second
            }
        },
    }
}

/// What compiling an ordinary command leaves as it was: the other commands, the depth of
/// blocks, and where the command leads to.
pub open spec fn ordinary(after: Handled, cmd: CommandView, context: ContextView) -> bool {
    &&& after.context.commands == context.commands
    &&& after.context.parsed_block_nesting == context.parsed_block_nesting
    &&& after.cmd.code == cmd.code
    &&& after.cmd.next == cmd.next
    &&& after.cmd.data == cmd.data || !(after.cmd.data is BranchTarget)
    &&& after.result is Err || after.result == Ok::<CommandHandling, ErrorView>(
        CommandHandling::Continue,
    )
}

/// A command with a label is an ordinary command.
proof fn lemma_label(at: Cursor, cmd: CommandView, context: ContextView)
    ensures
        ordinary(label_command(at, cmd, context), cmd, context),
{
    reveal(label_command);
}

/// A command with a number is an ordinary command.
proof fn lemma_number(at: Cursor, cmd: CommandView, context: ContextView)
    ensures
        ordinary(number_command(at, cmd, context), cmd, context),
{
    reveal(number_command);
}

/// `e` is an ordinary command.
proof fn lemma_execute(at: Cursor, cmd: CommandView, context: ContextView)
    ensures
        ordinary(execute_command(at, cmd, context), cmd, context),
{
    reveal(execute_command);
}

/// `r` is an ordinary command.
proof fn lemma_read_file(at: Cursor, cmd: CommandView, context: ContextView)
    ensures
        ordinary(read_file_command(at, cmd, context), cmd, context),
{
    reveal(read_file_command);
}

/// `R` is an ordinary command.
proof fn lemma_read_line(at: Cursor, cmd: CommandView, context: ContextView)
    ensures
        ordinary(read_line_command(at, cmd, context), cmd, context),
{
    reveal(read_line_command);
}

/// `w` is an ordinary command.
proof fn lemma_write_file(at: Cursor, cmd: CommandView, context: ContextView)
    ensures
        ordinary(write_file_command(at, cmd, context), cmd, context),
{
    reveal(write_file_command);
}

/// `y` is an ordinary command.
proof fn lemma_trans(at: Cursor, cmd: CommandView, context: ContextView)
    ensures
        ordinary(trans_command(at, cmd, context), cmd, context),
{
    reveal(trans_command);
}

/// `v` is an ordinary command.
proof fn lemma_version(at: Cursor, cmd: CommandView, context: ContextView)
    ensures
        ordinary(version_command(at, cmd, context), cmd, context),
{
    reveal(version_command);
}

/// A command with no argument is an ordinary command.
proof fn lemma_empty(at: Cursor, cmd: CommandView, context: ContextView)
    ensures
        ordinary(empty_command(at, cmd, context), cmd, context),
{
}

/// A command with text is an ordinary command.
proof fn lemma_text(at: Cursor, cmd: CommandView, context: ContextView)
    ensures
        ordinary(text_command(at, cmd, context), cmd, context),
{
    reveal(text_command);
    reveal(posix_text);
}

/// What is read of `s` makes an ordinary command.
proof fn lemma_assembled(
    at: Cursor,
    pattern: Seq<u8>,
    subst: SubstitutionView,
    cmd: CommandView,
    context: ContextView,
    reason: Seq<char>,
)
    ensures
        ordinary(assembled(at, pattern, subst, cmd, context, reason), cmd, context),
{
    reveal(assembled);
}

/// `s` is an ordinary command.
proof fn lemma_subst(at: Cursor, cmd: CommandView, context: ContextView, reason: Seq<char>)
    ensures
        ordinary(subst_command(at, cmd, context, reason), cmd, context),
{
    reveal(subst_command);
    let argument = subst_argument(at.next(), context);
    if let Ok(arg) = argument.result {
        lemma_assembled(
            argument.at,
            arg.pattern,
            arg.subst,
            cmd,
            with_flag_writer(context, arg.subst),
            reason,
        );
    }
}

/// Whether commands that are compiled in this way are ordinary ones.
pub open spec fn is_ordinary(handler: CommandHandler) -> bool {
    handler != CommandHandler::Negation && handler != CommandHandler::Block && handler
        != CommandHandler::EndGroup
}

/// All commands but `!`, `{` and `}` are ordinary ones.
proof fn lemma_ordinary(
    handler: CommandHandler,
    at: Cursor,
    cmd: CommandView,
    context: ContextView,
    reason: Seq<char>,
)
    requires
        is_ordinary(handler),
    ensures
        ordinary(handle(handler, at, cmd, context, reason), cmd, context),
{
    reveal(handle);
    lemma_empty(at, cmd, context);
    lemma_label(at, cmd, context);
    lemma_text(at, cmd, context);
    lemma_number(at, cmd, context);
    lemma_execute(at, cmd, context);
    lemma_read_file(at, cmd, context);
    lemma_read_line(at, cmd, context);
    lemma_subst(at, cmd, context, reason);
    lemma_write_file(at, cmd, context);
    lemma_trans(at, cmd, context);
    lemma_version(at, cmd, context);
}

/// What `!`, `{` and `}` leave as it was, and what they make of the depth of blocks.
proof fn lemma_structural(
    handler: CommandHandler,
    at: Cursor,
    cmd: CommandView,
    context: ContextView,
    reason: Seq<char>,
)
    requires
        !is_ordinary(handler),
        context.parsed_block_nesting < usize::MAX,
    ensures
        ({
            let after = handle(handler, at, cmd, context, reason);
            &&& after.context.commands == context.commands
            &&& after.cmd.code == cmd.code
            &&& after.cmd.next == cmd.next
            &&& after.cmd.data == cmd.data || handler == CommandHandler::Block && after.cmd.data
                == DataView::BranchTarget(None)
            &&& after.result is Ok ==> match handler {
                CommandHandler::Negation => {
                    &&& after.context.parsed_block_nesting == context.parsed_block_nesting
                    &&& after.result->Ok_0 == CommandHandling::GetNext
                },
                CommandHandler::Block => {
                    &&& after.context.parsed_block_nesting == context.parsed_block_nesting + 1
                    &&& after.context.parsed_block_nesting <= MAX_BLOCK_NESTING
                    &&& after.result->Ok_0 == CommandHandling::Continue
                },
                _ => {
                    &&& after.context.parsed_block_nesting == context.parsed_block_nesting - 1
                    &&& after.result->Ok_0 == CommandHandling::Return
                },
            }
        }),
{
    reveal(handle);
}

/// What compiling a command, with or without a `!` before it, leaves as it was, and what it
/// makes of the depth of blocks.
pub open spec fn command_effect(after: Handled, context: ContextView) -> bool {
    &&& after.context.commands == context.commands
    &&& after.cmd.next is None
    &&& !(after.cmd.data matches DataView::BranchTarget(Some(_)))
    &&& after.result is Ok ==> match after.result->Ok_0 {
        CommandHandling::Return => after.context.parsed_block_nesting
            == context.parsed_block_nesting - 1,
        CommandHandling::Continue => if after.cmd.code == '{' {
            &&& after.context.parsed_block_nesting == context.parsed_block_nesting + 1
            &&& after.context.parsed_block_nesting <= MAX_BLOCK_NESTING
        } else {
            after.context.parsed_block_nesting <= context.parsed_block_nesting
        },
        CommandHandling::GetNext => false,
    }
}

/// Compiles the command behind a `!`.
fn compile_negated(
    lines: &mut ScriptLineProvider,
    line: &mut ScriptCharProvider,
    cmd: &mut Command,
    context: &mut ProcessingContext,
    n_addr: usize,
) -> (result: SedResult<CommandHandling>)
    requires
        old(context)@.parsed_block_nesting < usize::MAX,
        old(cmd)@.next is None,
        old(cmd)@.data is Empty,
        old(context)@.options.posix ==> posix_addresses(old(cmd)@),
    ensures
        ({
            let before = Handled {
                result: Ok(CommandHandling::GetNext),
                at: cursor(old(lines), old(line)),
                cmd: old(cmd)@,
                context: old(context)@,
            };
            let after = handled(
                result,
                cursor(final(lines), final(line)),
                final(cmd),
                final(context),
            );
            &&& forall|reason: Seq<char>|
                in_words(result, reason) ==> after == #[trigger] negated_at(
                    before,
                    n_addr,
                    reason,
                )
            &&& command_effect(after, old(context)@)
            &&& within_limits(after, old(context)@)
            &&& after.result is Err || after.result->Ok_0 == CommandHandling::Continue
        }),
        ahead(cursor(old(lines), old(line)), cursor(final(lines), final(line))),
{
    let spec = match get_verified_cmd_spec(lines, line, n_addr, context.posix) {
        Ok(spec) => spec,
        Err(e) => {
            let _at_end = line.eol();
            return Err(e);
        },
    };
    cmd.code = line.current();
    let ghost start = cursor(lines, line);
    let ghost given = cmd@;
    let result = run_handler(spec.handler, lines, line, cmd, context);
    proof {
        let reason = words_of(result);
        if is_ordinary(spec.handler) {
            lemma_ordinary(spec.handler, start, given, old(context)@, reason);
        } else {
            lemma_structural(spec.handler, start, given, old(context)@, reason);
        }
    }
    match result {
        Ok(_) => Ok(CommandHandling::Continue),
        Err(e) => Err(e),
    }
}

/// Compiles the command at the current position with its addresses into `cmd`.
fn compile_command(
    lines: &mut ScriptLineProvider,
    line: &mut ScriptCharProvider,
    cmd: &mut Command,
    context: &mut ProcessingContext,
) -> (result: SedResult<CommandHandling>)
    requires
        old(cmd)@ == blank_command(cursor(old(lines), old(line)).location()),
        old(context)@.parsed_block_nesting < usize::MAX,
    ensures
        ({
            let after = handled(
                result,
                cursor(final(lines), final(line)),
                final(cmd),
                final(context),
            );
            &&& forall|reason: Seq<char>|
                in_words(result, reason) ==> after == #[trigger] command_at(
                    cursor(old(lines), old(line)),
                    old(context)@,
                    reason,
                )
            &&& command_effect(after, old(context)@)
            &&& within_limits(after, old(context)@)
        }),
        ahead(cursor(old(lines), old(line)), cursor(final(lines), final(line))),
        result is Ok ==> beyond(
            cursor(old(lines), old(line)),
            cursor(final(lines), final(line)),
        ),
{
    reveal(command_at);
    let range = compile_address_range(lines, line, cmd, context);
    assert(cmd@ == with_addresses(
        old(cmd)@,
        range_at(cursor(old(lines), old(line)), context@, words_of(range)),
    ));
    let n_addr = match range {
        Ok(n_addr) => n_addr,
        Err(e) => {
            return Err(e);
        },
    };
    line.eat_spaces();
    let spec = match get_verified_cmd_spec(lines, line, n_addr, context.posix) {
        Ok(spec) => spec,
        Err(e) => {
            return Err(e);
        },
    };
    // Compile the command according to its specification.
    cmd.code = line.current();
    proof {
        if context@.options.posix {
            lemma_range_allowed(
                cursor(old(lines), old(line)),
                old(cmd)@,
                context@,
                Seq::empty(),
            );
        }
    }
    let ghost start = cursor(lines, line);
    let ghost given = cmd@;
    let handling = run_handler(spec.handler, lines, line, cmd, context);
    proof {
        let reason = words_of(handling);
        if is_ordinary(spec.handler) {
            lemma_ordinary(spec.handler, start, given, old(context)@, reason);
        } else {
            lemma_structural(spec.handler, start, given, old(context)@, reason);
        }
    }
    match handling {
        Ok(CommandHandling::GetNext) => compile_negated(lines, line, cmd, context, n_addr),
        other => other,
    }
}

/// The commands of one block so far, or of the script.
#[derive(Debug, Clone, Copy)]
pub struct CompileFrame {
    /// The first one.
    pub head: Option<usize>,
    /// The last one.
    pub tail: Option<usize>,
    /// The `{` that opened the block.
    pub opener: Option<usize>,
}

/// A block without commands that `opener` opened.
pub open spec fn empty_frame(opener: Option<usize>) -> CompileFrame {
    CompileFrame { head: None, tail: None, opener }
}

/// The frame with the command `id` at its end.
pub open spec fn linked_frame(frame: CompileFrame, id: usize) -> CompileFrame {
    CompileFrame {
        head: if frame.tail is Some {
            frame.head
        } else {
            Some(id)
        },
        tail: Some(id),
        ..frame
    }
}

/// The commands once `id` follows the last one of the frame.
pub open spec fn linked_commands(
    frame: CompileFrame,
    commands: Seq<CommandView>,
    id: usize,
) -> Seq<CommandView> {
    match frame.tail {
        Some(t) => commands.update(
            t as int,
            CommandView { next: Some(id), ..commands[t as int] },
        ),
        None => commands,
    }
}

/// The commands once the `{` that opened the frame leads to its first one.
pub open spec fn closed(commands: Seq<CommandView>, frame: CompileFrame) -> Seq<CommandView> {
    match frame.opener {
        Some(o) => commands.update(
            o as int,
            CommandView { data: DataView::BranchTarget(frame.head), ..commands[o as int] },
        ),
        None => commands,
    }
}

/// The commands once all frames but the outermost are closed.
pub open spec fn collapsed(commands: Seq<CommandView>, stack: Seq<CompileFrame>) -> Seq<CommandView>
    decreases stack.len(),
{
    if stack.len() <= 1 {
        commands
    } else {
        collapsed(closed(commands, stack.last()), stack.drop_last())
    }
}

impl CompileFrame {
    /// Puts the command `id` at the end of the frame.
    pub fn link(&mut self, id: usize, commands: &mut Vec<Command>)
        requires
            old(self).tail matches Some(t) ==> t < old(commands).len(),
        ensures
            *final(self) == linked_frame(*old(self), id),
            commands_view(final(commands)@) == linked_commands(
                *old(self),
                commands_view(old(commands)@),
                id,
            ),
    {
        match self.tail {
            Some(t) => {
                commands[t].next = Some(id);
                assert(commands_view(commands@) =~= linked_commands(
                    *old(self),
                    commands_view(old(commands)@),
                    id,
                ));
            },
            None => {
                self.head = Some(id);
            },
        }
        self.tail = Some(id);
    }
}

/// Where compiling a script has got to.
pub struct Progress {
    /// The place in the script.
    pub at: Cursor,
    /// The context, with the commands so far.
    pub context: ContextView,
    /// The open blocks, from the outermost on; the first frame is the script itself.
    pub stack: Seq<CompileFrame>,
    /// Whether nothing of the script comes before the current line.
    pub first: bool,
}

/// What one step of compiling a script gives.
pub enum SequenceStep {
    /// The script goes on.
    More(Progress),
    /// The script is at its end.
    End(Progress),
    /// The script is in error.
    Wrong(Progress, ErrorView),
    /// There is no block left to go on in: the script closed them all, and itself.
    Stuck,
}

/// The place behind a comment that starts the script, as it can if nothing comes before the
/// current line. If it starts with `#n`, lines are not printed by default.
pub open spec fn past_first_comment(at: Cursor, context: ContextView, first: bool) -> (
    Cursor,
    ContextView,
) {
    if first && at.sees('#') && at.script.number == 1 && at.line.pos == 0 {
        (
            at.line_end(),
            if at.next().sees('n') {
                ContextView { quiet: true, ..context }
            } else {
                context
            },
        )
    } else {
        (at, context)
    }
}

/// The progress when the innermost block closes.
pub open spec fn with_closed(stack: Seq<CompileFrame>, after: Handled) -> Progress {
    Progress {
        at: after.at,
        context: ContextView {
            commands: closed(after.context.commands, stack.last()),
            ..after.context
        },
        stack: stack.drop_last(),
        first: false,
    }
}

/// The progress with one more command in the innermost block, which may open another one.
pub open spec fn with_command(stack: Seq<CompileFrame>, after: Handled) -> Progress {
    let id = after.context.commands.len() as usize;
    let frame = stack.last();
    let linked = stack.update(stack.len() - 1, linked_frame(frame, id));
    Progress {
        at: after.at,
        context: ContextView {
            commands: linked_commands(frame, after.context.commands.push(after.cmd), id),
            ..after.context
        },
        stack: if after.cmd.code == '{' {
            linked.push(empty_frame(Some(id)))
        } else {
            linked
        },
        first: false,
    }
}

/// What the next step gives: a new line, a separator skipped, or a command.
#[verifier::opaque]
pub open spec fn step(p: Progress, reason: Seq<char>) -> SequenceStep {
    let (at, context) = past_first_comment(p.at.past_spaces(), p.context, p.first);
    if at.eol() || at.char() == '#' {
        let read = Progress {
            at: at.after_read(),
            context,
            first: at.script.number == 0,
            ..p
        };
        match at.read() {
            Ok(Some(_)) => SequenceStep::More(read),
            Ok(None) => if p.stack.len() > 0 {
                SequenceStep::End(read)
            } else {
                SequenceStep::Stuck
            },
            Err(e) => SequenceStep::Wrong(read, e),
        }
    } else if at.char() == ';' {
        SequenceStep::More(Progress { at: at.next(), context, ..p })
    } else {
        let after = command_at(at, context, reason);
        match after.result {
            Err(e) => SequenceStep::Wrong(
                Progress { at: after.at, context: after.context, ..p },
                e,
            ),
            Ok(handling) => if handling == CommandHandling::Return {
                if p.stack.len() > 0 {
                    SequenceStep::More(with_closed(p.stack, after))
                } else {
                    SequenceStep::Wrong(
                        Progress { at: after.at, context: after.context, ..p },
                        after.at.error("unexpected `}'"@),
                    )
                }
            } else if p.stack.len() > 0 {
                SequenceStep::More(with_command(p.stack, after))
            } else {
                SequenceStep::Stuck
            },
        }
    }
}

/// What compiling a script gives: its first command or an error, the place reached, and the
/// context, with all its commands.
pub struct SequenceOutcome {
    /// The first command, or the error.
    pub result: Result<Option<usize>, ErrorView>,
    /// The place reached.
    pub at: Cursor,
    /// The context.
    pub context: ContextView,
}

/// What compiling the script from `p` on gives.
pub open spec fn sequence_from(p: Progress, reason: Seq<char>) -> SequenceOutcome
    decreases p.at.script.rest.lines.len(), p.at.line.text.len() - p.at.line.pos,
{
    match step(p, reason) {
        SequenceStep::More(q) => if beyond(p.at, q.at) {
            sequence_from(q, reason)
        } else {
            arbitrary()
        },
        SequenceStep::End(q) => SequenceOutcome {
            result: Ok(q.stack[0].head),
            at: q.at,
            context: ContextView {
                commands: collapsed(q.context.commands, q.stack),
                ..q.context
            },
        },
        SequenceStep::Wrong(q, e) => SequenceOutcome {
            result: Err(e),
            at: q.at,
            context: q.context,
        },
        SequenceStep::Stuck => arbitrary(),
    }
}

/// Whether compiling the script from `p` on comes to an end: it is never stuck.
pub open spec fn runs_from(p: Progress, reason: Seq<char>) -> bool
    decreases p.at.script.rest.lines.len(), p.at.line.text.len() - p.at.line.pos,
{
    match step(p, reason) {
        SequenceStep::More(q) => beyond(p.at, q.at) ==> runs_from(q, reason),
        SequenceStep::End(_) => true,
        SequenceStep::Wrong(_, _) => true,
        SequenceStep::Stuck => false,
    }
}

/// The same, whatever the words of the regular expression engine should it refuse.
pub open spec fn runs_on(p: Progress) -> bool {
    forall|reason: Seq<char>| #[trigger] runs_from(p, reason)
}

/// The progress before the script from `at` on.
pub open spec fn sequence_start(at: Cursor, context: ContextView) -> Progress {
    Progress { at, context, stack: seq![empty_frame(None)], first: true }
}

/// Whether the script from `at` on can be compiled in the context, be it with an error. It can
/// if the context has no open blocks. If it has, there may be more `}` than the script has `{`,
/// so that the script itself is closed; then an error has to come before the next command and
/// the end.
pub open spec fn can_run(at: Cursor, context: ContextView) -> bool {
    context.parsed_block_nesting == 0 || (context.parsed_block_nesting < usize::MAX && runs_on(
        sequence_start(at, context),
    ))
}

/// What compiling the script from `at` on gives, if `reason` are the words of the regular
/// expression engine should it refuse.
#[verifier::opaque]
pub open spec fn sequence_at(at: Cursor, context: ContextView, reason: Seq<char>) -> SequenceOutcome {
    sequence_from(sequence_start(at, context), reason)
}

/// Whether the frame holds commands from `base` on, the opening `{` before all others.
pub open spec fn frame_sound(frame: CompileFrame, len: nat, base: int) -> bool {
    &&& frame.opener matches Some(o) ==> base <= o < len
    &&& frame.tail matches Some(t) ==> base <= t < len
    &&& frame.head matches Some(h) ==> base <= h < len
    &&& frame.opener matches Some(o) ==> (frame.head matches Some(h) ==> o < h)
}

/// Whether commands lead only to later commands, and the frames hold such.
pub open spec fn sound(commands: Seq<CommandView>, stack: Seq<CompileFrame>, base: int) -> bool {
    &&& 0 <= base <= commands.len()
    &&& forward_from(commands, base)
    &&& forall|k: int| 0 <= k < stack.len() ==> frame_sound(#[trigger] stack[k], commands.len(), base)
}

/// Whether the commands are the earlier ones with others behind them.
pub open spec fn extends(commands: Seq<CommandView>, earlier: Seq<CommandView>) -> bool {
    &&& earlier.len() <= commands.len()
    &&& forall|i: int| 0 <= i < earlier.len() ==> #[trigger] commands[i] == earlier[i]
}

/// Closing a block keeps the structure sound.
proof fn lemma_closed_sound(commands: Seq<CommandView>, stack: Seq<CompileFrame>, base: int)
    requires
        stack.len() > 0,
        sound(commands, stack, base),
    ensures
        sound(closed(commands, stack.last()), stack.drop_last(), base),
        closed(commands, stack.last()).len() == commands.len(),
{
    let frame = stack.last();
    let after = closed(commands, frame);
    assert(frame_sound(stack[stack.len() - 1], commands.len(), base));
    assert forall|i: int| base <= i < after.len() implies #[trigger] forward_at(after, i) by {
        assert(forward_at(commands, i));
    }
    assert forall|k: int| 0 <= k < stack.drop_last().len() implies frame_sound(
        #[trigger] stack.drop_last()[k],
        after.len(),
        base,
    ) by {
        assert(frame_sound(stack[k], commands.len(), base));
    }
}

/// Adding a command keeps the structure sound.
proof fn lemma_command_sound(stack: Seq<CompileFrame>, after: Handled, base: int)
    requires
        stack.len() > 0,
        sound(after.context.commands, stack, base),
        after.context.commands.len() < usize::MAX,
        after.cmd.next is None,
        !(after.cmd.data matches DataView::BranchTarget(Some(_))),
    ensures
        sound(
            with_command(stack, after).context.commands,
            with_command(stack, after).stack,
            base,
        ),
        with_command(stack, after).context.commands.len() == after.context.commands.len() + 1,
{
    let commands = after.context.commands;
    let id = commands.len() as usize;
    let frame = stack.last();
    let pushed = commands.push(after.cmd);
    let linked = linked_commands(frame, pushed, id);
    let next = with_command(stack, after).stack;
    assert(frame_sound(stack[stack.len() - 1], commands.len(), base));
    assert forall|i: int| base <= i < linked.len() implies #[trigger] forward_at(linked, i) by {
        if i < commands.len() {
            assert(forward_at(commands, i));
        }
    }
    assert forall|k: int| 0 <= k < next.len() implies frame_sound(
        #[trigger] next[k],
        linked.len(),
        base,
    ) by {
        if k < stack.len() {
            assert(frame_sound(stack[k], commands.len(), base));
        }
    }
}

/// Closing a block leaves allowed commands allowed.
proof fn lemma_closed_allowed(
    commands: Seq<CommandView>,
    stack: Seq<CompileFrame>,
    base: int,
    options: OptionsView,
)
    requires
        stack.len() > 0,
        sound(commands, stack, base),
        all_allowed(commands, base, options),
    ensures
        all_allowed(closed(commands, stack.last()), base, options),
{
    let after = closed(commands, stack.last());
    assert(frame_sound(stack[stack.len() - 1], commands.len(), base));
    assert forall|i: int| base <= i < after.len() implies allowed(#[trigger] after[i], options) by {
        assert(allowed(commands[i], options));
    }
}

/// Adding an allowed command to allowed ones leaves them allowed.
proof fn lemma_command_allowed(
    stack: Seq<CompileFrame>,
    after: Handled,
    base: int,
    options: OptionsView,
)
    requires
        stack.len() > 0,
        sound(after.context.commands, stack, base),
        all_allowed(after.context.commands, base, options),
        allowed(after.cmd, options),
    ensures
        all_allowed(with_command(stack, after).context.commands, base, options),
{
    let before = after.context.commands;
    let commands = with_command(stack, after).context.commands;
    assert(frame_sound(stack[stack.len() - 1], before.len(), base));
    assert forall|i: int| base <= i < commands.len() implies allowed(
        #[trigger] commands[i],
        options,
    ) by {
        if i < before.len() {
            assert(allowed(before[i], options));
        }
    }
}

/// Moves past a comment that starts the script. According to POSIX, if the first two
/// characters of the script are `#n`, lines are not printed by default.
fn skip_first_comment(
    lines: &ScriptLineProvider,
    line: &mut ScriptCharProvider,
    context: &mut ProcessingContext,
    first: bool,
)
    ensures
        ({
            let (at, after) = past_first_comment(cursor(lines, old(line)), old(context)@, first);
            &&& cursor(lines, final(line)) == at
            &&& final(context)@ == after
        }),
        ahead(cursor(lines, old(line)), cursor(lines, final(line))),
{
    if line.eol() || !first || line.current() != '#' || lines.get_line_number() != 1
        || line.get_pos() != 0 {
        return ;
    }
    line.advance();
    if !line.eol() && line.current() == 'n' {
        context.suppress_output();
    }
    // Ignore rest of line
    let ghost here = line@;
    while !line.eol()
        invariant
            line@.text == here.text,
            here.pos <= line@.pos <= line@.text.len(),
        decreases line@.text.len() - line@.pos,
    {
        line.advance();
    }
}

/// Closes the innermost block: the `{` that opened it leads to its first command.
fn close_block(stack: &mut Vec<CompileFrame>, context: &mut ProcessingContext)
    requires
        old(stack).len() > 0,
        old(stack)@.last().opener matches Some(o) ==> o < old(context)@.commands.len(),
    ensures
        final(stack)@ == old(stack)@.drop_last(),
        final(context)@ == (ContextView {
            commands: closed(old(context)@.commands, old(stack)@.last()),
            ..old(context)@
        }),
{
    if let Some(finished) = stack.pop() {
        if let Some(o) = finished.opener {
            context.commands[o].data = CommandData::BranchTarget(finished.head);
            assert(context@.commands =~= closed(old(context)@.commands, old(stack)@.last()));
        }
    }
}

/// Closes all open blocks.
fn close_all(stack: &mut Vec<CompileFrame>, context: &mut ProcessingContext, Ghost(base): Ghost<int>)
    requires
        old(stack).len() > 0,
        sound(old(context)@.commands, old(stack)@, base),
        tidy(old(context)@.commands, old(stack)@, base),
    ensures
        final(stack)@ == old(stack)@.take(1),
        forall|i: int|
            0 <= i < base ==> #[trigger] final(context)@.commands[i] == old(context)@.commands[i],
        final(context)@ == (ContextView {
            commands: collapsed(old(context)@.commands, old(stack)@),
            ..old(context)@
        }),
        sound(final(context)@.commands, final(stack)@, base),
        tidy(final(context)@.commands, final(stack)@, base),
        all_allowed(old(context)@.commands, base, old(context)@.options) ==> all_allowed(
            final(context)@.commands,
            base,
            old(context)@.options,
        ),
{
    let ghost spec = collapsed(context@.commands, stack@);
    assert(old(stack)@.take(stack.len() as int) =~= old(stack)@);
    while stack.len() > 1
        invariant
            stack.len() > 0,
            stack.len() <= old(stack).len(),
            stack@ == old(stack)@.take(stack.len() as int),
            spec == collapsed(context@.commands, stack@),
            spec == collapsed(old(context)@.commands, old(stack)@),
            context@ == (ContextView { commands: context@.commands, ..old(context)@ }),
            sound(context@.commands, stack@, base),
            tidy(context@.commands, stack@, base),
            forall|i: int|
                0 <= i < base ==> #[trigger] context@.commands[i] == old(context)@.commands[i],
            all_allowed(old(context)@.commands, base, old(context)@.options) ==> all_allowed(
                context@.commands,
                base,
                old(context)@.options,
            ),
        decreases stack.len(),
    {
        proof {
            if all_allowed(context@.commands, base, context@.options) {
                lemma_closed_allowed(context@.commands, stack@, base, context@.options);
            }
            lemma_closed_tidy(context@.commands, stack@, base);
            lemma_closed_sound(context@.commands, stack@, base);
            assert(frame_sound(stack@[stack.len() - 1], context@.commands.len(), base));
        }
        close_block(stack, context);
        assert(stack@ =~= old(stack)@.take(stack.len() as int));
    }
}

/// Adds a command to the innermost block. It may open another one.
fn append_command(
    stack: &mut Vec<CompileFrame>,
    context: &mut ProcessingContext,
    cmd: Command,
    Ghost(after): Ghost<Handled>,
)
    requires
        old(stack).len() > 0,
        old(stack)@.last().tail matches Some(t) ==> t < old(context)@.commands.len(),
        after.cmd == cmd@,
        after.context == old(context)@,
    ensures
        final(stack)@ == with_command(old(stack)@, after).stack,
        final(context)@ == with_command(old(stack)@, after).context,
        old(context)@.commands.len() < usize::MAX,
{
    let id: usize = context.commands.len();
    let opens_block = cmd.code == '{';
    context.commands.push(cmd);
    assert(context.commands.len() <= usize::MAX);
    assert(context@.commands =~= old(context)@.commands.push(cmd@));
    let last: usize = stack.len() - 1;
    let mut frame = stack[last];
    frame.link(id, &mut context.commands);
    stack.set(last, frame);
    if opens_block {
        stack.push(CompileFrame { head: None, tail: None, opener: Some(id) });
    }
}

/// A step that leads on, whatever the words of the engine, is one on the way to what the script
/// gives.
proof fn lemma_step_taken(at: Cursor, context: ContextView, p: Progress, q: Progress)
    requires
        forall|reason: Seq<char>| #[trigger]
            sequence_at(at, context, reason) == sequence_from(p, reason),
        forall|reason: Seq<char>| #[trigger] step(p, reason) == SequenceStep::More(q),
        beyond(p.at, q.at),
    ensures
        forall|reason: Seq<char>| #[trigger]
            sequence_at(at, context, reason) == sequence_from(q, reason),
        runs_on(p) ==> runs_on(q),
{
    assert forall|reason: Seq<char>| #[trigger]
        sequence_at(at, context, reason) == sequence_from(q, reason) by {
        assert(step(p, reason) == SequenceStep::More(q));
    }
    if runs_on(p) {
        assert forall|reason: Seq<char>| #[trigger] runs_from(q, reason) by {
            assert(runs_from(p, reason));
            assert(step(p, reason) == SequenceStep::More(q));
        }
    }
}

/// A script that runs is not stuck.
proof fn lemma_not_stuck(p: Progress, reason: Seq<char>)
    requires
        runs_on(p),
    ensures
        step(p, reason) != SequenceStep::Stuck,
{
    assert(runs_from(p, reason));
}

/// Compiles the script from the current position on. Blocks are kept on a stack, so nesting
/// is no matter of recursion.
#[verifier::rlimit(60)]
pub fn compile_sequence(
    lines: &mut ScriptLineProvider,
    line: &mut ScriptCharProvider,
    context: &mut ProcessingContext,
) -> (result: SedResult<Option<usize>>)
    requires
        can_run(cursor(old(lines), old(line)), old(context)@),
    ensures
        forall|reason: Seq<char>|
            in_words(result, reason) ==> {
                let spec = #[trigger] sequence_at(
                    cursor(old(lines), old(line)),
                    old(context)@,
                    reason,
                );
                &&& viewed(result) == spec.result
                &&& cursor(final(lines), final(line)) == spec.at
                &&& final(context)@ == spec.context
            },
        result matches Ok(Some(head)) ==> old(context)@.commands.len() <= head
            < final(context)@.commands.len(),
        result matches Ok(head) ==> one_tree(
            final(context)@.commands,
            head,
            old(context)@.commands.len() as int,
        ),
        final(context)@.options == old(context)@.options,
        final(context)@.labels == old(context)@.labels,
        result is Ok ==> all_allowed(
            final(context)@.commands,
            old(context)@.commands.len() as int,
            old(context)@.options,
        ),
        old(context)@.options.sandbox ==> final(context)@.writers == old(context)@.writers,
        result is Ok ==> extends(final(context)@.commands, old(context)@.commands),
{
    let ghost base = context@.commands.len() as int;
    let mut stack: Vec<CompileFrame> = Vec::new();
    stack.push(CompileFrame { head: None, tail: None, opener: None });
    assert(stack@ =~= seq![empty_frame(None)]);
    assert(forward_from(context@.commands, base));
    assert forall|k: int| 0 <= k < stack@.len() implies frame_sound(
        #[trigger] stack@[k],
        context@.commands.len(),
        base,
    ) by {
        assert(stack@[k] == empty_frame(None));
    }
    proof {
        lemma_start_tidy(context@.commands, stack@);
    }
    let mut first = true;
    assert forall|reason: Seq<char>| #[trigger]
        sequence_at(cursor(lines, line), context@, reason) == sequence_from(
            Progress { at: cursor(lines, line), context: context@, stack: stack@, first },
            reason,
        ) by {
        reveal(sequence_at);
    }
    loop
        invariant
            forall|reason: Seq<char>| #[trigger]
                sequence_at(cursor(old(lines), old(line)), old(context)@, reason)
                    == sequence_from(
                    Progress { at: cursor(lines, line), context: context@, stack: stack@, first },
                    reason,
                ),
            context@.parsed_block_nesting < usize::MAX,
            context@.parsed_block_nesting < stack.len() || runs_on(
                Progress { at: cursor(lines, line), context: context@, stack: stack@, first },
            ),
            stack.len() > 0 ==> {
                &&& sound(context@.commands, stack@, base)
                &&& tidy(context@.commands, stack@, base)
                &&& extends(context@.commands, old(context)@.commands)
                &&& all_allowed(context@.commands, base, context@.options)
            },
            base == old(context)@.commands.len(),
            context@.options == old(context)@.options,
            context@.labels == old(context)@.labels,
            context@.options.sandbox ==> context@.writers == old(context)@.writers,
        decreases lines@.rest.lines.len(), line@.text.len() - line@.pos,
    {
        let ghost begin = cursor(old(lines), old(line));
        let ghost given = old(context)@;
        let ghost p = Progress {
            at: cursor(lines, line),
            context: context@,
            stack: stack@,
            first,
        };
        line.eat_spaces();
        skip_first_comment(lines, line, context, first);
        let ghost start = cursor(lines, line);
        let ghost opened = context@;
        if line.eol() || line.current() == '#' {
            // Empty lines and comments
            first = lines.get_line_number() == 0;
            match advance_line(lines, line) {
                Ok(true) => {
                    proof {
                        let q = Progress { at: start.after_read(), context: opened, first, ..p };
                        assert forall|reason: Seq<char>| #[trigger]
                            step(p, reason) == SequenceStep::More(q) by {
                            reveal(step);
                        }
                        lemma_step_taken(begin, given, p, q);
                    }
                },
                Ok(false) => {
                    proof {
                        let q = Progress { at: start.after_read(), context: opened, first, ..p };
                        if stack.len() == 0 {
                            lemma_not_stuck(p, Seq::empty());
                            reveal(step);
                        }
                        assert forall|reason: Seq<char>| #[trigger]
                            step(p, reason) == SequenceStep::End(q) by {
                            reveal(step);
                        }
                    }
                    close_all(&mut stack, context, Ghost(base));
                    assert(context@.commands.len() == context.commands.len());
                    proof {
                        lemma_one_tree(context@.commands, stack@, base);
                        assert forall|reason: Seq<char>| true implies {
                            let spec = #[trigger] sequence_at(begin, given, reason);
                            &&& spec.result == Ok::<Option<usize>, ErrorView>(stack@[0].head)
                            &&& spec.at == start.after_read()
                            &&& spec.context == context@
                        } by {
                            let end = step(p, reason);
                        }
                    }
                    assert(frame_sound(stack@[0], context@.commands.len(), base));
                    return Ok(stack[0].head);
                },
                Err(e) => {
                    proof {
                        let q = Progress { at: start.after_read(), context: opened, first, ..p };
                        assert forall|reason: Seq<char>| #[trigger]
                            step(p, reason) == SequenceStep::Wrong(q, e@) by {
                            reveal(step);
                        }
                        assert forall|reason: Seq<char>| true implies {
                            let spec = #[trigger] sequence_at(begin, given, reason);
                            &&& spec.result == Err::<Option<usize>, ErrorView>(e@)
                            &&& spec.at == start.after_read()
                            &&& spec.context == opened
                        } by {
                            let end = step(p, reason);
                        }
                    }
                    return Err(e);
                },
            }
            continue ;
        }
        if line.current() == ';' {
            line.advance();
            proof {
                let q = Progress { at: start.next(), context: opened, ..p };
                assert forall|reason: Seq<char>| #[trigger]
                    step(p, reason) == SequenceStep::More(q) by {
                    reveal(step);
                }
                lemma_step_taken(begin, given, p, q);
            }
            continue ;
        }
        let mut cmd = Command::at_position(lines, line);
        let handling = compile_command(lines, line, &mut cmd, context);
        let ghost after = handled(handling, cursor(lines, line), &cmd, context);
        match handling {
            Err(e) => {
                proof {
                    let q = Progress { at: after.at, context: after.context, ..p };
                    assert forall|reason: Seq<char>| in_words(handling, reason) implies {
                        let spec = #[trigger] sequence_at(begin, given, reason);
                        &&& spec.result == Err::<Option<usize>, ErrorView>(e@)
                        &&& spec.at == after.at
                        &&& spec.context == after.context
                    } by {
                        assert(command_at(start, opened, reason) == after);
                        assert(step(p, reason) == SequenceStep::Wrong(q, e@)) by {
                            reveal(step);
                        }
                    }
                }
                return Err(e);
            },
            Ok(CommandHandling::Return) => {
                // `}`: close the innermost frame and resume filling its parent. The `}`
                // command itself is never linked into any list (it carries no data).
                if stack.len() == 0 {
                    let result: SedResult<Option<usize>> = compilation_error(
                        lines,
                        line,
                        "unexpected `}'",
                    );
                    proof {
                        let q = Progress { at: after.at, context: after.context, ..p };
                        let e = after.at.error("unexpected `}'"@);
                        assert forall|reason: Seq<char>| true implies {
                            let spec = #[trigger] sequence_at(begin, given, reason);
                            &&& spec.result == Err::<Option<usize>, ErrorView>(e)
                            &&& spec.at == after.at
                            &&& spec.context == after.context
                        } by {
                            assert(command_at(start, opened, reason) == after);
                            assert(step(p, reason) == SequenceStep::Wrong(q, e)) by {
                                reveal(step);
                            }
                        }
                    }
                    return result;
                }
                proof {
                    assert(frame_sound(stack@[stack.len() - 1], context@.commands.len(), base));
                    if stack.len() > 1 {
                        lemma_closed_tidy(context@.commands, stack@, base);
                        lemma_closed_sound(context@.commands, stack@, base);
                        lemma_closed_allowed(context@.commands, stack@, base, context@.options);
                    }
                    let q = with_closed(p.stack, after);
                    assert forall|reason: Seq<char>| #[trigger]
                        step(p, reason) == SequenceStep::More(q) by {
                        assert(command_at(start, opened, reason) == after);
                        reveal(step);
                    }
                    lemma_step_taken(begin, given, p, q);
                }
                close_block(&mut stack, context);
            },
            Ok(_) => {
                proof {
                    if stack.len() == 0 {
                        assert(command_at(start, opened, Seq::empty()) == after);
                        lemma_not_stuck(p, Seq::empty());
                        reveal(step);
                    }
                    assert(frame_sound(stack@[stack.len() - 1], context@.commands.len(), base));
                    let q = with_command(p.stack, after);
                    assert forall|reason: Seq<char>| #[trigger]
                        step(p, reason) == SequenceStep::More(q) by {
                        assert(command_at(start, opened, reason) == after);
                        reveal(step);
                    }
                    lemma_step_taken(begin, given, p, q);
                }
                append_command(&mut stack, context, cmd, Ghost(after));
                proof {
                    lemma_command_tidy(p.stack, after, base);
                    lemma_command_sound(p.stack, after, base);
                    lemma_command_allowed(p.stack, after, base, context@.options);
                }
            },
        }
        first = false;
    }
}

} // verus!
