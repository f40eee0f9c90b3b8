//! The letters of commands, what may follow them, and what stands before them.

use crate::command::{CommandView, ContextView, DataView, blank_command};
use crate::compiler::address::{range_at, with_addresses};
use crate::compiler::arguments::ending_at;
use crate::compiler::cursor::Cursor;
use crate::compiler::handling::CommandHandling;
use crate::compiler::sequence::command_at;
use crate::compiler::simple::{
    label_command, number_command, read_file_command, read_line_command, write_file_command,
};
use crate::compiler::substitute::{assembled, subst_command};
use crate::compiler::table::{CommandHandler, handle, verified_spec};
use crate::compiler::text::{execute_command, posix_text, text_command};
use crate::compiler::transliterate::trans_command;
use crate::compiler::version::version_command;
use crate::error_handling::ErrorView;
use crate::laws::writing::{
    all_blank, end_of, gave, is_white, lemma_bare, lemma_blanks, lemma_pieces, plain_command,
    rest_is, stands_at,
};
use vstd::prelude::*;

verus! {

/// Whether the letter is that of a command without an argument: one of `=dDgGhHnNpPx`, or,
/// outside POSIX mode, `z` or `F`.
pub open spec fn stands_alone(letter: u8, posix: bool) -> bool {
    ||| letter == 61 || letter == 100 || letter == 68 || letter == 103 || letter == 71
    ||| letter == 104 || letter == 72 || letter == 110 || letter == 78 || letter == 112
    ||| letter == 80 || letter == 120
    ||| !posix && (letter == 122 || letter == 70)
}

/// Whether the letter is that of a command with an argument: one of `:abceilqQrstwy`, or,
/// outside POSIX mode, `R`, `T`, `v` or `W`.
pub open spec fn takes_argument(letter: u8, posix: bool) -> bool {
    ||| letter == 58 || letter == 97 || letter == 98 || letter == 99 || letter == 101
    ||| letter == 105 || letter == 108 || letter == 113 || letter == 81 || letter == 114
    ||| letter == 115 || letter == 116 || letter == 119 || letter == 121
    ||| !posix && (letter == 82 || letter == 84 || letter == 118 || letter == 87)
}

/// Whether there is a command with this letter, `!`, `{` and `}` included.
pub open spec fn is_command(letter: u8, posix: bool) -> bool {
    ||| stands_alone(letter, posix)
    ||| takes_argument(letter, posix)
    ||| letter == 33 || letter == 123 || letter == 125
}

/// The number of addresses that the command takes at most: none for `:`, `}` and `v`, one for
/// `Q`, and, in POSIX mode, one for `=`, `a`, `i`, `q` and `r`; two for the others.
pub open spec fn most_addresses(letter: u8, posix: bool) -> int {
    if letter == 58 || letter == 125 || letter == 118 {
        0
    } else if letter == 81 || posix && (letter == 61 || letter == 97 || letter == 105 || letter
        == 113 || letter == 114) {
        1
    } else {
        2
    }
}

/// A command is refused if its letter is none, or if more addresses stand before it than it
/// takes. Any other command is compiled with its letter for code, unless a `!` stands there:
/// then the letter is the one behind it.
pub proof fn law_letters_and_addresses(at: Cursor, context: ContextView, reason: Seq<char>)
    requires
        0 <= at.line.pos <= at.line.text.len(),
    ensures
        ({
            let range = range_at(at, context, reason);
            let start = range.at.past_spaces();
            let after = command_at(at, context, reason);
            &&& range.result is Err ==> after.result is Err
            &&& start.eol() ==> after.result is Err
            &&& !is_command(start.byte(), context.options.posix) ==> after.result is Err
            &&& range.result matches Ok(n) ==> n > most_addresses(
                start.byte(),
                context.options.posix,
            ) ==> after.result is Err
            &&& after.result is Ok && start.byte() != 33 ==> after.cmd.code == start.byte() as char
            &&& after.result is Ok && start.byte() == 33 ==> {
                let behind = start.next().past_spaces();
                &&& !behind.eol()
                &&& is_command(behind.byte(), context.options.posix)
                &&& behind.byte() != 33
                &&& after.cmd.code == behind.byte() as char
                &&& range.result->Ok_0 <= most_addresses(behind.byte(), context.options.posix)
            }
        }),
{
    reveal(command_at);
    reveal(verified_spec);
    let range = range_at(at, context, reason);
    let start = range.at.past_spaces();
    if let Ok(n) = range.result {
        if let Ok(spec) = verified_spec(start, n, context.options.posix) {
            let cmd = CommandView {
                code: start.char(),
                ..with_addresses(blank_command(at.location()), range)
            };
            lemma_argument_keeps(spec.handler, start, cmd, context, reason);
            let first = handle(spec.handler, start, cmd, context, reason);
            if start.byte() == 33 {
                reveal(handle);
                if let Ok(second) = verified_spec(first.at, n, context.options.posix) {
                    lemma_argument_keeps(
                        second.handler,
                        first.at,
                        CommandView { code: first.at.char(), ..first.cmd },
                        first.context,
                        reason,
                    );
                }
            }
        }
    }
}

/// Whether the command is the given one, but for its argument and, if `!` is compiled, for what
/// it selects.
pub open spec fn keeps(after: CommandView, cmd: CommandView, handler: CommandHandler) -> bool {
    &&& after.code == cmd.code
    &&& after.addr1 == cmd.addr1
    &&& after.addr2 == cmd.addr2
    &&& after.location == cmd.location
    &&& after.next == cmd.next
    &&& handler != CommandHandler::Negation ==> after.non_select == cmd.non_select
}

/// `s` keeps the rest of the command.
proof fn lemma_subst_keeps(at: Cursor, cmd: CommandView, context: ContextView, reason: Seq<char>)
    ensures
        keeps(subst_command(at, cmd, context, reason).cmd, cmd, CommandHandler::Subst),
        subst_command(at, cmd, context, reason).result != Ok::<CommandHandling, ErrorView>(
            CommandHandling::GetNext,
        ),
{
    reveal(subst_command);
    reveal(assembled);
}

/// A command with text keeps the rest of the command.
proof fn lemma_text_keeps(at: Cursor, cmd: CommandView, context: ContextView)
    ensures
        keeps(text_command(at, cmd, context).cmd, cmd, CommandHandler::Text),
        text_command(at, cmd, context).result != Ok::<CommandHandling, ErrorView>(
            CommandHandling::GetNext,
        ),
{
    reveal(text_command);
    reveal(posix_text);
}

/// Compiling an argument keeps the code, the addresses and the place of the command. Only `!`
/// goes on with another letter.
pub proof fn lemma_argument_keeps(
    handler: CommandHandler,
    at: Cursor,
    cmd: CommandView,
    context: ContextView,
    reason: Seq<char>,
)
    ensures
        keeps(handle(handler, at, cmd, context, reason).cmd, cmd, handler),
        handler != CommandHandler::Negation ==> handle(handler, at, cmd, context, reason).result
            != Ok::<CommandHandling, ErrorView>(CommandHandling::GetNext),
{
    reveal(handle);
    match handler {
        CommandHandler::Label => {
            reveal(label_command);
        },
        CommandHandler::Number => {
            reveal(number_command);
        },
        CommandHandler::Execute => {
            reveal(execute_command);
        },
        CommandHandler::ReadFile => {
            reveal(read_file_command);
        },
        CommandHandler::ReadLine => {
            reveal(read_line_command);
        },
        CommandHandler::WriteFile => {
            reveal(write_file_command);
        },
        CommandHandler::Trans => {
            reveal(trans_command);
        },
        CommandHandler::Version => {
            reveal(version_command);
        },
        CommandHandler::Subst => {
            lemma_subst_keeps(at, cmd, context, reason);
        },
        CommandHandler::Text => {
            lemma_text_keeps(at, cmd, context);
        },
        _ => {},
    }
}

/// A command gets the addresses that stand before it, and points to the place where they start.
/// It is for the lines that they do not select if a `!` stands behind them, and only then.
pub proof fn law_addresses_and_negation(at: Cursor, context: ContextView, reason: Seq<char>)
    ensures
        ({
            let range = range_at(at, context, reason);
            let start = range.at.past_spaces();
            let after = command_at(at, context, reason);
            after.result is Ok ==> {
                &&& after.cmd.addr1 == range.addr1
                &&& after.cmd.addr2 == range.addr2
                &&& after.cmd.location == at.location()
                &&& after.cmd.next is None
                &&& after.cmd.non_select == (start.byte() == 33)
            }
        }),
{
    reveal(command_at);
    reveal(verified_spec);
    let range = range_at(at, context, reason);
    let start = range.at.past_spaces();
    if let Ok(n) = range.result {
        if let Ok(spec) = verified_spec(start, n, context.options.posix) {
            let cmd = CommandView {
                code: start.char(),
                ..with_addresses(blank_command(at.location()), range)
            };
            lemma_argument_keeps(spec.handler, start, cmd, context, reason);
            let first = handle(spec.handler, start, cmd, context, reason);
            if start.byte() == 33 {
                reveal(handle);
                if let Ok(second) = verified_spec(first.at, n, context.options.posix) {
                    lemma_argument_keeps(
                        second.handler,
                        first.at,
                        CommandView { code: first.at.char(), ..first.cmd },
                        first.context,
                        reason,
                    );
                }
            }
        }
    }
}

/// White space is skipped, all of it and nothing else.
pub proof fn law_white_space_is_skipped(at: Cursor)
    requires
        0 <= at.line.pos <= at.line.text.len(),
    ensures
        ({
            let end = at.past_spaces();
            &&& end.script == at.script
            &&& end.line.text == at.line.text
            &&& at.line.pos <= end.line.pos <= at.line.text.len()
            &&& forall|j: int|
                at.line.pos <= j < end.line.pos ==> is_white(#[trigger] at.line.text[j])
            &&& !end.eol() ==> !is_white(end.byte())
        }),
    decreases at.line.text.len() - at.line.pos,
{
    if !at.eol() && is_white(at.byte()) {
        law_white_space_is_skipped(at.next());
    }
}

/// A command ends at the end of the line, behind a `;`, or before a `}`; anything else is in
/// error.
pub proof fn law_ends_of_commands(at: Cursor, code: char)
    requires
        0 <= at.line.pos <= at.line.text.len(),
    ensures
        ({
            let ending = ending_at(at, code);
            if at.line.pos == at.line.text.len() || at.byte() == 125 {
                &&& ending.result is Ok
                &&& ending.at == at
            } else if at.byte() == 59 {
                &&& ending.result is Ok
                &&& ending.at == at.at_pos(at.line.pos + 1)
            } else {
                ending.result is Err
            }
        }),
{
}

/// A letter that stands alone is a command, up to the end of the line, to behind a `;` or to a
/// `}`, with blanks before those. Anything else behind it is in error.
pub proof fn law_letter_is_command(
    at: Cursor,
    letter: u8,
    gap: Seq<u8>,
    context: ContextView,
    reason: Seq<char>,
)
    requires
        stands_alone(letter, context.options.posix),
        all_blank(gap),
        stands_at(at.line.text, at.line.pos, seq![letter] + gap),
        at.line.pos + 1 + gap.len() < at.line.text.len() ==> !is_white(
            at.line.text[at.line.pos + 1 + gap.len()],
        ),
    ensures
        ({
            let behind = at.at_pos(at.line.pos + 1 + gap.len());
            let after = command_at(at, context, reason);
            let cmd = plain_command(letter as char, at.location(), DataView::Empty);
            if behind.eol() || behind.byte() == 125 {
                gave(after, behind, cmd, context)
            } else if behind.byte() == 59 {
                gave(after, behind.next(), cmd, context)
            } else {
                after.result is Err
            }
        }),
{
    let text = at.line.text;
    let pos = at.line.pos;
    lemma_pieces(text, pos, seq![letter], gap);
    assert(text[pos] == seq![letter][0]);
    lemma_blanks(text, pos + 1, gap);
    lemma_bare(at, context, reason, CommandHandler::Empty);
    reveal(handle);
}

/// `{` opens a block, one deeper than before, unless that is deeper than blocks may be nested.
pub proof fn law_block_opens(at: Cursor, context: ContextView, reason: Seq<char>)
    requires
        0 <= at.line.pos < at.line.text.len(),
        at.byte() == 123,
        context.parsed_block_nesting < usize::MAX,
    ensures
        ({
            let after = command_at(at, context, reason);
            if context.parsed_block_nesting < 5_000 {
                gave(
                    after,
                    at.next(),
                    plain_command('{', at.location(), DataView::BranchTarget(None)),
                    ContextView {
                        parsed_block_nesting: (context.parsed_block_nesting + 1) as usize,
                        ..context
                    },
                )
            } else {
                after.result is Err
            }
        }),
{
    lemma_bare(at, context, reason, CommandHandler::Block);
    reveal(handle);
}

/// `}` closes a block if one is open, and is in error if none is.
pub proof fn law_block_closes(
    at: Cursor,
    gap: Seq<u8>,
    context: ContextView,
    reason: Seq<char>,
)
    requires
        all_blank(gap),
        stands_at(at.line.text, at.line.pos, seq![125u8] + gap),
        at.line.pos + 1 + gap.len() < at.line.text.len() ==> !is_white(
            at.line.text[at.line.pos + 1 + gap.len()],
        ),
    ensures
        ({
            let behind = at.at_pos(at.line.pos + 1 + gap.len());
            let after = command_at(at, context, reason);
            let ends = behind.eol() || behind.byte() == 125 || behind.byte() == 59;
            if context.parsed_block_nesting > 0 && ends {
                &&& after.result == Ok::<CommandHandling, ErrorView>(CommandHandling::Return)
                &&& after.at == if behind.sees(';') {
                    behind.next()
                } else {
                    behind
                }
                &&& after.context == ContextView {
                    parsed_block_nesting: (context.parsed_block_nesting - 1) as usize,
                    ..context
                }
            } else {
                after.result is Err
            }
        }),
{
    let text = at.line.text;
    let pos = at.line.pos;
    lemma_pieces(text, pos, seq![125u8], gap);
    assert(text[pos] == seq![125u8][0]);
    lemma_blanks(text, pos + 1, gap);
    lemma_bare(at, context, reason, CommandHandler::EndGroup);
    reveal(handle);
}

/// `!` before a letter that stands alone: the command is for the lines that are not selected.
/// A second `!` is in error.
pub proof fn law_negation(
    at: Cursor,
    gap: Seq<u8>,
    letter: u8,
    context: ContextView,
    reason: Seq<char>,
)
    requires
        stands_alone(letter, context.options.posix) || letter == 33,
        all_blank(gap),
        rest_is(at, seq![33u8] + (gap + seq![letter])),
    ensures
        ({
            let after = command_at(at, context, reason);
            if letter == 33 {
                after.result is Err
            } else {
                gave(
                    after,
                    end_of(at),
                    CommandView {
                        non_select: true,
                        ..plain_command(letter as char, at.location(), DataView::Empty)
                    },
                    context,
                )
            }
        }),
{
    let text = at.line.text;
    let pos = at.line.pos;
    lemma_pieces(text, pos, seq![33u8], gap + seq![letter]);
    lemma_pieces(text, pos + 1, gap, seq![letter]);
    assert(text[pos] == seq![33u8][0]);
    assert(text[pos + 1 + gap.len()] == seq![letter][0]);
    lemma_blanks(text, pos + 1, gap);
    assert(at.past_spaces() == at);
    let end = end_of(at);
    assert(end.past_spaces() == end);
    reveal(command_at);
    reveal(verified_spec);
    reveal(handle);
}

} // verus!
