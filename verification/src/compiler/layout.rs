//! That the layout of a script is no matter: commands on one line, on several lines, or in
//! several scripts make up the same chain.

use crate::command::{AddressView, CommandView, ContextView, DataView};
use crate::compiler::address::{address_at, number_end, range_at};
use crate::compiler::cursor::Cursor;
use crate::compiler::handling::{CommandHandling, Handled};
use crate::compiler::regex::is_digit;
use crate::compiler::script_start;
use crate::compiler::sequence::{
    CompileFrame, Progress, SequenceOutcome, SequenceStep, command_at, empty_frame, sequence_at,
    sequence_from, step, with_command,
};
use crate::compiler::simple::{default_number, number_command};
use crate::compiler::table::{handle, verified_spec};
use crate::delimited_parser::digits_number;
use crate::error_handling::{ErrorView, LocationView};
use crate::script_line_provider::{
    Source, argument_name, lemma_line_end, line_end, numbered, rest_from, rest_within, texts_from,
};
use vstd::prelude::*;

verus! {

/// A simple command: its address, which is a decimal numeral or empty, and its letter.
pub struct Simple {
    /// The address.
    pub address: Seq<u8>,
    /// The letter.
    pub code: u8,
}

/// Whether the letter is that of a command that needs no argument.
pub open spec fn simple_code(code: u8) -> bool {
    let c = code as char;
    c == 'd' || c == 'D' || c == 'g' || c == 'G' || c == 'h' || c == 'H' || c == 'n' || c == 'N'
        || c == 'p' || c == 'P' || c == 'x' || c == '=' || c == 'l' || c == 'q'
}

/// The line that the numeral names.
pub open spec fn line_of(address: Seq<u8>) -> int {
    digits_number(address, 0, address.len() as int, 10)
}

/// Whether the command is a simple one, with a line from 1 on for its address if it has one.
pub open spec fn is_simple(cmd: Simple) -> bool {
    &&& simple_code(cmd.code)
    &&& forall|i: int| 0 <= i < cmd.address.len() ==> is_digit(#[trigger] cmd.address[i])
    &&& cmd.address.len() > 0 ==> 0 < line_of(cmd.address) <= usize::MAX
}

/// Whether all commands are simple ones.
pub open spec fn all_simple(cmds: Seq<Simple>) -> bool {
    forall|k: int| 0 <= k < cmds.len() ==> is_simple(#[trigger] cmds[k])
}

/// The text of the command.
pub open spec fn text_of(cmd: Simple) -> Seq<u8> {
    cmd.address.push(cmd.code)
}

/// The text of the commands on one line.
pub open spec fn joined(cmds: Seq<Simple>) -> Seq<u8>
    decreases cmds.len(),
{
    if cmds.len() == 0 {
        Seq::empty()
    } else if cmds.len() == 1 {
        text_of(cmds[0])
    } else {
        text_of(cmds[0]).push(';' as u8) + joined(cmds.drop_first())
    }
}

/// What the command is compiled into, but for its place in the script and what follows it.
pub open spec fn simple_command(
    cmd: Simple,
    location: LocationView,
    context: ContextView,
) -> CommandView {
    CommandView {
        code: cmd.code as char,
        non_select: false,
        addr1: if cmd.address.len() > 0 {
            Some(AddressView::Line(line_of(cmd.address) as usize))
        } else {
            None
        },
        addr2: None,
        location,
        next: None,
        data: if cmd.code as char == 'l' || cmd.code as char == 'q' {
            DataView::Number(default_number(cmd.code as char, context))
        } else {
            DataView::Empty
        },
    }
}

/// Whether the commands from `base` on are the chain of the given ones, in their order: each is
/// what it is compiled into, wherever it stands, and leads to the next.
pub open spec fn is_chain(
    commands: Seq<CommandView>,
    base: nat,
    cmds: Seq<Simple>,
    context: ContextView,
) -> bool {
    &&& commands.len() == base + cmds.len()
    &&& forall|i: int|
        base <= i < commands.len() ==> #[trigger] commands[i] == (CommandView {
            next: if i + 1 < commands.len() {
                Some((i + 1) as usize)
            } else {
                None
            },
            ..simple_command(cmds[i - base], commands[i].location, context)
        })
}

/// The first command of a chain.
pub open spec fn first_of(base: nat, cmds: Seq<Simple>) -> Option<usize> {
    if cmds.len() > 0 {
        Some(base as usize)
    } else {
        None
    }
}

/// The commands of several lines, in order.
pub open spec fn flattened(groups: Seq<Seq<Simple>>) -> Seq<Simple>
    decreases groups.len(),
{
    if groups.len() == 0 {
        Seq::empty()
    } else {
        groups[0] + flattened(groups.drop_first())
    }
}

/// Whether the lines to come hold the given commands, and nothing comes behind them.
pub open spec fn written(at: Cursor, groups: Seq<Seq<Simple>>) -> bool {
    &&& at.script.rest.failure is None
    &&& at.script.rest.lines.len() == groups.len()
    &&& forall|k: int|
        0 <= k < groups.len() ==> (#[trigger] at.script.rest.lines[k]).text == joined(groups[k])
}

/// Whether `text` from `pos` on starts with the command, which ends there or at a `;`.
spec fn stands_at(text: Seq<u8>, pos: int, cmd: Simple) -> bool {
    let end = pos + cmd.address.len();
    &&& 0 <= pos
    &&& end < text.len()
    &&& forall|i: int| 0 <= i < cmd.address.len() ==> #[trigger] text[pos + i] == cmd.address[i]
    &&& text[end] == cmd.code
    &&& end + 1 < text.len() ==> text[end + 1] == ';' as u8
}

/// The position behind a command and the `;` behind it.
spec fn past_simple(text: Seq<u8>, pos: int, cmd: Simple) -> int {
    let end = pos + cmd.address.len() + 1;
    if end < text.len() {
        end + 1
    } else {
        end
    }
}

/// Digits that are the same make the same number.
proof fn lemma_same_line(text: Seq<u8>, pos: int, address: Seq<u8>, count: int)
    requires
        0 <= count <= address.len(),
        forall|i: int| 0 <= i < address.len() ==> #[trigger] text[pos + i] == address[i],
    ensures
        digits_number(text, pos, pos + count, 10) == digits_number(address, 0, count, 10),
    decreases count,
{
    if count > 0 {
        lemma_same_line(text, pos, address, count - 1);
        assert(text[pos + (count - 1)] == address[count - 1]);
    }
}

/// A number ends at the first byte that is no digit.
proof fn lemma_number_end(text: Seq<u8>, pos: int, end: int)
    requires
        0 <= pos <= end < text.len(),
        forall|i: int| pos <= i < end ==> is_digit(#[trigger] text[i]),
        !is_digit(text[end]),
    ensures
        number_end(text, pos) == end,
    decreases end - pos,
{
    if pos < end {
        assert(is_digit(text[pos]));
        lemma_number_end(text, pos + 1, end);
    }
}

/// What the addresses of a simple command give.
proof fn lemma_simple_range(at: Cursor, cmd: Simple, context: ContextView, reason: Seq<char>)
    requires
        is_simple(cmd),
        stands_at(at.line.text, at.line.pos, cmd),
    ensures
        ({
            let range = range_at(at, context, reason);
            let bare = simple_command(cmd, at.location(), context);
            &&& range.result == Ok::<usize, ErrorView>(
                if cmd.address.len() > 0 {
                    1
                } else {
                    0
                },
            )
            &&& range.at == at.at_pos(at.line.pos + cmd.address.len())
            &&& range.addr1 == bare.addr1
            &&& range.addr2 is None
        }),
{
    let text = at.line.text;
    let pos = at.line.pos;
    let end = pos + cmd.address.len();
    assert(at.past_spaces() == at) by {
        if cmd.address.len() > 0 {
            assert(text[pos + 0] == cmd.address[0]);
            assert(is_digit(cmd.address[0]));
        }
    }
    if cmd.address.len() > 0 {
        assert(text[pos + 0] == cmd.address[0]);
        assert(is_digit(cmd.address[0]));
        assert forall|i: int| pos <= i < end implies is_digit(#[trigger] text[i]) by {
            assert(text[pos + (i - pos)] == cmd.address[i - pos]);
        }
        lemma_number_end(text, pos, end);
        lemma_same_line(text, pos, cmd.address, cmd.address.len() as int);
        reveal(address_at);
        let behind = at.at_pos(end);
        assert(behind.past_spaces() == behind);
    }
}

/// What a simple command gives.
proof fn lemma_simple(at: Cursor, cmd: Simple, context: ContextView, reason: Seq<char>)
    requires
        is_simple(cmd),
        stands_at(at.line.text, at.line.pos, cmd),
    ensures
        command_at(at, context, reason) == (Handled {
            result: Ok(CommandHandling::Continue),
            at: at.at_pos(past_simple(at.line.text, at.line.pos, cmd)),
            cmd: simple_command(cmd, at.location(), context),
            context,
        }),
{
    reveal(command_at);
    reveal(verified_spec);
    reveal(handle);
    reveal(number_command);
    lemma_simple_range(at, cmd, context, reason);
    let code = at.at_pos(at.line.pos + cmd.address.len());
    assert(code.past_spaces() == code);
    assert(code.char() == cmd.code as char);
    let behind = code.next();
    assert(behind.past_spaces() == behind);
    let end = at.at_pos(past_simple(at.line.text, at.line.pos, cmd));
    assert(!behind.eol() ==> behind.next() == end);
    assert(behind.eol() ==> behind == end);
}

/// The commands of a line stand one behind the other.
proof fn lemma_joined(text: Seq<u8>, pos: int, cmds: Seq<Simple>)
    requires
        0 <= pos <= text.len(),
        text.skip(pos) == joined(cmds),
        cmds.len() > 0,
    ensures
        stands_at(text, pos, cmds[0]),
        pos < past_simple(text, pos, cmds[0]) <= text.len(),
        text.skip(past_simple(text, pos, cmds[0])) == joined(cmds.drop_first()),
{
    let cmd = cmds[0];
    let rest = text.skip(pos);
    let n = cmd.address.len() as int;
    assert(rest.len() >= n + 1);
    assert forall|i: int| 0 <= i < n implies #[trigger] text[pos + i] == cmd.address[i] by {
        assert(rest[i] == text[pos + i]);
    }
    assert(rest[n] == text[pos + n]);
    if cmds.len() == 1 {
        assert(cmds.drop_first() =~= Seq::empty());
        assert(text.skip(pos + n + 1) =~= Seq::empty());
    } else {
        assert(rest[n + 1] == text[pos + n + 1]);
        assert(text.skip(pos + n + 2) =~= rest.skip(n + 2));
        assert(rest.skip(n + 2) =~= joined(cmds.drop_first()));
    }
}

/// A chain with one more command behind it.
proof fn lemma_chain_grows(
    before: Seq<CommandView>,
    base: nat,
    cmds: Seq<Simple>,
    cmd: Simple,
    after: Handled,
    frame: CompileFrame,
    context: ContextView,
)
    requires
        is_chain(before, base, cmds, context),
        after.context.commands == before,
        after.cmd == simple_command(cmd, after.cmd.location, context),
        after.cmd.code != '{',
        before.len() < usize::MAX,
        frame.head == first_of(base, cmds),
        frame.tail == if cmds.len() > 0 {
            Some((base + cmds.len() - 1) as usize)
        } else {
            None
        },
    ensures
        ({
            let next = with_command(seq![frame], after);
            &&& is_chain(next.context.commands, base, cmds.push(cmd), context)
            &&& next.context.commands.take(base as int) == before.take(base as int)
            &&& next.stack == seq![
                CompileFrame {
                    head: first_of(base, cmds.push(cmd)),
                    tail: Some((base + cmds.len()) as usize),
                    ..frame
                },
            ]
        }),
{
    let next = with_command(seq![frame], after);
    let commands = next.context.commands;
    let grown = cmds.push(cmd);
    assert forall|i: int| base <= i < commands.len() implies #[trigger] commands[i] == (
    CommandView {
        next: if i + 1 < commands.len() {
            Some((i + 1) as usize)
        } else {
            None
        },
        ..simple_command(grown[i - base], commands[i].location, context)
    }) by {
        if i < before.len() {
            assert(before[i] == (CommandView {
                next: if i + 1 < before.len() {
                    Some((i + 1) as usize)
                } else {
                    None
                },
                ..simple_command(cmds[i - base], before[i].location, context)
            }));
        }
    }
    assert(commands.take(base as int) =~= before.take(base as int));
    assert(next.stack =~= seq![
        CompileFrame {
            head: first_of(base, grown),
            tail: Some((base + cmds.len()) as usize),
            ..frame
        },
    ]);
}

/// Whether two contexts differ at most in their commands.
pub open spec fn same_setting(a: ContextView, b: ContextView) -> bool {
    a == (ContextView { commands: a.commands, ..b })
}

/// What compiling lines of simple commands gives from some place on, when the commands `before`
/// were compiled and `current` are left on the line.
proof fn lemma_layout(
    p: Progress,
    base: nat,
    before: Seq<Simple>,
    current: Seq<Simple>,
    groups: Seq<Seq<Simple>>,
    given: ContextView,
    reason: Seq<char>,
)
    requires
        same_setting(p.context, given),
        is_chain(p.context.commands, base, before, given),
        p.context.commands.take(base as int) == given.commands,
        p.stack == seq![
            CompileFrame {
                head: first_of(base, before),
                tail: if before.len() > 0 {
                    Some((base + before.len() - 1) as usize)
                } else {
                    None
                },
                opener: None,
            },
        ],
        0 <= p.at.line.pos <= p.at.line.text.len(),
        p.at.line.text.skip(p.at.line.pos) == joined(current),
        written(p.at, groups),
        all_simple(current),
        forall|k: int| 0 <= k < groups.len() ==> all_simple(#[trigger] groups[k]),
        base + before.len() + current.len() + flattened(groups).len() <= usize::MAX,
    ensures
        ({
            let all = before + current + flattened(groups);
            let out = sequence_from(p, reason);
            &&& out.result == Ok::<Option<usize>, ErrorView>(first_of(base, all))
            &&& is_chain(out.context.commands, base, all, given)
            &&& out.context.commands.take(base as int) == given.commands
            &&& same_setting(out.context, given)
        }),
    decreases groups.len(), current.len(),
{
    let at = p.at;
    let text = at.line.text;
    let pos = at.line.pos;
    let frame = p.stack[0];
    let all = before + current + flattened(groups);
    assert(p.stack =~= seq![frame]);
    if current.len() > 0 {
        let cmd = current[0];
        assert(is_simple(cmd));
        lemma_joined(text, pos, current);
        lemma_simple(at, cmd, p.context, reason);
        let after = command_at(at, p.context, reason);
        let q = with_command(p.stack, after);
        assert(at.past_spaces() == at) by {
            if cmd.address.len() > 0 {
                assert(text[pos + 0] == cmd.address[0]);
                assert(is_digit(cmd.address[0]));
            }
        }
        assert(at.char() != '#' && at.char() != ';') by {
            if cmd.address.len() > 0 {
                assert(text[pos + 0] == cmd.address[0]);
                assert(is_digit(cmd.address[0]));
            }
        }
        assert(step(p, reason) == SequenceStep::More(q)) by {
            reveal(step);
        }
        lemma_chain_grows(p.context.commands, base, before, cmd, after, frame, given);
        let later = current.drop_first();
        assert forall|k: int| 0 <= k < later.len() implies is_simple(#[trigger] later[k]) by {
            assert(is_simple(current[k + 1]));
        }
        lemma_layout(q, base, before.push(cmd), later, groups, given, reason);
        assert(before.push(cmd) + later + flattened(groups) =~= all);
    } else {
        assert(text.skip(pos).len() == 0);
        assert(at.past_spaces() == at);
        let q = Progress { at: at.after_read(), first: at.script.number == 0, ..p };
        if groups.len() == 0 {
            assert(step(p, reason) == SequenceStep::End(q)) by {
                reveal(step);
            }
            assert(all =~= before);
        } else {
            assert(step(p, reason) == SequenceStep::More(q)) by {
                reveal(step);
            }
            let next = groups[0];
            let later = groups.drop_first();
            assert(at.script.rest.lines[0].text == joined(next));
            assert(q.at.line.text.skip(0) =~= joined(next));
            assert forall|k: int| 0 <= k < later.len() implies {
                &&& (#[trigger] q.at.script.rest.lines[k]).text == joined(later[k])
                &&& all_simple(later[k])
            } by {
                assert(at.script.rest.lines[k + 1].text == joined(groups[k + 1]));
                assert(all_simple(groups[k + 1]));
            }
            assert forall|k: int| 0 <= k < later.len() implies all_simple(#[trigger] later[k]) by {
                assert(all_simple(groups[k + 1]));
            }
            assert(all_simple(groups[0]));
            lemma_layout(q, base, before, next, later, given, reason);
            assert(before + next + flattened(later) =~= all);
        }
    }
}

/// What compiling simple commands gives in a context: their chain, behind the commands that it
/// holds. Nothing else changes.
pub open spec fn gives_chain(out: SequenceOutcome, cmds: Seq<Simple>, context: ContextView) -> bool {
    let base = context.commands.len();
    &&& out.result == Ok::<Option<usize>, ErrorView>(first_of(base, cmds))
    &&& is_chain(out.context.commands, base, cmds, context)
    &&& out.context.commands.take(base as int) == context.commands
    &&& same_setting(out.context, context)
}

/// However simple commands are laid out on lines, they make up one chain, in their order.
pub proof fn law_lines_make_chain(
    at: Cursor,
    groups: Seq<Seq<Simple>>,
    context: ContextView,
    reason: Seq<char>,
)
    requires
        at.line.text.len() == 0,
        at.line.pos == 0,
        written(at, groups),
        forall|k: int| 0 <= k < groups.len() ==> all_simple(#[trigger] groups[k]),
        context.commands.len() + flattened(groups).len() <= usize::MAX,
    ensures
        gives_chain(sequence_at(at, context, reason), flattened(groups), context),
{
    reveal(sequence_at);
    let base = context.commands.len();
    let p = Progress { at, context, stack: seq![empty_frame(None)], first: true };
    assert(at.line.text.skip(0) =~= joined(Seq::empty()));
    assert(context.commands.take(base as int) =~= context.commands);
    lemma_layout(p, base, Seq::empty(), Seq::empty(), groups, context, reason);
    assert(Seq::<Simple>::empty() + Seq::<Simple>::empty() + flattened(groups) =~= flattened(
        groups,
    ));
}

/// The commands as one script of one line.
pub open spec fn on_one_line(cmds: Seq<Simple>) -> Seq<Source> {
    seq![
        Source::Readable { name: argument_name(1), content: joined(cmds), failure: None },
    ]
}

/// The text of lines, the last of which has a line feed behind it only if `ended`.
pub open spec fn lines_text(texts: Seq<Seq<u8>>, ended: bool) -> Seq<u8>
    decreases texts.len(),
{
    if texts.len() == 0 {
        Seq::empty()
    } else if texts.len() == 1 && !ended {
        texts[0]
    } else {
        texts[0].push(10) + lines_text(texts.drop_first(), ended)
    }
}

/// The commands as one script, each on a line of its own.
pub open spec fn on_lines(cmds: Seq<Simple>, ended: bool) -> Seq<Source> {
    seq![
        Source::Readable {
            name: argument_name(1),
            content: lines_text(cmds.map_values(|cmd: Simple| text_of(cmd)), ended),
            failure: None,
        },
    ]
}

/// The commands as scripts of their own.
pub open spec fn in_scripts(cmds: Seq<Simple>) -> Seq<Source> {
    Seq::new(
        cmds.len(),
        |i: int|
            Source::Readable {
                name: argument_name((i + 1) as nat),
                content: text_of(cmds[i]),
                failure: None,
            },
    )
}

/// Simple commands make up the same chain on one line, on lines of their own, and in scripts of
/// their own: only their places differ.
pub proof fn law_layout_is_no_matter(cmds: Seq<Simple>, context: ContextView, reason: Seq<char>)
    requires
        cmds.len() > 0,
        all_simple(cmds),
        context.commands.len() + cmds.len() <= usize::MAX,
    ensures
        gives_chain(sequence_at(script_start(on_one_line(cmds)), context, reason), cmds, context),
        forall|ended: bool|
            gives_chain(
                sequence_at(script_start(#[trigger] on_lines(cmds, ended)), context, reason),
                cmds,
                context,
            ),
        gives_chain(sequence_at(script_start(in_scripts(cmds)), context, reason), cmds, context),
{
    lemma_one_line_written(cmds);
    let whole = seq![cmds];
    assert(whole.drop_first() =~= Seq::empty());
    assert(flattened(whole.drop_first()) =~= Seq::empty());
    assert(flattened(whole) =~= cmds);
    law_lines_make_chain(script_start(on_one_line(cmds)), whole, context, reason);
    let single = singles(cmds);
    lemma_singles(cmds);
    assert forall|k: int| 0 <= k < single.len() implies all_simple(#[trigger] single[k]) by {
        assert(is_simple(cmds[k]));
    }
    assert forall|ended: bool|
        gives_chain(
            sequence_at(script_start(#[trigger] on_lines(cmds, ended)), context, reason),
            cmds,
            context,
        ) by {
        lemma_lines_written(cmds, ended);
        law_lines_make_chain(script_start(on_lines(cmds, ended)), single, context, reason);
    }
    lemma_scripts_written(cmds);
    law_lines_make_chain(script_start(in_scripts(cmds)), single, context, reason);
}

/// The commands, each on a line of its own.
spec fn singles(cmds: Seq<Simple>) -> Seq<Seq<Simple>> {
    Seq::new(cmds.len(), |i: int| seq![cmds[i]])
}

/// Lines of one command each hold the commands in order.
proof fn lemma_singles(cmds: Seq<Simple>)
    ensures
        flattened(singles(cmds)) == cmds,
    decreases cmds.len(),
{
    if cmds.len() > 0 {
        lemma_singles(cmds.drop_first());
        assert(singles(cmds).drop_first() =~= singles(cmds.drop_first()));
        assert(seq![cmds[0]] + cmds.drop_first() =~= cmds);
    } else {
        assert(flattened(singles(cmds)) =~= cmds);
    }
}

/// Text without a line feed is one line.
proof fn lemma_one_text(text: Seq<u8>)
    requires
        text.len() > 0,
        !text.contains(10),
    ensures
        texts_from(text, 0, true) == seq![text],
{
    lemma_line_end(text, 0);
    let end = line_end(text, 0);
    if end < text.len() {
        assert(text.contains(text[end]));
    }
    assert(text.skip(0) =~= text);
}

/// The text of a command has no line feed.
proof fn lemma_text_of(cmd: Simple)
    requires
        is_simple(cmd),
    ensures
        !text_of(cmd).contains(10),
        text_of(cmd).len() > 0,
{
    let text = text_of(cmd);
    assert forall|i: int| 0 <= i < text.len() implies text[i] != 10 by {
        if i < cmd.address.len() {
            assert(is_digit(cmd.address[i]));
        }
    }
}

/// The text of commands on one line has no line feed.
proof fn lemma_joined_text(cmds: Seq<Simple>)
    requires
        all_simple(cmds),
        cmds.len() > 0,
    ensures
        !joined(cmds).contains(10),
        joined(cmds).len() > 0,
    decreases cmds.len(),
{
    assert(is_simple(cmds[0]));
    lemma_text_of(cmds[0]);
    if cmds.len() > 1 {
        let later = cmds.drop_first();
        assert forall|k: int| 0 <= k < later.len() implies is_simple(#[trigger] later[k]) by {
            assert(is_simple(cmds[k + 1]));
        }
        lemma_joined_text(later);
        let head = text_of(cmds[0]);
        assert forall|i: int| 0 <= i < joined(cmds).len() implies joined(cmds)[i] != 10 by {
            if i < head.len() {
                assert(head.contains(head[i]));
            } else if i > head.len() {
                assert(joined(later).contains(joined(later)[i - head.len() - 1]));
            }
        }
    }
}

/// A script of one line holds the commands on that line.
proof fn lemma_one_line_written(cmds: Seq<Simple>)
    requires
        all_simple(cmds),
        cmds.len() > 0,
    ensures
        written(script_start(on_one_line(cmds)), seq![cmds]),
{
    lemma_joined_text(cmds);
    lemma_one_text(joined(cmds));
    let sources = on_one_line(cmds);
    assert(rest_from(sources, 0, Seq::empty(), 0) == rest_within(sources, 0, 0, 0));
    let later = rest_from(sources, 1, argument_name(1), 1);
    assert(later.lines =~= Seq::empty());
}

/// The lines of a text are read as they are, from any of them on.
proof fn lemma_texts_back(before: Seq<u8>, texts: Seq<Seq<u8>>, ended: bool)
    requires
        forall|k: int|
            0 <= k < texts.len() ==> (#[trigger] texts[k]).len() > 0 && !texts[k].contains(10),
    ensures
        texts_from(before + lines_text(texts, ended), before.len() as int, true) == texts,
    decreases texts.len(),
{
    let content = before + lines_text(texts, ended);
    let from = before.len() as int;
    if texts.len() == 0 {
        assert(content =~= before);
        assert(texts =~= Seq::empty());
    } else {
        let line = texts[0];
        let later = texts.drop_first();
        let stop = from + line.len();
        assert(line.len() > 0 && !line.contains(10));
        lemma_line_end(content, from);
        let end = line_end(content, from);
        if end < stop {
            assert(line[end - from] == content[end]);
            assert(line.contains(line[end - from]));
        }
        if texts.len() == 1 && !ended {
            assert(content.skip(from) =~= line);
            assert(texts =~= seq![line]);
        } else {
            assert forall|k: int| 0 <= k < later.len() implies (#[trigger] later[k]).len() > 0
                && !later[k].contains(10) by {
                assert(texts[k + 1].len() > 0);
            }
            let passed = before + line.push(10);
            assert(content =~= passed + lines_text(later, ended));
            lemma_texts_back(passed, later, ended);
            assert(content[stop] == 10);
            assert(end == stop);
            assert(content.subrange(from, end) =~= line);
            assert(passed.len() == end + 1);
            assert(seq![line] + later =~= texts);
        }
    }
}

/// A script of several lines holds the commands on them.
proof fn lemma_lines_written(cmds: Seq<Simple>, ended: bool)
    requires
        all_simple(cmds),
    ensures
        written(script_start(on_lines(cmds, ended)), singles(cmds)),
{
    let texts = cmds.map_values(|cmd: Simple| text_of(cmd));
    assert forall|k: int| 0 <= k < texts.len() implies (#[trigger] texts[k]).len() > 0
        && !texts[k].contains(10) by {
        assert(is_simple(cmds[k]));
        lemma_text_of(cmds[k]);
    }
    let content = lines_text(texts, ended);
    lemma_texts_back(Seq::empty(), texts, ended);
    assert(Seq::<u8>::empty() + content =~= content);
    let sources = on_lines(cmds, ended);
    assert(rest_from(sources, 0, Seq::empty(), 0) == rest_within(sources, 0, 0, 0));
    let later = rest_from(sources, 1, argument_name(1), texts.len());
    assert(later.lines =~= Seq::empty());
    assert(numbered(argument_name(1), 0, texts) + later.lines =~= numbered(
        argument_name(1),
        0,
        texts,
    ));
}

/// Several scripts hold the commands on their lines.
proof fn lemma_scripts_written(cmds: Seq<Simple>)
    requires
        all_simple(cmds),
    ensures
        written(script_start(in_scripts(cmds)), singles(cmds)),
{
    lemma_scripts_from(cmds, 0, Seq::empty(), 0);
}

/// The same from some script on.
proof fn lemma_scripts_from(cmds: Seq<Simple>, i: int, name: Seq<char>, number: nat)
    requires
        all_simple(cmds),
        0 <= i <= cmds.len(),
    ensures
        ({
            let rest = rest_from(in_scripts(cmds), i, name, number);
            &&& rest.failure is None
            &&& rest.lines.len() == cmds.len() - i
            &&& forall|k: int|
                0 <= k < cmds.len() - i ==> (#[trigger] rest.lines[k]).text == joined(
                    singles(cmds)[i + k],
                )
        }),
    decreases cmds.len() - i,
{
    let sources = in_scripts(cmds);
    if i < cmds.len() {
        assert(is_simple(cmds[i]));
        lemma_text_of(cmds[i]);
        lemma_one_text(text_of(cmds[i]));
        let own = argument_name((i + 1) as nat);
        lemma_scripts_from(cmds, i + 1, own, 1);
        let later = rest_from(sources, i + 1, own, 1);
        let rest = rest_from(sources, i, name, number);
        assert(rest == rest_within(sources, i, 0, 0));
        assert forall|k: int| 0 <= k < cmds.len() - i implies (#[trigger] rest.lines[k]).text
            == joined(singles(cmds)[i + k]) by {
            if k > 0 {
                assert(rest.lines[k] == later.lines[k - 1]);
                assert(singles(cmds)[(i + 1) + (k - 1)] == singles(cmds)[i + k]);
            }
        }
    }
}

} // verus!
