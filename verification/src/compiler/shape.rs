//! That the commands of a script form one tree while they are compiled.

use crate::command::{CommandView, DataView};
use crate::compiler::blocks::{leads, unshared, within};
use crate::compiler::graph::{ahead_of, block, following, forward_at, forward_from, inner};
use crate::compiler::handling::Handled;
use crate::compiler::sequence::{
    CompileFrame, closed, frame_sound, linked_commands, sound, with_command,
};
use vstd::prelude::*;

verus! {

/// Whether a command from `base` on leads to the one at `x`.
pub open spec fn is_led(commands: Seq<CommandView>, x: usize, base: int) -> bool {
    exists|i: usize| base <= i < commands.len() && #[trigger] leads(commands, i, x)
}

/// Whether the command at `o` is a `{` whose block is not known yet.
pub open spec fn opens(commands: Seq<CommandView>, o: usize) -> bool {
    &&& commands[o as int].code == '{'
    &&& !(commands[o as int].data matches DataView::BranchTarget(Some(_)))
}

/// Whether the frame is either empty or runs from a command that none leads to, to one that
/// nothing follows.
pub open spec fn frame_tidy(commands: Seq<CommandView>, frame: CompileFrame, base: int) -> bool {
    match (frame.head, frame.tail) {
        (Some(h), Some(t)) => {
            &&& h <= t
            &&& commands[t as int].next is None
            &&& !is_led(commands, h, base)
        },
        (None, None) => true,
        _ => false,
    }
}

/// Whether the second frame is that of the block which the last command of the first opens.
pub open spec fn opened_from(commands: Seq<CommandView>, outer: CompileFrame, frame: CompileFrame) -> bool {
    frame.opener matches Some(o) && outer.tail == Some(o) && opens(commands, o)
}

/// Whether the second frame holds only commands behind those of the first.
pub open spec fn frame_behind(outer: CompileFrame, frame: CompileFrame) -> bool {
    outer.tail matches Some(t) ==> (frame.head matches Some(h) ==> t < h)
}

/// Whether the command at `x` is the first of a frame.
pub open spec fn heads_frame(stack: Seq<CompileFrame>, x: usize) -> bool {
    exists|k: int| 0 <= k < stack.len() && (#[trigger] stack[k]).head == Some(x)
}

/// Whether among the commands from `base` on only `{` leads to a block.
pub open spec fn blocks_only(commands: Seq<CommandView>, base: int) -> bool {
    forall|i: usize|
        base <= i < commands.len() ==> #[trigger] inner(commands, i) == block(commands, i)
}

/// Whether the frames hold parts of one tree: each command from `base` on is led to by one
/// other, but for the first ones of frames, which none leads to yet.
pub open spec fn tidy(commands: Seq<CommandView>, stack: Seq<CompileFrame>, base: int) -> bool {
    &&& unshared(commands, base)
    &&& blocks_only(commands, base)
    &&& forall|k: int| 0 <= k < stack.len() ==> frame_tidy(commands, #[trigger] stack[k], base)
    &&& forall|j: int, k: int|
        0 <= j < stack.len() && 0 <= k < stack.len() && k == j + 1 ==> opened_from(
            commands,
            #[trigger] stack[j],
            #[trigger] stack[k],
        )
    &&& forall|j: int, k: int|
        0 <= j < k < stack.len() ==> frame_behind(#[trigger] stack[j], #[trigger] stack[k])
    &&& forall|x: usize|
        base <= x < commands.len() ==> heads_frame(stack, x) || #[trigger] is_led(
            commands,
            x,
            base,
        )
}

/// A script without commands is tidy.
pub proof fn lemma_start_tidy(commands: Seq<CommandView>, stack: Seq<CompileFrame>)
    requires
        stack.len() == 1,
        stack[0].head is None,
        stack[0].tail is None,
    ensures
        tidy(commands, stack, commands.len() as int),
{
}

/// Closing a block adds a link from the `{` to the first command of the block, and changes no
/// other link.
proof fn lemma_closed_leads(commands: Seq<CommandView>, stack: Seq<CompileFrame>, base: int)
    requires
        stack.len() > 1,
        sound(commands, stack, base),
        tidy(commands, stack, base),
    ensures
        ({
            let after = closed(commands, stack.last());
            let o = stack.last().opener->0;
            &&& base <= o < commands.len()
            &&& forall|i: usize, x: usize|
                base <= i < commands.len() ==> #[trigger] leads(after, i, x) == (leads(
                    commands,
                    i,
                    x,
                ) || i == o && stack.last().head == Some(x))
            &&& forall|i: usize|
                base <= i < commands.len() ==> #[trigger] following(after, i) == following(
                    commands,
                    i,
                )
            &&& forall|i: usize|
                base <= i < commands.len() && i != o ==> #[trigger] block(after, i) == block(
                    commands,
                    i,
                )
            &&& block(after, o) == stack.last().head
            &&& blocks_only(after, base)
        }),
{
    let frame = stack.last();
    let after = closed(commands, frame);
    assert(frame_sound(stack[stack.len() - 1], commands.len(), base));
    assert(opened_from(commands, stack[stack.len() - 2], stack[stack.len() - 1]));
    let o = frame.opener->0;
    assert(block(commands, o) is None);
    assert(block(after, o) == frame.head);
    assert forall|i: usize| base <= i < after.len() implies #[trigger] inner(after, i) == block(
        after,
        i,
    ) by {
        if i != o {
            assert(inner(commands, i) == block(commands, i));
            assert(inner(after, i) == inner(commands, i));
        }
    }
}

/// Closing a block keeps the frames tidy.
pub proof fn lemma_closed_tidy(commands: Seq<CommandView>, stack: Seq<CompileFrame>, base: int)
    requires
        stack.len() > 1,
        sound(commands, stack, base),
        tidy(commands, stack, base),
    ensures
        tidy(closed(commands, stack.last()), stack.drop_last(), base),
{
    let last = stack.len() - 1;
    let frame = stack.last();
    let after = closed(commands, frame);
    let rest = stack.drop_last();
    let o = frame.opener->0;
    lemma_closed_leads(commands, stack, base);
    assert(frame_tidy(commands, stack[last], base));
    assert(frame_sound(stack[last], commands.len(), base));
    assert(opened_from(commands, stack[last - 1], stack[last]));
    if let Some(h) = frame.head {
        assert(!is_led(commands, h, base));
    }
    assert(unshared(after, base)) by {
        assert forall|i: usize, j: usize, x: usize|
            base <= i < after.len() && base <= j < after.len() && #[trigger] leads(after, i, x)
                && #[trigger] leads(after, j, x) implies i == j by {
            if i != j && leads(commands, i, x) && leads(commands, j, x) {
            } else if i != j {
                assert(leads(commands, i, x) || leads(commands, j, x));
                assert(is_led(commands, x, base));
            }
        }
        assert forall|i: usize|
            base <= i < after.len() && #[trigger] following(after, i) is Some implies following(
            after,
            i,
        ) != block(after, i) by {
            if i == o && frame.head is Some && following(after, i) == frame.head {
                assert(leads(commands, i, frame.head->0));
            }
        }
    }
    assert forall|k: int| 0 <= k < rest.len() implies frame_tidy(
        after,
        #[trigger] rest[k],
        base,
    ) by {
        assert(frame_tidy(commands, stack[k], base));
        assert(frame_sound(stack[k], commands.len(), base));
        assert(frame_behind(stack[k], stack[last]));
        if let Some(h) = stack[k].head {
            if is_led(after, h, base) {
                let i = choose|i: usize| base <= i < after.len() && #[trigger] leads(after, i, h);
                assert(leads(commands, i, h));
            }
        }
    }
    assert forall|j: int, k: int|
        0 <= j < rest.len() && 0 <= k < rest.len() && k == j + 1 implies opened_from(
        after,
        #[trigger] rest[j],
        #[trigger] rest[k],
    ) by {
        assert(opened_from(commands, stack[j], stack[k]));
        assert(frame_tidy(commands, stack[last - 1], base));
        assert(frame_tidy(commands, stack[j], base));
        assert(frame_behind(stack[j], stack[last - 1]));
    }
    assert forall|j: int, k: int| 0 <= j < k < rest.len() implies frame_behind(
        #[trigger] rest[j],
        #[trigger] rest[k],
    ) by {
        assert(frame_behind(stack[j], stack[k]));
    }
    assert forall|x: usize| base <= x < after.len() implies heads_frame(rest, x)
        || #[trigger] is_led(after, x, base) by {
        if is_led(commands, x, base) {
            let i = choose|i: usize| base <= i < commands.len() && #[trigger] leads(commands, i, x);
            assert(leads(after, i, x));
        } else {
            assert(heads_frame(stack, x));
            let k = choose|k: int| 0 <= k < stack.len() && (#[trigger] stack[k]).head == Some(x);
            if k == last {
                assert(leads(after, o, x));
            } else {
                assert(rest[k].head == Some(x));
            }
        }
    }
}

/// Adding a command adds a link to it from the last one of the innermost frame, and changes no
/// other link.
proof fn lemma_command_leads(stack: Seq<CompileFrame>, added: Handled, base: int)
    requires
        stack.len() > 0,
        sound(added.context.commands, stack, base),
        tidy(added.context.commands, stack, base),
        added.context.commands.len() < usize::MAX,
        added.cmd.next is None,
        !(added.cmd.data matches DataView::BranchTarget(Some(_))),
    ensures
        ({
            let commands = added.context.commands;
            let after = with_command(stack, added).context.commands;
            let id = commands.len() as usize;
            &&& after.len() == commands.len() + 1
            &&& forall|i: usize, x: usize|
                base <= i < after.len() ==> #[trigger] leads(after, i, x) == (i < commands.len()
                    && leads(commands, i, x) || stack.last().tail == Some(i) && x == id)
            &&& forall|i: usize|
                base <= i < commands.len() && stack.last().tail != Some(i)
                    ==> #[trigger] following(after, i) == following(commands, i)
            &&& forall|i: usize|
                base <= i < commands.len() ==> #[trigger] block(after, i) == block(commands, i)
            &&& following(after, id) is None
            &&& blocks_only(after, base)
            &&& stack.last().tail matches Some(t) ==> following(after, t) == Some(id)
        }),
{
    let commands = added.context.commands;
    let id = commands.len() as usize;
    let frame = stack.last();
    let after = linked_commands(frame, commands.push(added.cmd), id);
    assert(frame_sound(stack[stack.len() - 1], commands.len(), base));
    assert(frame_tidy(commands, stack[stack.len() - 1], base));
    assert forall|i: usize| base <= i < commands.len() implies #[trigger] block(after, i) == block(
        commands,
        i,
    ) by {
        assert(forward_at(commands, i as int));
    }
    assert forall|i: usize|
        base <= i < commands.len() && stack.last().tail != Some(i) implies #[trigger] following(
        after,
        i,
    ) == following(commands, i) by {
        assert(forward_at(commands, i as int));
    }
    assert(following(after, id) is None && block(after, id) is None);
    assert forall|i: usize| base <= i < after.len() implies #[trigger] inner(after, i) == block(
        after,
        i,
    ) by {
        if i < commands.len() {
            assert(forward_at(commands, i as int));
            assert(inner(commands, i) == block(commands, i));
            assert(inner(after, i) == inner(commands, i));
        }
    }
    if let Some(t) = frame.tail {
        assert(following(commands, t) is None);
        assert(following(after, t) == Some(id));
    }
}

/// Adding a command keeps the frames tidy.
pub proof fn lemma_command_tidy(stack: Seq<CompileFrame>, added: Handled, base: int)
    requires
        stack.len() > 0,
        sound(added.context.commands, stack, base),
        tidy(added.context.commands, stack, base),
        added.context.commands.len() < usize::MAX,
        added.cmd.next is None,
        !(added.cmd.data matches DataView::BranchTarget(Some(_))),
    ensures
        tidy(
            with_command(stack, added).context.commands,
            with_command(stack, added).stack,
            base,
        ),
{
    let commands = added.context.commands;
    let id = commands.len() as usize;
    let last = stack.len() - 1;
    let frame = stack.last();
    let after = with_command(stack, added).context.commands;
    let next = with_command(stack, added).stack;
    lemma_command_leads(stack, added, base);
    assert(frame_sound(stack[last], commands.len(), base));
    assert(frame_tidy(commands, stack[last], base));
    assert forall|i: usize, x: usize|
        base <= i < commands.len() && #[trigger] leads(commands, i, x) implies x < commands.len() by {
        assert(forward_at(commands, i as int));
    }
    assert(unshared(after, base)) by {
        assert forall|i: usize|
            base <= i < after.len() && #[trigger] following(after, i) is Some implies following(
            after,
            i,
        ) != block(after, i) by {
            if i < commands.len() && frame.tail == Some(i) && block(commands, i) is Some {
                assert(leads(commands, i, block(commands, i)->0));
            }
        }
    }
    assert(!is_led(commands, id, base));
    assert forall|k: int| 0 <= k < next.len() implies frame_tidy(
        after,
        #[trigger] next[k],
        base,
    ) by {
        if k < stack.len() {
            assert(frame_tidy(commands, stack[k], base));
            assert(frame_sound(stack[k], commands.len(), base));
            if k < last {
                assert(frame_behind(stack[k], stack[last]));
            }
            if let Some(h) = next[k].head {
                if is_led(after, h, base) {
                    let i = choose|i: usize|
                        base <= i < after.len() && #[trigger] leads(after, i, h);
                    if h < id {
                        assert(leads(commands, i, h));
                    }
                }
            }
        }
    }
    assert forall|j: int, k: int|
        0 <= j < next.len() && 0 <= k < next.len() && k == j + 1 implies opened_from(
        after,
        #[trigger] next[j],
        #[trigger] next[k],
    ) by {
        if k < stack.len() {
            assert(opened_from(commands, stack[j], stack[k]));
            assert(frame_sound(stack[k], commands.len(), base));
        }
    }
    assert forall|j: int, k: int| 0 <= j < k < next.len() implies frame_behind(
        #[trigger] next[j],
        #[trigger] next[k],
    ) by {
        if k < stack.len() {
            assert(frame_behind(stack[j], stack[k]));
            assert(frame_sound(stack[j], commands.len(), base));
        }
    }
    assert forall|x: usize| base <= x < after.len() implies heads_frame(next, x)
        || #[trigger] is_led(after, x, base) by {
        if x == id {
            if let Some(t) = frame.tail {
                assert(leads(after, t, x));
            } else {
                assert(next[last].head == Some(x));
            }
        } else if is_led(commands, x, base) {
            let i = choose|i: usize| base <= i < commands.len() && #[trigger] leads(commands, i, x);
            assert(leads(after, i, x));
        } else {
            assert(heads_frame(stack, x));
            let k = choose|k: int| 0 <= k < stack.len() && (#[trigger] stack[k]).head == Some(x);
            assert(next[k].head == Some(x));
        }
    }
}

/// What a command of a tree leads to is in the tree too.
proof fn lemma_within_leads(commands: Seq<CommandView>, head: Option<usize>, i: usize, x: usize)
    requires
        within(commands, head, i),
        leads(commands, i, x),
        x < commands.len(),
    ensures
        within(commands, head, x),
    decreases ahead_of(commands, head),
{
    let h = head->0;
    if h == i {
        assert(within(commands, Some(x), x));
    } else if within(commands, following(commands, h), i) {
        lemma_within_leads(commands, following(commands, h), i, x);
    } else {
        lemma_within_leads(commands, block(commands, h), i, x);
    }
}

/// Whether the commands from `base` on are those of one tree, which starts with `head`.
#[verifier::opaque]
pub open spec fn one_tree(commands: Seq<CommandView>, head: Option<usize>, base: int) -> bool {
    &&& unshared(commands, base)
    &&& blocks_only(commands, base)
    &&& forward_from(commands, base)
    &&& head == if base < commands.len() {
        Some(base as usize)
    } else {
        None
    }
    &&& forall|x: usize| base <= x < commands.len() ==> #[trigger] within(commands, head, x)
}

/// A command from `base` on is in the tree.
proof fn lemma_in_tree(
    commands: Seq<CommandView>,
    stack: Seq<CompileFrame>,
    base: int,
    x: usize,
)
    requires
        stack.len() == 1,
        sound(commands, stack, base),
        tidy(commands, stack, base),
        base <= x < commands.len(),
    ensures
        within(commands, stack[0].head, x),
    decreases x,
{
    assert(is_led(commands, x, base) || heads_frame(stack, x));
    if is_led(commands, x, base) {
        let i = choose|i: usize| base <= i < commands.len() && #[trigger] leads(commands, i, x);
        assert(forward_at(commands, i as int));
        lemma_in_tree(commands, stack, base, i);
        lemma_within_leads(commands, stack[0].head, i, x);
    }
}

/// Once all blocks are closed, the commands are those of one tree.
pub proof fn lemma_one_tree(commands: Seq<CommandView>, stack: Seq<CompileFrame>, base: int)
    requires
        stack.len() == 1,
        sound(commands, stack, base),
        tidy(commands, stack, base),
        commands.len() <= usize::MAX,
    ensures
        one_tree(commands, stack[0].head, base),
{
    reveal(one_tree);
    assert forall|x: usize| base <= x < commands.len() implies #[trigger] within(
        commands,
        stack[0].head,
        x,
    ) by {
        lemma_in_tree(commands, stack, base, x);
    }
    assert(frame_sound(stack[0], commands.len(), base));
    if base < commands.len() {
        let first = base as usize;
        assert(within(commands, stack[0].head, first));
        assert(is_led(commands, first, base) || heads_frame(stack, first));
        if is_led(commands, first, base) {
            let i = choose|i: usize|
                base <= i < commands.len() && #[trigger] leads(commands, i, first);
            assert(forward_at(commands, i as int));
        }
    }
}

} // verus!
