//! Whole scripts: where their branches and the ends of their blocks lead.

use crate::command::{CommandView, ContextView, DataView};
use crate::compiler::blocks::{
    block_ends_at, ends_block, exit_of, lemma_apart, lemma_within_range, unshared, within,
};
use crate::compiler::graph::{
    ahead_of, behind, block, chain, following, forward_at, forward_from, labels_of,
    lemma_visit_in_range, ranges_of, resolved_data, tail, visit,
};
use crate::compiler::{compiled_script, linked_script, script_start};
use crate::compiler::links::{
    defines, label_at, labels_new, law_branches_are_resolved, law_each_command_is_visited_once,
    law_labels_stand_for_definitions, lemma_linked_up, linked_up,
};
use crate::compiler::sequence::{SequenceOutcome, sequence_at};
use crate::compiler::shape::one_tree;
use crate::error_handling::ErrorView;
use crate::script_line_provider::{Source, script_of};
use vstd::prelude::*;

verus! {

/// The last of the commands that follow one another from the one at `i` on.
pub open spec fn last_from(commands: Seq<CommandView>, i: int) -> int
    decreases commands.len() - i,
{
    if 0 <= i < commands.len() {
        match commands[i].next {
            Some(n) => if i < n < commands.len() {
                last_from(commands, n as int)
            } else {
                i
            },
            None => i,
        }
    } else {
        i
    }
}

/// The last command of a chain is its tail.
proof fn lemma_last_is_tail(commands: Seq<CommandView>, h: usize)
    ensures
        last_from(commands, h as int) == tail(commands, h),
    decreases ahead_of(commands, Some(h)),
{
    if h < commands.len() {
        if let Some(n) = following(commands, h) {
            lemma_last_is_tail(commands, n);
        }
    }
}

/// What comes behind the last command of a chain is what comes behind the chain.
proof fn lemma_tail_exit(commands: Seq<CommandView>, h: usize, outer: Option<usize>)
    requires
        h < commands.len(),
    ensures
        within(commands, Some(h), tail(commands, h)),
        exit_of(commands, Some(h), outer, tail(commands, h)) == outer,
    decreases ahead_of(commands, Some(h)),
{
    if let Some(n) = following(commands, h) {
        lemma_tail_exit(commands, n, outer);
        lemma_within_range(commands, Some(n), tail(commands, n));
    }
}

/// What is in the block of a command of a tree is in the tree.
proof fn lemma_within_block(commands: Seq<CommandView>, head: Option<usize>, x: usize, t: usize)
    requires
        within(commands, head, x),
        within(commands, block(commands, x), t),
    ensures
        within(commands, head, t),
    decreases ahead_of(commands, head),
{
    let h = head->0;
    if h != x {
        if within(commands, following(commands, h), x) {
            lemma_within_block(commands, following(commands, h), x, t);
        } else {
            lemma_within_block(commands, block(commands, h), x, t);
        }
    }
}

/// What comes behind the end of a block is what comes behind its `{`.
proof fn lemma_block_exit(
    commands: Seq<CommandView>,
    base: int,
    head: Option<usize>,
    outer: Option<usize>,
    x: usize,
)
    requires
        unshared(commands, base),
        head matches Some(h) ==> base <= h,
        within(commands, head, x),
        block(commands, x) is Some,
    ensures
        exit_of(commands, head, outer, tail(commands, block(commands, x)->0)) == exit_of(
            commands,
            head,
            outer,
            x,
        ),
    decreases ahead_of(commands, head),
{
    let h = head->0;
    let b = block(commands, x)->0;
    let t = tail(commands, b);
    lemma_tail_exit(commands, b, behind(commands, h, outer));
    lemma_within_range(commands, Some(b), t);
    lemma_within_range(commands, head, x);
    if x == h {
        if within(commands, following(commands, h), t) {
            lemma_apart(commands, base, h, t);
        }
    } else if within(commands, following(commands, h), x) {
        lemma_within_block(commands, following(commands, h), x, t);
        lemma_block_exit(commands, base, following(commands, h), outer, x);
    } else {
        lemma_within_block(commands, block(commands, h), x, t);
        if within(commands, following(commands, h), t) {
            lemma_apart(commands, base, h, t);
        }
        lemma_block_exit(commands, base, block(commands, h), behind(commands, h, outer), x);
    }
}

/// A command that another one follows leads there.
proof fn lemma_following_exit(
    commands: Seq<CommandView>,
    head: Option<usize>,
    outer: Option<usize>,
    x: usize,
)
    requires
        within(commands, head, x),
        following(commands, x) is Some,
    ensures
        exit_of(commands, head, outer, x) == following(commands, x),
    decreases ahead_of(commands, head),
{
    let h = head->0;
    if x != h {
        if within(commands, following(commands, h), x) {
            lemma_following_exit(commands, following(commands, h), outer, x);
        } else {
            lemma_following_exit(commands, block(commands, h), behind(commands, h, outer), x);
        }
    }
}

/// A command that none follows ends the tree, or a block in it.
proof fn lemma_ends_something(commands: Seq<CommandView>, head: Option<usize>, x: usize) -> (y: Option<
    usize,
>)
    requires
        within(commands, head, x),
        following(commands, x) is None,
    ensures
        match y {
            None => x == tail(commands, head->0),
            Some(at) => within(commands, head, at) && block(commands, at) is Some && x == tail(
                commands,
                block(commands, at)->0,
            ),
        },
    decreases ahead_of(commands, head),
{
    let h = head->0;
    if x == h {
        None
    } else if within(commands, following(commands, h), x) {
        lemma_ends_something(commands, following(commands, h), x)
    } else {
        match lemma_ends_something(commands, block(commands, h), x) {
            Some(at) => Some(at),
            None => Some(h),
        }
    }
}

/// Every command leads to what comes behind it.
proof fn lemma_leads_behind(
    after: ContextView,
    tree: Seq<CommandView>,
    head: Option<usize>,
    base: int,
    x: usize,
)
    requires
        0 <= base <= x < tree.len() <= usize::MAX,
        one_tree(tree, head, base),
        linked_up(after, tree, head, base),
    ensures
        after.commands[x as int].next == exit_of(tree, head, None, x),
        tree[x as int].next is Some ==> after.commands[x as int].next == tree[x as int].next,
{
    reveal(one_tree);
    reveal(linked_up);
    assert(within(tree, head, x));
    assert(forward_at(tree, x as int));
    if following(tree, x) is Some {
        lemma_following_exit(tree, head, None, x);
        if ends_block(tree, head, x as int) {
            lemma_ended(tree, head, base, x as int);
        }
    } else {
        match lemma_ends_something(tree, head, x) {
            Some(y) => {
                lemma_within_range(tree, head, y);
                lemma_block_exit(tree, base, head, None, y);
                assert(block(tree, y) is Some);
            },
            None => {
                lemma_tail_exit(tree, head->0, None);
                if ends_block(tree, head, x as int) {
                    let y = lemma_ended(tree, head, base, x as int);
                    lemma_block_exit(tree, base, head, None, y);
                    assert(block(tree, y) is Some);
                }
            },
        }
    }
}

/// The `{` of the block that ends at `i`; nothing follows there.
proof fn lemma_ended(tree: Seq<CommandView>, head: Option<usize>, base: int, i: int) -> (y: usize)
    requires
        0 <= base <= i < tree.len() <= usize::MAX,
        one_tree(tree, head, base),
        ends_block(tree, head, i),
    ensures
        within(tree, head, y),
        base <= y < tree.len(),
        block(tree, y) is Some,
        i == tail(tree, block(tree, y)->0),
        following(tree, i as usize) is None,
{
    reveal(one_tree);
    let y = choose|y: usize| #[trigger] within(tree, head, y) && block_ends_at(tree, y, i);
    lemma_within_range(tree, head, y);
    lemma_tail_ends(tree, block(tree, y)->0);
    y
}

/// Nothing follows the last command of a chain.
proof fn lemma_tail_ends(commands: Seq<CommandView>, h: usize)
    requires
        h < commands.len(),
    ensures
        following(commands, tail(commands, h)) is None,
    decreases ahead_of(commands, Some(h)),
{
    if let Some(n) = following(commands, h) {
        lemma_tail_ends(commands, n);
    }
}

/// In a script that compiles, a command leads to the one that follows it. The last command of a
/// block leads where its `{` leads, and the last command of the script leads nowhere.
pub proof fn law_blocks_end_where_they_start(
    after: ContextView,
    tree: Seq<CommandView>,
    head: Option<usize>,
    base: int,
)
    requires
        0 <= base <= tree.len() <= usize::MAX,
        one_tree(tree, head, base),
        linked_up(after, tree, head, base),
    ensures
        forall|i: int|
            base <= i < tree.len() && tree[i].next is Some ==> (#[trigger] after.commands[i]).next
                == tree[i].next,
        forall|i: int|
            base <= i < tree.len() && (#[trigger] tree[i]).code == '{' ==> (
            tree[i].data matches DataView::BranchTarget(Some(b)) ==> after.commands[last_from(
                tree,
                b as int,
            )].next == after.commands[i].next),
        base < tree.len() ==> after.commands[last_from(tree, base)].next is None,
{
    reveal(one_tree);
    assert forall|i: int| base <= i < tree.len() && tree[i].next is Some implies (
    #[trigger] after.commands[i]).next == tree[i].next by {
        lemma_leads_behind(after, tree, head, base, i as usize);
    }
    assert forall|i: int| base <= i < tree.len() && (#[trigger] tree[i]).code == '{' implies (
    tree[i].data matches DataView::BranchTarget(Some(b)) ==> after.commands[last_from(
        tree,
        b as int,
    )].next == after.commands[i].next) by {
        assert(forward_at(tree, i));
        if let DataView::BranchTarget(Some(b)) = tree[i].data {
            let x = i as usize;
            assert(block(tree, x) == Some(b));
            lemma_last_is_tail(tree, b);
            lemma_tail_exit(tree, b, None);
            lemma_within_range(tree, Some(b), tail(tree, b));
            assert(within(tree, head, x));
            lemma_block_exit(tree, base, head, None, x);
            lemma_leads_behind(after, tree, head, base, x);
            lemma_leads_behind(after, tree, head, base, tail(tree, b));
        }
    }
    if base < tree.len() {
        let h = base as usize;
        lemma_last_is_tail(tree, h);
        lemma_tail_exit(tree, h, None);
        lemma_within_range(tree, Some(h), tail(tree, h));
        lemma_leads_behind(after, tree, head, base, tail(tree, h));
    }
}

/// Whether the command is a `:` with the given label.
pub open spec fn defines_label(cmd: CommandView, label: Seq<char>) -> bool {
    cmd.code == ':' && cmd.data == DataView::Label(Some(label))
}

/// Whether the command is a branch: `b`, `t` or `T`.
pub open spec fn may_branch(cmd: CommandView) -> bool {
    cmd.code == 'b' || cmd.code == 't' || cmd.code == 'T'
}

/// Whether a command from `base` on defines the label.
pub open spec fn is_defined(tree: Seq<CommandView>, base: int, label: Seq<char>) -> bool {
    exists|j: int| base <= j < tree.len() && defines_label(#[trigger] tree[j], label)
}

/// Whether no label is defined twice, be it by commands from `base` on or by earlier ones.
pub open spec fn defined_once(
    tree: Seq<CommandView>,
    base: int,
    known: Map<Seq<char>, usize>,
) -> bool {
    &&& forall|i: int, label: Seq<char>|
        base <= i < tree.len() && #[trigger] defines_label(tree[i], label) ==> !known.contains_key(
            label,
        )
    &&& forall|i: int, j: int, label: Seq<char>|
        base <= i < tree.len() && base <= j < tree.len() && #[trigger] defines_label(tree[i], label)
            && #[trigger] defines_label(tree[j], label) ==> i == j
}

/// Whether the labels of all branches from `base` on are defined.
pub open spec fn branches_defined(
    tree: Seq<CommandView>,
    base: int,
    known: Map<Seq<char>, usize>,
) -> bool {
    forall|i: int|
        base <= i < tree.len() && may_branch(#[trigger] tree[i]) ==> (
        tree[i].data matches DataView::Label(Some(label)) ==> known.contains_key(label)
            || is_defined(tree, base, label))
}

/// The commands that a walk comes past define the labels that those from `base` on define.
proof fn lemma_order_defines(
    tree: Seq<CommandView>,
    order: Seq<usize>,
    base: int,
    label: Seq<char>,
)
    requires
        0 <= base <= tree.len() <= usize::MAX,
        forall|x: usize| #[trigger] order.contains(x) <==> base <= x < tree.len(),
    ensures
        defines(tree, order, label) <==> is_defined(tree, base, label),
{
    if defines(tree, order, label) {
        let k = choose|k: int| 0 <= k < order.len() && #[trigger] label_at(tree, order, k)
            == Some(label);
        assert(order.contains(order[k]));
        assert(defines_label(tree[order[k] as int], label));
    }
    if is_defined(tree, base, label) {
        let j = choose|j: int| base <= j < tree.len() && defines_label(#[trigger] tree[j], label);
        assert(order.contains(j as usize));
        let k = choose|k: int| 0 <= k < order.len() && order[k] == j as usize;
        assert(label_at(tree, order, k) == Some(label));
    }
}

/// Labels are new on a walk if they are defined once.
proof fn lemma_order_new(
    tree: Seq<CommandView>,
    order: Seq<usize>,
    base: int,
    known: Map<Seq<char>, usize>,
)
    requires
        0 <= base <= tree.len() <= usize::MAX,
        order.no_duplicates(),
        forall|x: usize| #[trigger] order.contains(x) <==> base <= x < tree.len(),
    ensures
        labels_new(tree, order, known) <==> defined_once(tree, base, known),
{
    if defined_once(tree, base, known) {
        assert forall|k: int| 0 <= k < order.len() implies (#[trigger] label_at(
            tree,
            order,
            k,
        ) matches Some(label) ==> !known.contains_key(label)) by {
            assert(order.contains(order[k]));
            if let Some(label) = label_at(tree, order, k) {
                assert(defines_label(tree[order[k] as int], label));
            }
        }
        assert forall|j: int, k: int|
            0 <= j < k < order.len() && #[trigger] label_at(tree, order, j) is Some implies
            #[trigger] label_at(tree, order, k) != label_at(tree, order, j) by {
            assert(order.contains(order[j]) && order.contains(order[k]));
            let label = label_at(tree, order, j)->0;
            assert(defines_label(tree[order[j] as int], label));
            if label_at(tree, order, k) == Some(label) {
                assert(defines_label(tree[order[k] as int], label));
            }
        }
    }
    if labels_new(tree, order, known) {
        assert forall|i: int, label: Seq<char>|
            base <= i < tree.len() && #[trigger] defines_label(tree[i], label) implies
            !known.contains_key(label) by {
            assert(order.contains(i as usize));
            let k = choose|k: int| 0 <= k < order.len() && order[k] == i as usize;
            assert(label_at(tree, order, k) == Some(label));
        }
        assert forall|i: int, j: int, label: Seq<char>|
            base <= i < tree.len() && base <= j < tree.len() && #[trigger] defines_label(
                tree[i],
                label,
            ) && #[trigger] defines_label(tree[j], label) implies i == j by {
            assert(order.contains(i as usize) && order.contains(j as usize));
            let k = choose|k: int| 0 <= k < order.len() && order[k] == i as usize;
            let l = choose|l: int| 0 <= l < order.len() && order[l] == j as usize;
            assert(label_at(tree, order, k) == Some(label));
            assert(label_at(tree, order, l) == Some(label));
        }
    }
}

/// Compiling a script fails, once its commands are compiled, exactly if a label is defined
/// twice, if a branch names one that is not defined, or if a block is still open.
pub proof fn law_labels_and_blocks_must_fit(
    sequence: SequenceOutcome,
    head: Option<usize>,
    base: int,
)
    requires
        0 <= base <= sequence.context.commands.len() <= usize::MAX,
        one_tree(sequence.context.commands, head, base),
    ensures
        ({
            let tree = sequence.context.commands;
            let known = sequence.context.labels;
            let out = linked_script(sequence, head);
            &&& out.result is Ok <==> {
                &&& defined_once(tree, base, known)
                &&& branches_defined(tree, base, known)
                &&& sequence.context.parsed_block_nesting == 0
            }
            &&& out.result matches Ok(first) ==> first == head
        }),
{
    let tree = sequence.context.commands;
    let known = sequence.context.labels;
    let order = visit(tree, head);
    let labels = labels_of(tree, order, known).1;
    law_each_command_is_visited_once(tree, head, base);
    lemma_visit_in_range(tree, head);
    law_labels_stand_for_definitions(tree, order, known);
    law_branches_are_resolved(tree, order, labels);
    lemma_order_new(tree, order, base, known);
    if defined_once(tree, base, known) {
        assert forall|label: Seq<char>| #[trigger] labels.contains_key(label) <==> (
        known.contains_key(label) || is_defined(tree, base, label)) by {
            lemma_order_defines(tree, order, base, label);
            if is_defined(tree, base, label) {
                let k = choose|k: int| 0 <= k < order.len() && #[trigger] label_at(tree, order, k)
                    == Some(label);
                assert(label_at(tree, order, k) == Some(label));
            }
        }
        if branches_defined(tree, base, known) {
            assert forall|k: int| 0 <= k < order.len() implies resolved_data(
                tree[#[trigger] order[k] as int],
                labels,
            ) is Ok by {
                assert(order.contains(order[k]));
                let cmd = tree[order[k] as int];
                assert(may_branch(cmd) ==> (cmd.data matches DataView::Label(Some(label))
                    ==> known.contains_key(label) || is_defined(tree, base, label)));
            }
        }
        if forall|k: int|
            0 <= k < order.len() ==> resolved_data(tree[#[trigger] order[k] as int], labels) is Ok {
            assert forall|i: int|
                base <= i < tree.len() && may_branch(#[trigger] tree[i]) implies (
            tree[i].data matches DataView::Label(Some(label)) ==> known.contains_key(label)
                || is_defined(tree, base, label)) by {
                assert(order.contains(i as usize));
                let k = choose|k: int| 0 <= k < order.len() && order[k] == i as usize;
                assert(resolved_data(tree[order[k] as int], labels) is Ok);
            }
        }
    }
}

/// In a script that compiles, a branch leads to the command that defines its label, and to the
/// end of the script if it has none. Commands are else as they were compiled, but for where
/// they lead on.
pub proof fn law_branches_lead_to_labels(
    sequence: SequenceOutcome,
    head: Option<usize>,
    base: int,
)
    requires
        0 <= base <= sequence.context.commands.len() <= usize::MAX,
        one_tree(sequence.context.commands, head, base),
        linked_script(sequence, head).result is Ok,
    ensures
        ({
            let tree = sequence.context.commands;
            let after = linked_script(sequence, head).context;
            &&& after.commands.len() == tree.len()
            &&& forall|i: int, j: int, label: Seq<char>|
                base <= i < tree.len() && may_branch(#[trigger] tree[i]) && tree[i].data
                    == DataView::Label(Some(label)) && base <= j < tree.len()
                    && #[trigger] defines_label(tree[j], label) ==> after.commands[i].data
                    == DataView::BranchTarget(Some(j as usize))
            &&& forall|i: int|
                base <= i < tree.len() ==> {
                    &&& #[trigger] after.commands[i] == CommandView {
                        next: after.commands[i].next,
                        data: after.commands[i].data,
                        ..tree[i]
                    }
                    &&& may_branch(tree[i]) && tree[i].data == DataView::Label(None)
                        ==> after.commands[i].data == DataView::BranchTarget(None)
                    &&& !may_branch(tree[i]) ==> after.commands[i].data == tree[i].data
                }
            &&& forall|i: int| 0 <= i < base ==> #[trigger] after.commands[i] == tree[i]
        }),
{
    let tree = sequence.context.commands;
    let after = linked_script(sequence, head).context;
    lemma_linked_up(after, tree, head, base, sequence.context.labels);
    reveal(linked_up);
    assert forall|i: int, j: int, label: Seq<char>|
        base <= i < tree.len() && may_branch(#[trigger] tree[i]) && tree[i].data
            == DataView::Label(Some(label)) && base <= j < tree.len() && #[trigger] defines_label(
            tree[j],
            label,
        ) implies after.commands[i].data == DataView::BranchTarget(Some(j as usize)) by {
        assert(after.commands[j].code == ':');
        assert(resolved_data(tree[i], after.labels) is Ok);
        assert(after.commands[i].code == tree[i].code);
    }
}

/// The commands with two addresses are noted, each once, behind those that were noted before.
/// The options and what the script names are left as they are.
pub proof fn law_ranges_are_noted(sequence: SequenceOutcome, head: Option<usize>, base: int)
    requires
        0 <= base <= sequence.context.commands.len() <= usize::MAX,
        one_tree(sequence.context.commands, head, base),
        linked_script(sequence, head).result is Ok,
    ensures
        ({
            let tree = sequence.context.commands;
            let before = sequence.context;
            let after = linked_script(sequence, head).context;
            let found = after.range_commands.skip(before.range_commands.len() as int);
            &&& after.range_commands == before.range_commands + found
            &&& found.no_duplicates()
            &&& forall|x: usize| #[trigger]
                found.contains(x) <==> base <= x < tree.len() && tree[x as int].addr2 is Some
            &&& after == ContextView {
                commands: after.commands,
                labels: after.labels,
                range_commands: after.range_commands,
                ..before
            }
        }),
{
    let tree = sequence.context.commands;
    let before = sequence.context;
    let after = linked_script(sequence, head).context;
    let order = visit(tree, head);
    let found = ranges_of(tree, order);
    law_each_command_is_visited_once(tree, head, base);
    assert(after.range_commands.skip(before.range_commands.len() as int) =~= found);
    let two = |i: usize| tree[i as int].addr2 is Some;
    lemma_filtered(order, two);
    assert forall|x: usize| #[trigger] found.contains(x) <==> base <= x < tree.len()
        && tree[x as int].addr2 is Some by {
        assert(order.contains(x) <==> base <= x < tree.len());
        assert(order.filter(two).contains(x) <==> order.contains(x) && two(x));
    }
}

/// Filtering keeps what is asked for, each as often as before.
proof fn lemma_filtered(order: Seq<usize>, keep: spec_fn(usize) -> bool)
    requires
        order.no_duplicates(),
    ensures
        order.filter(keep).no_duplicates(),
        forall|x: usize| #[trigger]
            order.filter(keep).contains(x) <==> order.contains(x) && keep(x),
    decreases order.len(),
{
    reveal(Seq::filter);
    if order.len() > 0 {
        let before = order.drop_last();
        let last = order.last();
        lemma_filtered(before, keep);
        let kept = before.filter(keep);
        assert(!before.contains(last));
        assert forall|x: usize| #[trigger] order.contains(x) <==> before.contains(x) || x
            == last by {
            if order.contains(x) {
                let k = choose|k: int| 0 <= k < order.len() && order[k] == x;
                if k < before.len() {
                    assert(before[k] == x);
                }
            }
            if before.contains(x) {
                let k = choose|k: int| 0 <= k < before.len() && before[k] == x;
                assert(order[k] == x);
            }
            assert(order[order.len() - 1] == last);
        }
        if keep(last) {
            let all = kept.push(last);
            assert(order.filter(keep) =~= all);
            assert forall|x: usize| #[trigger] all.contains(x) <==> kept.contains(x) || x
                == last by {
                if all.contains(x) {
                    let k = choose|k: int| 0 <= k < all.len() && all[k] == x;
                    if k < kept.len() {
                        assert(kept[k] == x);
                    }
                }
                if kept.contains(x) {
                    let k = choose|k: int| 0 <= k < kept.len() && kept[k] == x;
                    assert(all[k] == x);
                }
                assert(all[kept.len() as int] == last);
            }
            assert(!kept.contains(last));
            assert(all.no_duplicates()) by {
                assert forall|i: int, j: int|
                    0 <= i < all.len() && 0 <= j < all.len() && i != j implies all[i]
                    != all[j] by {
                    if i < kept.len() {
                        assert(kept.contains(kept[i]));
                    }
                    if j < kept.len() {
                        assert(kept.contains(kept[j]));
                    }
                }
            }
        }
    } else {
        assert(order.filter(keep) =~= order);
    }
}

/// The command that comes `n` commands behind the one at `i`, if there is one.
pub open spec fn nth_behind(commands: Seq<CommandView>, i: usize, n: nat) -> Option<usize>
    decreases n,
{
    if n == 0 {
        Some(i)
    } else {
        match nth_behind(commands, i, (n - 1) as nat) {
            Some(x) => commands[x as int].next,
            None => None,
        }
    }
}

/// Walking a script comes past the commands outside of blocks first, in their order.
pub proof fn law_outer_commands_come_first(
    commands: Seq<CommandView>,
    head: Option<usize>,
    base: int,
    n: nat,
)
    requires
        0 <= base <= commands.len() <= usize::MAX,
        one_tree(commands, head, base),
        base < commands.len(),
        nth_behind(commands, base as usize, n) is Some,
    ensures
        n < visit(commands, head).len(),
        visit(commands, head)[n as int] == nth_behind(commands, base as usize, n)->0,
{
    reveal(one_tree);
    lemma_chain_order(commands, base as usize, base, n);
    assert(visit(commands, head)[n as int] == chain(commands, head)[n as int]);
}

/// The commands of a chain, in their order.
proof fn lemma_chain_order(commands: Seq<CommandView>, h: usize, base: int, n: nat)
    requires
        0 <= base <= h < commands.len(),
        forward_from(commands, base),
        nth_behind(commands, h, n) is Some,
    ensures
        n < chain(commands, Some(h)).len(),
        chain(commands, Some(h))[n as int] == nth_behind(commands, h, n)->0,
        base <= nth_behind(commands, h, n)->0 < commands.len(),
    decreases n,
{
    if n > 0 {
        assert(forward_at(commands, h as int));
        lemma_nth_from_next(commands, h, base, n);
        let next = commands[h as int].next->0;
        lemma_chain_order(commands, next, base, (n - 1) as nat);
        assert(chain(commands, Some(h)) =~= seq![h] + chain(commands, Some(next)));
    }
}

/// What comes behind a command comes behind the one that follows it, one command sooner.
proof fn lemma_nth_from_next(commands: Seq<CommandView>, h: usize, base: int, n: nat)
    requires
        n > 0,
        nth_behind(commands, h, n) is Some,
    ensures
        commands[h as int].next is Some,
        nth_behind(commands, commands[h as int].next->0, (n - 1) as nat) == nth_behind(
            commands,
            h,
            n,
        ),
    decreases n,
{
    if n == 1 {
        assert(nth_behind(commands, h, 0) == Some(h));
        assert(nth_behind(commands, h, 1) == commands[h as int].next);
    } else {
        lemma_nth_from_next(commands, h, base, (n - 1) as nat);
    }
}

/// A script is compiled from before its first line on, and its labels and blocks are seen to
/// once all its commands are there. If one of them is in error, the script is.
pub proof fn law_script_is_compiled(
    sources: Seq<Source>,
    context: ContextView,
    reason: Seq<char>,
)
    ensures
        ({
            let start = script_start(sources);
            let sequence = sequence_at(start, context, reason);
            let out = compiled_script(sources, context, reason);
            &&& start.script == script_of(sources)
            &&& start.eol()
            &&& match sequence.result {
                Err(e) => out.result == Err::<Option<usize>, ErrorView>(e),
                Ok(head) => out == linked_script(sequence, head),
            }
        }),
{
    reveal(compiled_script);
}

} // verus!
