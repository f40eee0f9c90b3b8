//! The structure that compiled commands form: a tree of chains, whose blocks are then linked
//! to what follows them, and whose branches to their targets.

use crate::command::{
    Command, CommandData, CommandView, ContextView, DataView, ProcessingContext, commands_view,
};
use crate::compiler::cursor::viewed;
use crate::error_handling::{ErrorView, SedResult, located_error, semantic_error};
use crate::text::around_text;
use vstd::hash_map::StringHashMap;
use vstd::prelude::*;

verus! {

/// Whether the command at `i` leads only to later commands: the one that follows it, and the
/// first one of its block.
pub open spec fn forward_at(commands: Seq<CommandView>, i: int) -> bool {
    &&& commands[i].next matches Some(n) ==> i < n < commands.len()
    &&& commands[i].data matches DataView::BranchTarget(Some(b)) ==> i < b < commands.len()
}

/// Whether all commands from `base` on lead only to later commands.
pub open spec fn forward_from(commands: Seq<CommandView>, base: int) -> bool {
    forall|i: int| base <= i < commands.len() ==> #[trigger] forward_at(commands, i)
}

/// Whether a chain can start with `head`: all from there on leads only to later commands.
pub open spec fn heads_tree(commands: Seq<CommandView>, head: Option<usize>) -> bool {
    head matches Some(h) ==> h < commands.len() && forward_from(commands, h as int)
}

/// The command that follows the one at `i`, if it is a later one.
pub open spec fn following(commands: Seq<CommandView>, i: usize) -> Option<usize> {
    match commands[i as int].next {
        Some(n) => if i < n < commands.len() {
            Some(n)
        } else {
            None
        },
        None => None,
    }
}

/// The first command of the block at `i`, if it is a later one.
pub open spec fn inner(commands: Seq<CommandView>, i: usize) -> Option<usize> {
    match commands[i as int].data {
        DataView::BranchTarget(Some(b)) => if i < b < commands.len() {
            Some(b)
        } else {
            None
        },
        _ => None,
    }
}

/// How many commands there are from `head` on.
pub open spec fn ahead_of(commands: Seq<CommandView>, head: Option<usize>) -> nat {
    match head {
        Some(h) => if h < commands.len() {
            (commands.len() - h) as nat
        } else {
            0
        },
        None => 0,
    }
}

/// The commands of the chain that starts with `head`.
pub open spec fn chain(commands: Seq<CommandView>, head: Option<usize>) -> Seq<usize>
    decreases ahead_of(commands, head),
{
    match head {
        Some(h) => if h < commands.len() {
            seq![h] + chain(commands, following(commands, h))
        } else {
            Seq::empty()
        },
        None => Seq::empty(),
    }
}

/// The commands in the blocks of the chain that starts with `head`: those of the last block
/// come first.
pub open spec fn nested(commands: Seq<CommandView>, head: Option<usize>) -> Seq<usize>
    decreases ahead_of(commands, head), 0nat,
{
    match head {
        Some(h) => if h < commands.len() {
            nested(commands, following(commands, h)) + visit(commands, inner(commands, h))
        } else {
            Seq::empty()
        },
        None => Seq::empty(),
    }
}

/// The commands of the tree that starts with `head`: each chain comes before the blocks in it.
pub open spec fn visit(commands: Seq<CommandView>, head: Option<usize>) -> Seq<usize>
    decreases ahead_of(commands, head), 1nat,
{
    chain(commands, head) + nested(commands, head)
}

/// The commands of the trees that start with `heads`: those of the last one come first.
pub open spec fn visit_all(commands: Seq<CommandView>, heads: Seq<usize>) -> Seq<usize>
    decreases heads.len(),
{
    if heads.len() == 0 {
        Seq::empty()
    } else {
        visit(commands, Some(heads.last())) + visit_all(commands, heads.drop_last())
    }
}

/// The commands of the tree that starts with `head`. Blocks wait on a list of their own, so
/// nesting is no matter of recursion.
pub fn visit_order(commands: &Vec<Command>, head: Option<usize>) -> (order: Vec<usize>)
    requires
        heads_tree(commands_view(commands@), head),
    ensures
        order@ == visit(commands_view(commands@), head),
        forall|k: int| 0 <= k < order.len() ==> #[trigger] order[k] < commands.len(),
{
    let ghost view = commands_view(commands@);
    let ghost total = visit(view, head);
    let ghost base: int = match head {
        Some(h) => h as int,
        None => view.len() as int,
    };
    let mut order: Vec<usize> = Vec::new();
    let mut pending: Vec<usize> = Vec::new();
    let mut cur: Option<usize> = head;
    assert(total =~= order@ + chain(view, cur) + nested(view, cur) + visit_all(view, pending@));
    loop
        invariant
            view == commands_view(commands@),
            total == visit(view, head),
            forward_from(view, base),
            0 <= base,
            cur matches Some(c) ==> base <= c < view.len(),
            forall|k: int| 0 <= k < pending.len() ==> base <= #[trigger] pending[k] < view.len(),
            forall|k: int| 0 <= k < order.len() ==> #[trigger] order[k] < commands.len(),
            order@ + chain(view, cur) + nested(view, cur) + visit_all(view, pending@) == total,
        decreases total.len() - order.len(), pending.len(),
    {
        match cur {
            None => {
                let ghost before = pending@;
                match pending.pop() {
                    None => {
                        assert(order@ =~= total);
                        return order;
                    },
                    Some(head) => {
                        assert(before.last() == head);
                        assert(before[before.len() - 1] < view.len());
                        cur = Some(head);
                        assert(order@ + chain(view, cur) + nested(view, cur) + visit_all(
                            view,
                            pending@,
                        ) =~= total);
                    },
                }
            },
            Some(c) => {
                let ghost seen = order@;
                let ghost waiting = pending@;
                assert(forward_at(view, c as int));
                assert(view[c as int] == commands@[c as int]@);
                order.push(c);
                if let CommandData::BranchTarget(Some(b)) = &commands[c].data {
                    pending.push(*b);
                    assert(inner(view, c) == Some(*b));
                    assert(pending@.drop_last() =~= waiting);
                } else {
                    assert(inner(view, c) is None);
                    assert(visit(view, None) =~= Seq::empty());
                }
                cur = commands[c].next;
                assert(cur == following(view, c));
                assert(order@ + chain(view, cur) + nested(view, cur) + visit_all(view, pending@)
                    =~= seen + (seq![c] + chain(view, cur)) + (nested(view, cur) + visit(
                    view,
                    inner(view, c),
                )) + visit_all(view, waiting));
            },
        }
    }
}

/// The label that the command defines, if it defines one.
pub open spec fn defined_label(cmd: CommandView) -> Option<Seq<char>> {
    if cmd.code == ':' {
        match cmd.data {
            DataView::Label(label) => label,
            _ => None,
        }
    } else {
        None
    }
}

/// The error that `label` is defined twice.
pub open spec fn duplicate_label(cmd: CommandView, label: Seq<char>) -> ErrorView {
    located_error(cmd.location, "duplicate label `"@ + label + "'"@, 1)
}

/// What taking note of the labels of the commands `order` gives, when `labels` are known:
/// nothing or an error, and the labels known then.
pub open spec fn labels_of(
    commands: Seq<CommandView>,
    order: Seq<usize>,
    labels: Map<Seq<char>, usize>,
) -> (Result<(), ErrorView>, Map<Seq<char>, usize>)
    decreases order.len(),
{
    if order.len() == 0 {
        (Ok(()), labels)
    } else {
        let cmd = commands[order[0] as int];
        match defined_label(cmd) {
            Some(label) => if labels.contains_key(label) {
                (Err(duplicate_label(cmd, label)), labels)
            } else {
                labels_of(commands, order.drop_first(), labels.insert(label, order[0]))
            },
            None => labels_of(commands, order.drop_first(), labels),
        }
    }
}

/// Takes note of the command that each label of the tree stands for.
pub fn populate_label_map(head: Option<usize>, context: &mut ProcessingContext) -> (result: SedResult<
    (),
>)
    requires
        heads_tree(old(context)@.commands, head),
    ensures
        ({
            let commands = old(context)@.commands;
            let (outcome, labels) = labels_of(
                commands,
                visit(commands, head),
                old(context)@.labels,
            );
            &&& viewed(result) == outcome
            &&& final(context)@ == (ContextView { labels, ..old(context)@ })
        }),
{
    let order = visit_order(&context.commands, head);
    let ghost commands = context@.commands;
    let ghost spec = labels_of(commands, order@, context@.labels);
    let mut k: usize = 0;
    assert(order@.skip(0) =~= order@);
    while k < order.len()
        invariant
            k <= order.len(),
            forall|j: int| 0 <= j < order.len() ==> #[trigger] order[j] < commands.len(),
            commands == old(context)@.commands,
            order@ == visit(commands, head),
            spec == labels_of(commands, order@, old(context)@.labels),
            spec == labels_of(commands, order@.skip(k as int), context@.labels),
            context@ == (ContextView { labels: context@.labels, ..old(context)@ }),
        decreases order.len() - k,
    {
        let id: usize = order[k];
        assert(order@.skip(k as int)[0] == id);
        assert(order@.skip(k as int).drop_first() =~= order@.skip(k + 1));
        assert(commands[id as int] == context.commands@[id as int]@);
        let cmd = &context.commands[id];
        if cmd.code == ':' {
            if let CommandData::Label(Some(label)) = &cmd.data {
                if context.label_to_command_map.contains_key(label.as_str()) {
                    let message = around_text("duplicate label `", label.as_str(), "'");
                    return semantic_error(&cmd.location, message.as_str());
                }
                let key = label.clone();
                context.label_to_command_map.insert(key, id);
            }
        }
        k += 1;
    }
    Ok(())
}

/// The commands among `order` that have two addresses.
pub open spec fn ranges_of(commands: Seq<CommandView>, order: Seq<usize>) -> Seq<usize> {
    order.filter(|i: usize| commands[i as int].addr2 is Some)
}

/// Takes note of the commands of the tree that have two addresses.
pub fn populate_range_commands(head: Option<usize>, context: &mut ProcessingContext)
    requires
        heads_tree(old(context)@.commands, head),
    ensures
        ({
            let commands = old(context)@.commands;
            let found = ranges_of(commands, visit(commands, head));
            final(context)@ == (ContextView {
                range_commands: old(context)@.range_commands + found,
                ..old(context)@
            })
        }),
{
    let order = visit_order(&context.commands, head);
    let ghost commands = context@.commands;
    let mut k: usize = 0;
    assert(ranges_of(commands, order@.take(0)) =~= Seq::empty()) by {
        reveal(Seq::filter);
    }
    assert(context@.range_commands =~= old(context)@.range_commands + ranges_of(
        commands,
        order@.take(0),
    ));
    while k < order.len()
        invariant
            k <= order.len(),
            forall|j: int| 0 <= j < order.len() ==> #[trigger] order[j] < commands.len(),
            commands == old(context)@.commands,
            order@ == visit(commands, head),
            context@ == (ContextView {
                range_commands: old(context)@.range_commands + ranges_of(
                    commands,
                    order@.take(k as int),
                ),
                ..old(context)@
            }),
        decreases order.len() - k,
    {
        let id: usize = order[k];
        assert(commands[id as int] == context.commands@[id as int]@);
        proof {
            reveal(Seq::filter);
            assert(order@.take(k + 1).drop_last() =~= order@.take(k as int));
        }
        if context.commands[id].addr2.is_some() {
            context.range_commands.push(id);
        }
        k += 1;
        assert(context@.range_commands =~= old(context)@.range_commands + ranges_of(
            commands,
            order@.take(k as int),
        ));
    }
    assert(order@.take(k as int) =~= order@);
}

/// Whether the command is a branch.
pub open spec fn is_branch(cmd: CommandView) -> bool {
    cmd.code == 't' || cmd.code == 'T' || cmd.code == 'b'
}

/// The error that `label` is not defined.
pub open spec fn undefined_label(cmd: CommandView, label: Seq<char>) -> ErrorView {
    located_error(cmd.location, "undefined label `"@ + label + "'"@, 1)
}

/// What the argument of the command becomes when labels are replaced by the commands that
/// they stand for, or the label that stands for none.
pub open spec fn resolved_data(cmd: CommandView, labels: Map<Seq<char>, usize>) -> Result<
    DataView,
    Seq<char>,
> {
    match cmd.data {
        DataView::Label(Some(label)) => if !is_branch(cmd) {
            Ok(cmd.data)
        } else if labels.contains_key(label) {
            Ok(DataView::BranchTarget(Some(labels[label])))
        } else {
            Err(label)
        },
        DataView::Label(None) => if is_branch(cmd) {
            Ok(DataView::BranchTarget(None))
        } else {
            Ok(cmd.data)
        },
        _ => Ok(cmd.data),
    }
}

/// The commands, with another argument of the one at `i`.
pub open spec fn with_data(commands: Seq<CommandView>, i: usize, data: DataView) -> Seq<CommandView> {
    commands.update(i as int, CommandView { data, ..commands[i as int] })
}

/// What resolving the branches among the commands `order` gives: nothing or an error, and the
/// commands then. A branch to a label that is not defined is left without an argument.
pub open spec fn resolved_of(
    commands: Seq<CommandView>,
    order: Seq<usize>,
    labels: Map<Seq<char>, usize>,
) -> (Result<(), ErrorView>, Seq<CommandView>)
    decreases order.len(),
{
    if order.len() == 0 {
        (Ok(()), commands)
    } else {
        let cmd = commands[order[0] as int];
        match resolved_data(cmd, labels) {
            Ok(data) => resolved_of(
                with_data(commands, order[0], data),
                order.drop_first(),
                labels,
            ),
            Err(label) => (
                Err(undefined_label(cmd, label)),
                with_data(commands, order[0], DataView::Empty),
            ),
        }
    }
}

/// Replaces the argument of one command.
fn set_data(id: usize, data: CommandData, commands: &mut Vec<Command>)
    requires
        id < old(commands).len(),
    ensures
        commands_view(final(commands)@) == with_data(commands_view(old(commands)@), id, data@),
{
    commands[id].data = data;
    assert(commands_view(commands@) =~= with_data(commands_view(old(commands)@), id, data@));
}

/// The new argument of the command if it is a branch, or the error that its label is not
/// defined.
fn branch_data(cmd: &Command, labels: &StringHashMap<usize>) -> (result: SedResult<
    Option<CommandData>,
>)
    ensures
        match result {
            Ok(Some(data)) => resolved_data(cmd@, labels@) == Ok::<DataView, Seq<char>>(data@),
            Ok(None) => resolved_data(cmd@, labels@) == Ok::<DataView, Seq<char>>(cmd@.data),
            Err(e) => {
                &&& resolved_data(cmd@, labels@) is Err
                &&& e@ == undefined_label(cmd@, resolved_data(cmd@, labels@)->Err_0)
            },
        },
{
    // Only for 't', 'T', or 'b' commands:
    if cmd.code != 't' && cmd.code != 'T' && cmd.code != 'b' {
        return Ok(None);
    }
    match &cmd.data {
        CommandData::Label(Some(label)) => match labels.get(label.as_str()) {
            Some(target) => Ok(Some(CommandData::BranchTarget(Some(*target)))),
            None => {
                let message = around_text("undefined label `", label.as_str(), "'");
                semantic_error(&cmd.location, message.as_str())
            },
        },
        CommandData::Label(None) => Ok(Some(CommandData::BranchTarget(None))),
        _ => Ok(None),
    }
}

/// Resolves the branches among the commands `order`.
fn resolve_all(order: &Vec<usize>, commands: &mut Vec<Command>, labels: &StringHashMap<usize>) -> (result:
    SedResult<()>)
    requires
        forall|k: int| 0 <= k < order.len() ==> #[trigger] order[k] < old(commands).len(),
    ensures
        viewed(result) == resolved_of(commands_view(old(commands)@), order@, labels@).0,
        commands_view(final(commands)@) == resolved_of(
            commands_view(old(commands)@),
            order@,
            labels@,
        ).1,
{
    let ghost spec = resolved_of(commands_view(commands@), order@, labels@);
    let mut k: usize = 0;
    assert(order@.skip(0) =~= order@);
    while k < order.len()
        invariant
            k <= order.len(),
            commands.len() == old(commands).len(),
            forall|j: int| 0 <= j < order.len() ==> #[trigger] order[j] < commands.len(),
            spec == resolved_of(commands_view(old(commands)@), order@, labels@),
            spec == resolved_of(commands_view(commands@), order@.skip(k as int), labels@),
        decreases order.len() - k,
    {
        let id: usize = order[k];
        let ghost before = commands_view(commands@);
        assert(order@.skip(k as int)[0] == id);
        assert(order@.skip(k as int).drop_first() =~= order@.skip(k + 1));
        assert(before[id as int] == commands@[id as int]@);
        match branch_data(&commands[id], labels) {
            Ok(Some(data)) => {
                set_data(id, data, commands);
            },
            Ok(None) => {
                assert(before =~= with_data(before, id, before[id as int].data));
            },
            Err(e) => {
                set_data(id, CommandData::Empty, commands);
                return Err(e);
            },
        }
        assert(commands_view(commands@).len() == before.len());
        k += 1;
    }
    Ok(())
}

/// Replaces the labels of the branches in the tree by the commands that they stand for. A
/// label that is not defined is an error.
pub fn resolve_branch_targets(head: Option<usize>, context: &mut ProcessingContext) -> (result:
    SedResult<()>)
    requires
        heads_tree(old(context)@.commands, head),
    ensures
        ({
            let before = old(context)@.commands;
            let (outcome, commands) = resolved_of(
                before,
                visit(before, head),
                old(context)@.labels,
            );
            &&& viewed(result) == outcome
            &&& final(context)@ == (ContextView { commands, ..old(context)@ })
        }),
{
    let order = visit_order(&context.commands, head);
    resolve_all(&order, &mut context.commands, &context.label_to_command_map)
}

/// Whether all labels stand for commands below `n`.
pub open spec fn labels_below(labels: Map<Seq<char>, usize>, n: nat) -> bool {
    forall|label: Seq<char>| #[trigger] labels.contains_key(label) ==> labels[label] < n
}

/// Taking note of labels of commands that there are keeps them standing for such.
pub proof fn lemma_labels_below(
    commands: Seq<CommandView>,
    order: Seq<usize>,
    labels: Map<Seq<char>, usize>,
    n: nat,
)
    requires
        labels_below(labels, n),
        all_below(order, n),
    ensures
        labels_below(labels_of(commands, order, labels).1, n),
    decreases order.len(),
{
    if order.len() > 0 {
        let later = order.drop_first();
        assert(all_below(later, n)) by {
            assert forall|k: int| 0 <= k < later.len() implies #[trigger] later[k] < n by {
                assert(order[k + 1] < n);
            }
        }
        assert(order[0] < n);
        match defined_label(commands[order[0] as int]) {
            Some(label) => {
                lemma_labels_below(commands, later, labels.insert(label, order[0]), n);
            },
            None => {
                lemma_labels_below(commands, later, labels, n);
            },
        }
    }
}

/// What resolving a branch can make of a command: nothing, or, if it is a branch, a branch to
/// a command that a label stands for.
pub open spec fn resolved_from(
    after: CommandView,
    before: CommandView,
    labels: Map<Seq<char>, usize>,
) -> bool {
    &&& after == (CommandView { data: after.data, ..before })
    &&& after.data != before.data ==> is_branch(before) && match after.data {
        DataView::Empty => true,
        DataView::BranchTarget(None) => true,
        DataView::BranchTarget(Some(t)) => exists|label: Seq<char>| #[trigger]
            labels.contains_key(label) && labels[label] == t,
        _ => false,
    }
}

/// Resolving branches changes nothing but the arguments of branches.
pub proof fn lemma_resolved(
    commands: Seq<CommandView>,
    order: Seq<usize>,
    labels: Map<Seq<char>, usize>,
)
    requires
        all_below(order, commands.len()),
    ensures
        resolved_of(commands, order, labels).1.len() == commands.len(),
        forall|i: int|
            0 <= i < commands.len() ==> resolved_from(
                #[trigger] resolved_of(commands, order, labels).1[i],
                commands[i],
                labels,
            ),
    decreases order.len(),
{
    if order.len() > 0 {
        let later = order.drop_first();
        assert(order[0] < commands.len());
        if let Ok(data) = resolved_data(commands[order[0] as int], labels) {
            let once = with_data(commands, order[0], data);
            assert(all_below(later, once.len())) by {
                assert forall|k: int| 0 <= k < later.len() implies #[trigger] later[k]
                    < once.len() by {
                    assert(order[k + 1] < commands.len());
                }
            }
            lemma_resolved(once, later, labels);
            let after = resolved_of(once, later, labels).1;
            assert forall|i: int| 0 <= i < commands.len() implies resolved_from(
                #[trigger] after[i],
                commands[i],
                labels,
            ) by {
                assert(resolved_from(after[i], once[i], labels));
                assert(resolved_from(once[i], commands[i], labels));
            }
        }
    }
}

/// Whether all positions are below `n`.
pub open spec fn all_below(positions: Seq<usize>, n: nat) -> bool {
    forall|k: int| 0 <= k < positions.len() ==> #[trigger] positions[k] < n
}

/// The tree holds only commands that there are.
pub proof fn lemma_visit_in_range(commands: Seq<CommandView>, head: Option<usize>)
    ensures
        all_below(chain(commands, head), commands.len()),
        all_below(nested(commands, head), commands.len()),
        all_below(visit(commands, head), commands.len()),
    decreases ahead_of(commands, head),
{
    if let Some(h) = head {
        if h < commands.len() {
            lemma_visit_in_range(commands, following(commands, h));
            lemma_visit_in_range(commands, inner(commands, h));
            assert(all_below(seq![h], commands.len()));
        }
    }
}

/// Once branches are resolved, what blocks there are is still linked forward.
pub proof fn lemma_resolved_heads_blocks(
    commands: Seq<CommandView>,
    head: Option<usize>,
    labels: Map<Seq<char>, usize>,
)
    requires
        heads_tree(commands, head),
    ensures
        heads_blocks(resolved_of(commands, visit(commands, head), labels).1, head),
{
    let after = resolved_of(commands, visit(commands, head), labels).1;
    lemma_visit_in_range(commands, head);
    lemma_resolved(commands, visit(commands, head), labels);
    if let Some(h) = head {
        assert forall|i: int| h <= i < after.len() implies #[trigger] block_forward_at(after, i) by {
            assert(forward_at(commands, i));
            assert(resolved_from(after[i], commands[i], labels));
        }
    }
}

/// Whether the command at `i` is followed only by later commands, and its block, if it is a
/// `{`, holds only later ones.
pub open spec fn block_forward_at(commands: Seq<CommandView>, i: int) -> bool {
    &&& commands[i].next matches Some(n) ==> i < n < commands.len()
    &&& commands[i].code == '{' ==> (commands[i].data matches DataView::BranchTarget(Some(b))
        ==> i < b < commands.len())
}

/// Whether a chain can start with `head`: all from there on is followed only by later
/// commands, and so are blocks.
pub open spec fn heads_blocks(commands: Seq<CommandView>, head: Option<usize>) -> bool {
    head matches Some(h) ==> {
        &&& h < commands.len()
        &&& forall|i: int| h <= i < commands.len() ==> #[trigger] block_forward_at(commands, i)
    }
}

/// The first command of the block that the `{` at `i` opens, if there is one.
pub open spec fn block(commands: Seq<CommandView>, i: usize) -> Option<usize> {
    if commands[i as int].code == '{' {
        inner(commands, i)
    } else {
        None
    }
}

/// The last command of the chain that starts with `h`.
pub open spec fn tail(commands: Seq<CommandView>, h: usize) -> usize
    decreases ahead_of(commands, Some(h)),
{
    if h < commands.len() && following(commands, h) is Some {
        tail(commands, following(commands, h)->0)
    } else {
        h
    }
}

/// What comes behind the command at `i`: the one that follows it, or, at the end of a chain,
/// what comes behind that chain.
pub open spec fn behind(commands: Seq<CommandView>, i: usize, outer: Option<usize>) -> Option<usize> {
    match following(commands, i) {
        Some(n) => Some(n),
        None => outer,
    }
}

/// The links from the ends of the blocks in the chain that starts with `head` to what comes
/// behind each block, when `outer` comes behind the chain.
pub open spec fn chain_splices(commands: Seq<CommandView>, head: Option<usize>, outer: Option<usize>) -> Seq<
    (usize, Option<usize>),
>
    decreases ahead_of(commands, head),
{
    match head {
        Some(h) => if h < commands.len() {
            let own = match block(commands, h) {
                Some(b) => seq![(tail(commands, b), behind(commands, h, outer))],
                None => Seq::empty(),
            };
            own + chain_splices(commands, following(commands, h), outer)
        } else {
            Seq::empty()
        },
        None => Seq::empty(),
    }
}

/// The links from the ends of the blocks inside the blocks of the chain that starts with
/// `head`.
pub open spec fn nested_splices(
    commands: Seq<CommandView>,
    head: Option<usize>,
    outer: Option<usize>,
) -> Seq<(usize, Option<usize>)>
    decreases ahead_of(commands, head), 0nat,
{
    match head {
        Some(h) => if h < commands.len() {
            nested_splices(commands, following(commands, h), outer) + splices(
                commands,
                block(commands, h),
                behind(commands, h, outer),
            )
        } else {
            Seq::empty()
        },
        None => Seq::empty(),
    }
}

/// The links from the ends of all blocks in the tree that starts with `head` to what comes
/// behind each block, when `outer` comes behind the tree.
pub open spec fn splices(commands: Seq<CommandView>, head: Option<usize>, outer: Option<usize>) -> Seq<
    (usize, Option<usize>),
>
    decreases ahead_of(commands, head), 1nat,
{
    chain_splices(commands, head, outer) + nested_splices(commands, head, outer)
}

/// The links of several trees, each with what comes behind it: those of the last tree come
/// first.
pub open spec fn splices_all(commands: Seq<CommandView>, trees: Seq<(usize, Option<usize>)>) -> Seq<
    (usize, Option<usize>),
>
    decreases trees.len(),
{
    if trees.len() == 0 {
        Seq::empty()
    } else {
        splices(commands, Some(trees.last().0), trees.last().1) + splices_all(
            commands,
            trees.drop_last(),
        )
    }
}

/// The commands, with what follows the one at `i` replaced.
pub open spec fn with_next(commands: Seq<CommandView>, i: usize, next: Option<usize>) -> Seq<CommandView> {
    commands.update(i as int, CommandView { next, ..commands[i as int] })
}

/// The commands with the given links.
pub open spec fn spliced(commands: Seq<CommandView>, links: Seq<(usize, Option<usize>)>) -> Seq<CommandView>
    decreases links.len(),
{
    if links.len() == 0 {
        commands
    } else {
        spliced(with_next(commands, links[0].0, links[0].1), links.drop_first())
    }
}

/// The commands of the tree that starts with `head`, with the end of every block linked to
/// what comes behind the block.
pub open spec fn patched(commands: Seq<CommandView>, head: Option<usize>) -> Seq<CommandView> {
    spliced(commands, splices(commands, head, None))
}

/// Whether the links are between commands below `n`.
pub open spec fn links_below(links: Seq<(usize, Option<usize>)>, n: nat) -> bool {
    forall|k: int|
        0 <= k < links.len() ==> (#[trigger] links[k]).0 < n && (links[k].1 matches Some(t)
            ==> t < n)
}

/// The last command of a chain is a command that there is.
proof fn lemma_tail_below(commands: Seq<CommandView>, h: usize)
    requires
        h < commands.len(),
    ensures
        tail(commands, h) < commands.len(),
    decreases ahead_of(commands, Some(h)),
{
    if let Some(n) = following(commands, h) {
        lemma_tail_below(commands, n);
    }
}

/// The ends of blocks are linked only to commands that there are.
pub proof fn lemma_splices_below(
    commands: Seq<CommandView>,
    head: Option<usize>,
    outer: Option<usize>,
)
    requires
        outer matches Some(o) ==> o < commands.len(),
    ensures
        links_below(chain_splices(commands, head, outer), commands.len()),
        links_below(nested_splices(commands, head, outer), commands.len()),
        links_below(splices(commands, head, outer), commands.len()),
    decreases ahead_of(commands, head),
{
    if let Some(h) = head {
        if h < commands.len() {
            lemma_splices_below(commands, following(commands, h), outer);
            lemma_splices_below(commands, block(commands, h), behind(commands, h, outer));
            if let Some(b) = block(commands, h) {
                lemma_tail_below(commands, b);
            }
        }
    }
}

/// Linking the ends of blocks changes nothing but what follows commands.
pub proof fn lemma_spliced(commands: Seq<CommandView>, links: Seq<(usize, Option<usize>)>)
    requires
        links_below(links, commands.len()),
    ensures
        spliced(commands, links).len() == commands.len(),
        forall|i: int|
            0 <= i < commands.len() ==> {
                let after = #[trigger] spliced(commands, links)[i];
                &&& after == (CommandView { next: after.next, ..commands[i] })
                &&& after.next == commands[i].next || (after.next matches Some(t) ==> t
                    < commands.len())
            },
    decreases links.len(),
{
    if links.len() > 0 {
        let once = with_next(commands, links[0].0, links[0].1);
        let later = links.drop_first();
        assert(links_below(later, once.len())) by {
            assert forall|k: int| 0 <= k < later.len() implies (#[trigger] later[k]).0 < once.len()
                && (later[k].1 matches Some(t) ==> t < once.len()) by {
                assert(links[k + 1].0 < commands.len());
            }
        }
        lemma_spliced(once, later);
    }
}

/// The last command of the chain that starts with `h`.
fn find_tail(commands: &Vec<Command>, h: usize) -> (last: usize)
    requires
        heads_blocks(commands_view(commands@), Some(h)),
    ensures
        last == tail(commands_view(commands@), h),
        last < commands.len(),
{
    let ghost view = commands_view(commands@);
    let mut last: usize = h;
    loop
        invariant
            view == commands_view(commands@),
            h <= last < commands.len(),
            heads_blocks(view, Some(h)),
            tail(view, last) == tail(view, h),
        decreases commands.len() - last,
    {
        assert(block_forward_at(view, last as int));
        assert(view[last as int] == commands@[last as int]@);
        match commands[last].next {
            Some(n) => {
                last = n;
            },
            None => {
                return last;
            },
        }
    }
}

/// How many commands the tree of blocks that starts with `head` holds.
spec fn size(commands: Seq<CommandView>, head: Option<usize>) -> nat
    decreases ahead_of(commands, head),
{
    match head {
        Some(h) => if h < commands.len() {
            1 + size(commands, following(commands, h)) + size(commands, block(commands, h))
        } else {
            0
        },
        None => 0,
    }
}

/// How many commands several trees hold.
spec fn size_all(commands: Seq<CommandView>, trees: Seq<(usize, Option<usize>)>) -> nat
    decreases trees.len(),
{
    if trees.len() == 0 {
        0
    } else {
        size(commands, Some(trees.last().0)) + size_all(commands, trees.drop_last())
    }
}

/// The links from the ends of all blocks in the tree to what comes behind each block.
fn find_splices(commands: &Vec<Command>, head: Option<usize>) -> (links: Vec<
    (usize, Option<usize>),
>)
    requires
        heads_blocks(commands_view(commands@), head),
    ensures
        links@ == splices(commands_view(commands@), head, None),
        forall|k: int| 0 <= k < links.len() ==> (#[trigger] links[k]).0 < commands.len(),
{
    let ghost view = commands_view(commands@);
    let ghost total = splices(view, head, None);
    let ghost base: int = match head {
        Some(h) => h as int,
        None => view.len() as int,
    };
    let mut links: Vec<(usize, Option<usize>)> = Vec::new();
    // The chains to walk, each with what comes behind it
    let mut pending: Vec<(usize, Option<usize>)> = Vec::new();
    let mut cur: Option<usize> = head;
    let mut outer: Option<usize> = None;
    assert(total =~= links@ + chain_splices(view, cur, outer) + nested_splices(view, cur, outer)
        + splices_all(view, pending@));
    loop
        invariant
            view == commands_view(commands@),
            total == splices(view, head, None),
            0 <= base,
            forall|i: int| base <= i < view.len() ==> #[trigger] block_forward_at(view, i),
            cur matches Some(c) ==> base <= c < view.len(),
            forall|k: int|
                0 <= k < pending.len() ==> base <= (#[trigger] pending[k]).0 < view.len(),
            forall|k: int| 0 <= k < links.len() ==> (#[trigger] links[k]).0 < commands.len(),
            links@ + chain_splices(view, cur, outer) + nested_splices(view, cur, outer)
                + splices_all(view, pending@) == total,
        decreases size(view, cur) + size_all(view, pending@), pending.len(),
    {
        match cur {
            None => {
                let ghost before = pending@;
                match pending.pop() {
                    None => {
                        assert(links@ =~= total);
                        return links;
                    },
                    Some((head, after)) => {
                        assert(before.last() == (head, after));
                        assert(before[before.len() - 1].0 < view.len());
                        cur = Some(head);
                        outer = after;
                        assert(links@ + chain_splices(view, cur, outer) + nested_splices(
                            view,
                            cur,
                            outer,
                        ) + splices_all(view, pending@) =~= total);
                    },
                }
            },
            Some(c) => {
                let ghost linked = links@;
                let ghost waiting = pending@;
                assert(block_forward_at(view, c as int));
                assert(view[c as int] == commands@[c as int]@);
                let next = commands[c].next;
                let target = match next {
                    Some(n) => Some(n),
                    None => outer,
                };
                let body: Option<usize> = match &commands[c].data {
                    CommandData::BranchTarget(Some(b)) => if commands[c].code == '{' {
                        Some(*b)
                    } else {
                        None
                    },
                    _ => None,
                };
                assert(next == following(view, c));
                assert(target == behind(view, c, outer));
                assert(body == block(view, c));
                if let Some(b) = body {
                    let last = find_tail(commands, b);
                    links.push((last, target));
                    pending.push((b, target));
                    assert(pending@.drop_last() =~= waiting);
                } else {
                    assert(splices(view, None, target) =~= Seq::empty());
                }
                cur = next;
                assert(links@ + chain_splices(view, cur, outer) + nested_splices(
                    view,
                    cur,
                    outer,
                ) + splices_all(view, pending@) =~= linked + chain_splices(view, Some(c), outer) + (
                nested_splices(view, cur, outer) + splices(view, body, target)) + splices_all(
                    view,
                    waiting,
                ));
            },
        }
    }
}

/// Links the end of every block in the tree to what comes behind the block: the command that
/// follows the `{`, or, if none does, what comes behind the block around it.
///
/// All links are found before any is made, so that making one does not hide what follows
/// another block.
pub fn patch_block_endings(head: Option<usize>, commands: &mut Vec<Command>)
    requires
        heads_blocks(commands_view(old(commands)@), head),
    ensures
        commands_view(final(commands)@) == patched(commands_view(old(commands)@), head),
        final(commands).len() == old(commands).len(),
{
    let links = find_splices(commands, head);
    let ghost spec = patched(commands_view(commands@), head);
    let mut k: usize = 0;
    assert(links@.skip(0) =~= links@);
    while k < links.len()
        invariant
            k <= links.len(),
            commands.len() == old(commands).len(),
            forall|j: int| 0 <= j < links.len() ==> (#[trigger] links[j]).0 < commands.len(),
            spec == patched(commands_view(old(commands)@), head),
            spec == spliced(commands_view(commands@), links@.skip(k as int)),
        decreases links.len() - k,
    {
        let (last, target) = links[k];
        let ghost before = commands_view(commands@);
        assert(links@.skip(k as int)[0] == (last, target));
        assert(links@.skip(k as int).drop_first() =~= links@.skip(k + 1));
        commands[last].next = target;
        assert(commands_view(commands@) =~= with_next(before, last, target));
        k += 1;
    }
}

} // verus!
