//! What the labels and links of a compiled script come to.

use crate::command::{CommandView, ContextView};
use crate::compiler::blocks::{
    block_ends_at, ends_block, exit_of, law_blocks_lead_on, leads, lemma_apart, lemma_tail_range,
    lemma_within_range, unshared, within,
};
use crate::compiler::graph::{
    ahead_of, all_below, behind, block, chain, defined_label, following, inner, labels_of, lemma_resolved,
    lemma_visit_in_range, nested, patched, resolved_data, resolved_from, resolved_of, tail, visit,
    with_data,
};
use crate::compiler::shape::{blocks_only, one_tree};
use vstd::prelude::*;

verus! {

/// Walking a tree comes past all its commands.
proof fn lemma_visited(commands: Seq<CommandView>, head: Option<usize>, x: usize)
    requires
        within(commands, head, x),
    ensures
        visit(commands, head).contains(x),
    decreases ahead_of(commands, head),
{
    let h = head->0;
    let next = following(commands, h);
    let all = visit(commands, head);
    let own = chain(commands, head).len();
    if x == h {
        assert(all[0] == x);
    } else if within(commands, next, x) {
        lemma_visited(commands, next, x);
        let k = choose|k: int| 0 <= k < visit(commands, next).len() && visit(commands, next)[k] == x;
        let count = chain(commands, next).len();
        if k < count {
            assert(all[k + 1] == x);
        } else {
            assert(all[own + (k - count)] == x);
        }
    } else {
        let body = inner(commands, h);
        lemma_within_range(commands, block(commands, h), x);
        lemma_visited(commands, body, x);
        let k = choose|k: int| 0 <= k < visit(commands, body).len() && visit(commands, body)[k] == x;
        assert(all[own + nested(commands, next).len() + k] == x);
    }
}

/// Whether all positions are from `n` on.
spec fn all_from(positions: Seq<usize>, n: int) -> bool {
    forall|k: int| 0 <= k < positions.len() ==> n <= #[trigger] positions[k]
}

/// Walking a tree comes past no command before its first one.
proof fn lemma_visited_from(commands: Seq<CommandView>, head: Option<usize>, base: int)
    requires
        head matches Some(h) ==> base <= h,
    ensures
        all_from(chain(commands, head), base),
        all_from(nested(commands, head), base),
        all_from(visit(commands, head), base),
    decreases ahead_of(commands, head),
{
    if let Some(h) = head {
        if h < commands.len() {
            lemma_visited_from(commands, following(commands, h), base);
            lemma_visited_from(commands, inner(commands, h), base);
            assert(all_from(seq![h], base));
        }
    }
}

/// Walking a tree comes past no other commands than its own.
proof fn lemma_visited_within(
    commands: Seq<CommandView>,
    head: Option<usize>,
    base: int,
    k: int,
)
    requires
        blocks_only(commands, base),
        head matches Some(h) ==> base <= h,
        0 <= k < visit(commands, head).len(),
    ensures
        within(commands, head, visit(commands, head)[k]),
    decreases ahead_of(commands, head),
{
    if let Some(h) = head {
        if h < commands.len() {
            let next = following(commands, h);
            let body = inner(commands, h);
            assert(body == block(commands, h));
            let own = chain(commands, head).len();
            let later = nested(commands, next).len();
            let x = visit(commands, head)[k];
            if k == 0 {
                assert(x == h);
            } else if k < own {
                assert(x == visit(commands, next)[k - 1]);
                lemma_visited_within(commands, next, base, k - 1);
            } else if k < own + later {
                assert(x == visit(commands, next)[k - 1]);
                lemma_visited_within(commands, next, base, k - 1);
            } else {
                assert(x == visit(commands, body)[k - own - later]);
                lemma_visited_within(commands, body, base, k - own - later);
            }
        }
    }
}

/// Whether no position of one list is in the other.
spec fn apart(a: Seq<usize>, b: Seq<usize>) -> bool {
    forall|i: int, j: int|
        0 <= i < a.len() && 0 <= j < b.len() ==> #[trigger] a[i] != #[trigger] b[j]
}

/// Walking a tree comes past each command once.
proof fn lemma_visited_once(commands: Seq<CommandView>, head: Option<usize>, base: int)
    requires
        unshared(commands, base),
        blocks_only(commands, base),
        0 <= base,
        head matches Some(h) ==> base <= h,
    ensures
        visit(commands, head).no_duplicates(),
    decreases ahead_of(commands, head),
{
    if let Some(h) = head {
        if h < commands.len() {
            let next = following(commands, h);
            let body = inner(commands, h);
            assert(body == block(commands, h));
            lemma_visited_once(commands, next, base);
            lemma_visited_once(commands, body, base);
            let first = chain(commands, next);
            let second = nested(commands, next);
            let third = visit(commands, body);
            let both = visit(commands, next);
            assert forall|i: int, j: int| 0 <= i < first.len() && 0 <= j < second.len() implies
                #[trigger] first[i] != #[trigger] second[j] by {
                assert(both[i] == first[i]);
                assert(both[first.len() + j] == second[j]);
            }
            assert(first.no_duplicates()) by {
                assert forall|i: int, j: int|
                    0 <= i < first.len() && 0 <= j < first.len() && i != j implies first[i]
                    != first[j] by {
                    assert(both[i] == first[i] && both[j] == first[j]);
                }
            }
            assert(second.no_duplicates()) by {
                assert forall|i: int, j: int|
                    0 <= i < second.len() && 0 <= j < second.len() && i != j implies second[i]
                    != second[j] by {
                    assert(both[first.len() + i] == second[i]);
                    assert(both[first.len() + j] == second[j]);
                }
            }
            assert forall|i: int, j: int| 0 <= i < both.len() && 0 <= j < third.len() implies
                #[trigger] both[i] != #[trigger] third[j] by {
                lemma_visited_within(commands, next, base, i);
                lemma_visited_within(commands, body, base, j);
                lemma_apart(commands, base, h, both[i]);
            }
            assert(apart(first, third)) by {
                assert forall|i: int, j: int|
                    0 <= i < first.len() && 0 <= j < third.len() implies #[trigger] first[i]
                    != #[trigger] third[j] by {
                    assert(both[i] == first[i]);
                }
            }
            assert(apart(second, third)) by {
                assert forall|i: int, j: int|
                    0 <= i < second.len() && 0 <= j < third.len() implies #[trigger] second[i]
                    != #[trigger] third[j] by {
                    assert(both[first.len() + i] == second[i]);
                }
            }
            assert forall|i: int| 0 <= i < both.len() implies #[trigger] both[i] != h by {
                lemma_visited_within(commands, next, base, i);
                lemma_within_range(commands, next, both[i]);
            }
            assert forall|i: int| 0 <= i < third.len() implies #[trigger] third[i] != h by {
                lemma_visited_within(commands, body, base, i);
                lemma_within_range(commands, body, third[i]);
            }
            assert forall|i: int| 0 <= i < first.len() implies #[trigger] first[i] != h by {
                assert(both[i] == first[i]);
            }
            assert forall|i: int| 0 <= i < second.len() implies #[trigger] second[i] != h by {
                assert(both[first.len() + i] == second[i]);
            }
            assert(visit(commands, head) =~= (seq![h] + first) + (second + third));
        }
    }
}

/// Walking the tree of a script comes past each of its commands exactly once.
pub proof fn law_each_command_is_visited_once(
    commands: Seq<CommandView>,
    head: Option<usize>,
    base: int,
)
    requires
        0 <= base <= commands.len() <= usize::MAX,
        one_tree(commands, head, base),
    ensures
        visit(commands, head).no_duplicates(),
        forall|x: usize| #[trigger]
            visit(commands, head).contains(x) <==> base <= x < commands.len(),
{
    reveal(one_tree);
    lemma_visited_once(commands, head, base);
    lemma_visit_in_range(commands, head);
    lemma_visited_from(commands, head, base);
    assert forall|x: usize| #[trigger]
        visit(commands, head).contains(x) <==> base <= x < commands.len() by {
        if base <= x < commands.len() {
            assert(within(commands, head, x));
            lemma_visited(commands, head, x);
        }
    }
}

/// The label that the command at a position defines.
pub open spec fn label_at(commands: Seq<CommandView>, order: Seq<usize>, k: int) -> Option<Seq<char>> {
    defined_label(commands[order[k] as int])
}

/// Whether each label is new and defined once among the commands `order`.
pub open spec fn labels_new(
    commands: Seq<CommandView>,
    order: Seq<usize>,
    labels: Map<Seq<char>, usize>,
) -> bool {
    &&& forall|k: int|
        0 <= k < order.len() ==> (#[trigger] label_at(commands, order, k) matches Some(label)
            ==> !labels.contains_key(label))
    &&& forall|j: int, k: int|
        0 <= j < k < order.len() && #[trigger] label_at(commands, order, j) is Some
            ==> #[trigger] label_at(commands, order, k) != label_at(commands, order, j)
}

/// Taking note of labels succeeds exactly when each is new and defined once. Then each stands
/// for the command that defines it, those known before stand for what they did, and there are
/// no others.
pub proof fn law_labels_stand_for_definitions(
    commands: Seq<CommandView>,
    order: Seq<usize>,
    labels: Map<Seq<char>, usize>,
)
    ensures
        ({
            let (result, after) = labels_of(commands, order, labels);
            &&& result is Ok <==> labels_new(commands, order, labels)
            &&& result is Ok ==> {
                &&& forall|k: int|
                    0 <= k < order.len() ==> (#[trigger] label_at(
                        commands,
                        order,
                        k,
                    ) matches Some(label) ==> after.contains_key(label) && after[label] == order[k])
                &&& forall|label: Seq<char>| #[trigger]
                    labels.contains_key(label) ==> after.contains_key(label) && after[label]
                        == labels[label]
                &&& forall|label: Seq<char>| #[trigger]
                    after.contains_key(label) ==> labels.contains_key(label) || defines(
                        commands,
                        order,
                        label,
                    )
            }
        }),
    decreases order.len(),
{
    if order.len() > 0 {
        let later = order.drop_first();
        let own = label_at(commands, order, 0);
        assert forall|k: int| 0 <= k < later.len() implies #[trigger] label_at(commands, later, k)
            == label_at(commands, order, k + 1) by {}
        assert forall|k: int| 0 < k < order.len() implies #[trigger] label_at(commands, order, k)
            == label_at(commands, later, k - 1) by {}
        let known = match own {
            Some(label) => labels.insert(label, order[0]),
            None => labels,
        };
        law_labels_stand_for_definitions(commands, later, known);
        let (result, after) = labels_of(commands, later, known);
        if own is Some && labels.contains_key(own->0) {
            assert(!labels_new(commands, order, labels));
        } else {
            lemma_labels_new_step(commands, order, labels);
            if result is Ok {
                assert forall|k: int| 0 <= k < order.len() implies (
                #[trigger] label_at(commands, order, k) matches Some(label)
                    ==> after.contains_key(label) && after[label] == order[k]) by {
                    if k > 0 {
                        assert(label_at(commands, later, k - 1) == label_at(commands, order, k));
                    } else if own is Some {
                        assert(known.contains_key(own->0));
                    }
                }
                assert forall|label: Seq<char>| #[trigger] labels.contains_key(label) implies
                    after.contains_key(label) && after[label] == labels[label] by {
                    assert(known.contains_key(label));
                }
                assert forall|label: Seq<char>| #[trigger] after.contains_key(label) implies
                    labels.contains_key(label) || defines(commands, order, label) by {
                    if known.contains_key(label) {
                        if !labels.contains_key(label) {
                            assert(label_at(commands, order, 0) == Some(label));
                        }
                    } else {
                        assert(defines(commands, later, label));
                        let k = choose|k: int|
                            0 <= k < later.len() && #[trigger] label_at(commands, later, k)
                                == Some(label);
                        assert(label_at(commands, order, k + 1) == Some(label));
                    }
                }
            }
        }
    }
}

/// Whether a command among `order` defines the label.
pub open spec fn defines(commands: Seq<CommandView>, order: Seq<usize>, label: Seq<char>) -> bool {
    exists|k: int| 0 <= k < order.len() && #[trigger] label_at(commands, order, k) == Some(label)
}

/// If the first label is new, the others must be so beside it.
proof fn lemma_labels_new_step(
    commands: Seq<CommandView>,
    order: Seq<usize>,
    labels: Map<Seq<char>, usize>,
)
    requires
        order.len() > 0,
        label_at(commands, order, 0) matches Some(label) ==> !labels.contains_key(label),
    ensures
        labels_new(commands, order, labels) <==> labels_new(
            commands,
            order.drop_first(),
            match label_at(commands, order, 0) {
                Some(label) => labels.insert(label, order[0]),
                None => labels,
            },
        ),
{
    let later = order.drop_first();
    let own = label_at(commands, order, 0);
    let known = match own {
        Some(label) => labels.insert(label, order[0]),
        None => labels,
    };
    assert forall|k: int| 0 <= k < later.len() implies #[trigger] label_at(commands, later, k)
        == label_at(commands, order, k + 1) by {}
    assert forall|k: int| 0 < k < order.len() implies #[trigger] label_at(commands, order, k)
        == label_at(commands, later, k - 1) by {}
    if labels_new(commands, order, labels) {
        assert forall|k: int| 0 <= k < later.len() implies (#[trigger] label_at(
            commands,
            later,
            k,
        ) matches Some(label) ==> !known.contains_key(label)) by {
            assert(label_at(commands, order, k + 1) == label_at(commands, later, k));
        }
        assert forall|j: int, k: int|
            0 <= j < k < later.len() && #[trigger] label_at(commands, later, j) is Some implies
            #[trigger] label_at(commands, later, k) != label_at(commands, later, j) by {
            assert(label_at(commands, order, j + 1) == label_at(commands, later, j));
            assert(label_at(commands, order, k + 1) == label_at(commands, later, k));
        }
    }
    if labels_new(commands, later, known) {
        assert forall|k: int| 0 <= k < order.len() implies (#[trigger] label_at(
            commands,
            order,
            k,
        ) matches Some(label) ==> !labels.contains_key(label)) by {
            if k > 0 {
                assert(label_at(commands, later, k - 1) == label_at(commands, order, k));
            }
        }
        assert forall|j: int, k: int|
            0 <= j < k < order.len() && #[trigger] label_at(commands, order, j) is Some implies
            #[trigger] label_at(commands, order, k) != label_at(commands, order, j) by {
            assert(label_at(commands, later, k - 1) == label_at(commands, order, k));
            if j > 0 {
                assert(label_at(commands, later, j - 1) == label_at(commands, order, j));
            }
        }
    }
}

/// The command with its label, if it is a branch, replaced by what that stands for.
pub open spec fn resolved_command(cmd: CommandView, labels: Map<Seq<char>, usize>) -> CommandView {
    match resolved_data(cmd, labels) {
        Ok(data) => CommandView { data, ..cmd },
        Err(_) => cmd,
    }
}

/// Resolving branches succeeds exactly when each of them names a known label or none. Then
/// each command among `order` is resolved, and no other is changed.
pub proof fn law_branches_are_resolved(
    commands: Seq<CommandView>,
    order: Seq<usize>,
    labels: Map<Seq<char>, usize>,
)
    requires
        commands.len() <= usize::MAX,
        all_below(order, commands.len()),
    ensures
        ({
            let (result, after) = resolved_of(commands, order, labels);
            &&& result is Ok <==> forall|k: int|
                0 <= k < order.len() ==> resolved_data(
                    commands[#[trigger] order[k] as int],
                    labels,
                ) is Ok
            &&& result is Ok ==> {
                &&& after.len() == commands.len()
                &&& forall|i: int|
                    0 <= i < commands.len() ==> #[trigger] after[i] == if order.contains(
                        i as usize,
                    ) {
                        resolved_command(commands[i], labels)
                    } else {
                        commands[i]
                    }
            }
        }),
    decreases order.len(),
{
    if order.len() > 0 {
        let later = order.drop_first();
        let own = order[0] as int;
        assert(order[0] < commands.len());
        if let Ok(data) = resolved_data(commands[own], labels) {
            let once = with_data(commands, order[0], data);
            assert(all_below(later, once.len())) by {
                assert forall|k: int| 0 <= k < later.len() implies #[trigger] later[k]
                    < once.len() by {
                    assert(order[k + 1] < commands.len());
                }
            }
            law_branches_are_resolved(once, later, labels);
            let (result, after) = resolved_of(once, later, labels);
            assert forall|i: int| 0 <= i < commands.len() implies {
                &&& resolved_data(#[trigger] once[i], labels) is Ok <==> resolved_data(
                    commands[i],
                    labels,
                ) is Ok
                &&& i == own ==> resolved_command(once[i], labels) == once[i]
            } by {}
            if result is Ok {
                assert forall|k: int| 0 <= k < order.len() implies resolved_data(
                    commands[#[trigger] order[k] as int],
                    labels,
                ) is Ok by {
                    assert(order[k] < commands.len());
                    if k > 0 {
                        assert(later[k - 1] == order[k]);
                        assert(resolved_data(once[later[k - 1] as int], labels) is Ok);
                    }
                }
                assert forall|i: int| 0 <= i < commands.len() implies #[trigger] after[i]
                    == if order.contains(i as usize) {
                    resolved_command(commands[i], labels)
                } else {
                    commands[i]
                } by {
                    if later.contains(i as usize) {
                        let k = choose|k: int| 0 <= k < later.len() && later[k] == i as usize;
                        assert(order[k + 1] == i as usize);
                    } else if order.contains(i as usize) {
                        let k = choose|k: int| 0 <= k < order.len() && order[k] == i as usize;
                        if k > 0 {
                            assert(later[k - 1] == i as usize);
                        }
                    }
                    assert(order.contains(order[0]));
                }
            } else {
                let k = choose|k: int|
                    0 <= k < later.len() && !(resolved_data(
                        once[#[trigger] later[k] as int],
                        labels,
                    ) is Ok);
                assert(order[k + 1] == later[k]);
                assert(once[later[k] as int] == once[order[k + 1] as int]);
                assert(order[k + 1] < commands.len());
            }
        }
    }
}

/// Whether commands lead to the same ones in both sequences.
spec fn same_links(a: Seq<CommandView>, b: Seq<CommandView>) -> bool {
    &&& a.len() == b.len()
    &&& forall|i: usize| i < a.len() ==> #[trigger] following(a, i) == following(b, i)
    &&& forall|i: usize| i < a.len() ==> #[trigger] block(a, i) == block(b, i)
}

/// Chains with the same links have the same end.
proof fn lemma_same_ends(a: Seq<CommandView>, b: Seq<CommandView>, h: usize)
    requires
        same_links(a, b),
    ensures
        tail(a, h) == tail(b, h),
    decreases ahead_of(a, Some(h)),
{
    if h < a.len() {
        if let Some(n) = following(a, h) {
            lemma_same_ends(a, b, n);
        }
    }
}

/// Trees with the same links hold the same commands.
proof fn lemma_same_within(
    a: Seq<CommandView>,
    b: Seq<CommandView>,
    head: Option<usize>,
    x: usize,
)
    requires
        same_links(a, b),
    ensures
        within(a, head, x) == within(b, head, x),
    decreases ahead_of(a, head),
{
    if let Some(h) = head {
        if h < a.len() {
            lemma_same_within(a, b, following(a, h), x);
            lemma_same_within(a, b, block(a, h), x);
        }
    }
}

/// In trees with the same links, the same comes behind each command.
proof fn lemma_same_exits(
    a: Seq<CommandView>,
    b: Seq<CommandView>,
    head: Option<usize>,
    outer: Option<usize>,
    x: usize,
)
    requires
        same_links(a, b),
    ensures
        exit_of(a, head, outer, x) == exit_of(b, head, outer, x),
    decreases ahead_of(a, head),
{
    if let Some(h) = head {
        if h < a.len() {
            let next = following(a, h);
            let exit = behind(a, h, outer);
            lemma_same_within(a, b, next, x);
            lemma_same_exits(a, b, next, outer, x);
            lemma_same_exits(a, b, block(a, h), exit, x);
        }
    }
}

/// Whether `after` is what becomes of the tree of commands when its labels and links are seen
/// to.
///
/// Each label stands for the command that defines it. Each branch leads to the command that
/// its label stands for. The end of the block of each `{` leads to what comes behind that `{`.
/// Nothing else is changed.
#[verifier::opaque]
pub open spec fn linked_up(
    after: ContextView,
    tree: Seq<CommandView>,
    head: Option<usize>,
    base: int,
) -> bool {
    &&& after.commands.len() == tree.len()
    &&& forall|i: int| 0 <= i < base ==> #[trigger] after.commands[i] == tree[i]
    &&& forall|i: int|
        base <= i < tree.len() ==> {
            &&& resolved_data(tree[i], after.labels) is Ok
            &&& #[trigger] after.commands[i] == (CommandView {
                next: after.commands[i].next,
                ..resolved_command(tree[i], after.labels)
            })
            &&& defined_label(tree[i]) matches Some(label) ==> {
                &&& after.labels.contains_key(label)
                &&& after.labels[label] == i
            }
        }
    &&& forall|x: usize|
        base <= x < tree.len() ==> (#[trigger] block(tree, x) matches Some(b)
            ==> after.commands[tail(tree, b) as int].next == exit_of(tree, head, None, x))
    &&& forall|i: int|
        base <= i < tree.len() && !ends_block(tree, head, i)
            ==> (#[trigger] after.commands[i]).next == tree[i].next
}

/// Resolving branches changes no link to what follows, nor any block.
proof fn lemma_resolved_links(
    tree: Seq<CommandView>,
    order: Seq<usize>,
    labels: Map<Seq<char>, usize>,
)
    requires
        all_below(order, tree.len()),
    ensures
        same_links(tree, resolved_of(tree, order, labels).1),
{
    let branched = resolved_of(tree, order, labels).1;
    lemma_resolved(tree, order, labels);
    assert forall|i: usize| i < tree.len() implies #[trigger] following(tree, i) == following(
        branched,
        i,
    ) by {
        assert(resolved_from(branched[i as int], tree[i as int], labels));
    }
    assert forall|i: usize| i < tree.len() implies #[trigger] block(tree, i) == block(
        branched,
        i,
    ) by {
        assert(resolved_from(branched[i as int], tree[i as int], labels));
    }
}

/// Commands with the same links form a tree if the others do.
proof fn lemma_same_unshared(a: Seq<CommandView>, b: Seq<CommandView>, base: int)
    requires
        0 <= base,
        same_links(a, b),
        unshared(a, base),
    ensures
        unshared(b, base),
{
    assert forall|i: usize, x: usize| i < a.len() implies #[trigger] leads(b, i, x) == leads(
        a,
        i,
        x,
    ) by {
        assert(following(a, i) == following(b, i));
        assert(block(a, i) == block(b, i));
    }
    assert forall|i: usize|
        base <= i < b.len() && #[trigger] following(b, i) is Some implies following(b, i) != block(
        b,
        i,
    ) by {
        assert(following(a, i) == following(b, i));
        assert(block(a, i) == block(b, i));
    }
}

/// What is known of the commands whose branches are resolved.
proof fn lemma_branches_linked(
    tree: Seq<CommandView>,
    head: Option<usize>,
    base: int,
    labels: Map<Seq<char>, usize>,
)
    requires
        0 <= base <= tree.len() <= usize::MAX,
        one_tree(tree, head, base),
        labels_of(tree, visit(tree, head), labels).0 is Ok,
        ({
            let noted = labels_of(tree, visit(tree, head), labels).1;
            resolved_of(tree, visit(tree, head), noted).0 is Ok
        }),
    ensures
        ({
            let noted = labels_of(tree, visit(tree, head), labels).1;
            let branched = resolved_of(tree, visit(tree, head), noted).1;
            &&& branched.len() == tree.len()
            &&& same_links(tree, branched)
            &&& forall|i: int| 0 <= i < base ==> #[trigger] branched[i] == tree[i]
            &&& forall|i: int|
                base <= i < tree.len() ==> {
                    &&& resolved_data(tree[i], noted) is Ok
                    &&& #[trigger] branched[i] == resolved_command(tree[i], noted)
                    &&& defined_label(tree[i]) matches Some(label) ==> {
                        &&& noted.contains_key(label)
                        &&& noted[label] == i
                    }
                }
        }),
{
    reveal(one_tree);
    let order = visit(tree, head);
    let noted = labels_of(tree, order, labels).1;
    let branched = resolved_of(tree, order, noted).1;
    lemma_visit_in_range(tree, head);
    lemma_visited_from(tree, head, base);
    lemma_resolved_links(tree, order, noted);
    law_labels_stand_for_definitions(tree, order, labels);
    law_branches_are_resolved(tree, order, noted);
    assert forall|i: int| 0 <= i < base implies #[trigger] branched[i] == tree[i] by {
        if order.contains(i as usize) {
            let k = choose|k: int| 0 <= k < order.len() && order[k] == i as usize;
            assert(base <= order[k]);
        }
    }
    assert forall|i: int| base <= i < tree.len() implies {
        &&& resolved_data(tree[i], noted) is Ok
        &&& #[trigger] branched[i] == resolved_command(tree[i], noted)
        &&& defined_label(tree[i]) matches Some(label) ==> {
            &&& noted.contains_key(label)
            &&& noted[label] == i
        }
    } by {
        let x = i as usize;
        assert(within(tree, head, x));
        lemma_visited(tree, head, x);
        let k = choose|k: int| 0 <= k < order.len() && order[k] == x;
        assert(resolved_data(tree[order[k] as int], noted) is Ok);
        assert(label_at(tree, order, k) == defined_label(tree[i]));
    }
}

/// Seeing to labels and links makes of a tree what it should.
pub proof fn lemma_linked_up(
    after: ContextView,
    tree: Seq<CommandView>,
    head: Option<usize>,
    base: int,
    labels: Map<Seq<char>, usize>,
)
    requires
        0 <= base <= tree.len() <= usize::MAX,
        one_tree(tree, head, base),
        labels_of(tree, visit(tree, head), labels).0 is Ok,
        after.labels == labels_of(tree, visit(tree, head), labels).1,
        resolved_of(tree, visit(tree, head), after.labels).0 is Ok,
        after.commands == patched(
            resolved_of(tree, visit(tree, head), after.labels).1,
            head,
        ),
    ensures
        linked_up(after, tree, head, base),
{
    reveal(linked_up);
    reveal(one_tree);
    let order = visit(tree, head);
    let branched = resolved_of(tree, order, after.labels).1;
    lemma_branches_linked(tree, head, base, labels);
    lemma_same_unshared(tree, branched, base);
    law_blocks_lead_on(branched, base, head);
    assert forall|x: usize| within(branched, head, x) == #[trigger] within(tree, head, x) by {
        lemma_same_within(tree, branched, head, x);
    }
    assert forall|h: usize| #[trigger] tail(branched, h) == tail(tree, h) by {
        lemma_same_ends(tree, branched, h);
    }
    assert forall|x: usize|
        base <= x < tree.len() implies (#[trigger] block(tree, x) matches Some(b)
        ==> after.commands[tail(tree, b) as int].next == exit_of(tree, head, None, x)) by {
        assert(within(tree, head, x));
        assert(within(branched, head, x));
        assert(block(branched, x) == block(tree, x));
        lemma_same_exits(tree, branched, head, None, x);
        if let Some(b) = block(tree, x) {
            assert(tail(branched, b) == tail(tree, b));
        }
    }
    assert forall|i: int| ends_block(branched, head, i) implies ends_block(tree, head, i) by {
        let x = choose|x: usize|
            #[trigger] within(branched, head, x) && block_ends_at(
                branched,
                x,
                i,
            );
        lemma_same_within(tree, branched, head, x);
        lemma_within_range(branched, head, x);
        assert(block(branched, x) == block(tree, x));
        assert(tail(branched, block(tree, x)->0) == tail(tree, block(tree, x)->0));
        assert(within(tree, head, x));
        assert(block_ends_at(tree, x, i));
    }
    assert forall|i: int| 0 <= i < tree.len() implies (#[trigger] after.commands[i]) == (
    CommandView { next: after.commands[i].next, ..branched[i] }) by {
        if ends_block(branched, head, i) {
            let x = choose|x: usize|
                #[trigger] within(branched, head, x) && block_ends_at(
                    branched,
                    x,
                    i,
                );
            assert(block(branched, x) is Some);
        }
    }
    assert forall|i: int| 0 <= i < base implies #[trigger] after.commands[i] == tree[i] by {
        if ends_block(branched, head, i) {
            let x = choose|x: usize|
                #[trigger] within(branched, head, x) && block_ends_at(
                    branched,
                    x,
                    i,
                );
            lemma_within_range(branched, head, x);
            lemma_tail_range(branched, block(branched, x)->0);
        }
    }
}

} // verus!
