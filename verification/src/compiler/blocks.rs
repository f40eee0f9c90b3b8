//! Where the ends of blocks lead once they are linked to what comes behind the blocks.

use crate::command::CommandView;
use crate::compiler::graph::{
    ahead_of, behind, block, chain_splices, following, lemma_splices_below, links_below,
    nested_splices, patched, spliced, splices, tail, with_next,
};
use vstd::prelude::*;

verus! {

/// Whether the command at `i` leads to the one at `x`: as the one that follows it, or as the
/// first one of its block.
pub open spec fn leads(commands: Seq<CommandView>, i: usize, x: usize) -> bool {
    following(commands, i) == Some(x) || block(commands, i) == Some(x)
}

/// Whether the commands from `base` on form a tree: no two of them lead to the same one, and
/// none leads to the same one in both ways.
pub open spec fn unshared(commands: Seq<CommandView>, base: int) -> bool {
    &&& forall|i: usize, j: usize, x: usize|
        base <= i < commands.len() && base <= j < commands.len() && #[trigger] leads(commands, i, x)
            && #[trigger] leads(commands, j, x) ==> i == j
    &&& forall|i: usize|
        base <= i < commands.len() && #[trigger] following(commands, i) is Some ==> following(
            commands,
            i,
        ) != block(commands, i)
}

/// Whether the command at `x` is in the tree that starts with `head`.
pub open spec fn within(commands: Seq<CommandView>, head: Option<usize>, x: usize) -> bool
    decreases ahead_of(commands, head),
{
    match head {
        Some(h) => h < commands.len() && (h == x || within(commands, following(commands, h), x)
            || within(commands, block(commands, h), x)),
        None => false,
    }
}

/// What comes behind the command at `x` of the tree that starts with `head`, when `outer`
/// comes behind the tree: the command that follows it, or, if none does, what comes behind the
/// `{` of the block around it.
pub open spec fn exit_of(
    commands: Seq<CommandView>,
    head: Option<usize>,
    outer: Option<usize>,
    x: usize,
) -> Option<usize>
    decreases ahead_of(commands, head),
{
    match head {
        Some(h) => if h >= commands.len() {
            None
        } else if h == x {
            behind(commands, h, outer)
        } else if within(commands, following(commands, h), x) {
            exit_of(commands, following(commands, h), outer, x)
        } else {
            exit_of(commands, block(commands, h), behind(commands, h, outer), x)
        },
        None => None,
    }
}

/// A tree holds commands from its first one on.
pub proof fn lemma_within_range(commands: Seq<CommandView>, head: Option<usize>, x: usize)
    requires
        within(commands, head, x),
    ensures
        head matches Some(h) && h <= x < commands.len(),
    decreases ahead_of(commands, head),
{
    let h = head->0;
    if h != x {
        if within(commands, following(commands, h), x) {
            lemma_within_range(commands, following(commands, h), x);
        } else {
            lemma_within_range(commands, block(commands, h), x);
        }
    }
}

/// Every command of a tree but the first has one in it that leads to it.
proof fn lemma_within_led(commands: Seq<CommandView>, h: usize, x: usize) -> (from: usize)
    requires
        within(commands, Some(h), x),
        x != h,
    ensures
        within(commands, Some(h), from),
        leads(commands, from, x),
        h <= from < x,
    decreases ahead_of(commands, Some(h)),
{
    let n = following(commands, h);
    let b = block(commands, h);
    if n == Some(x) || b == Some(x) {
        h
    } else {
        let rest = if within(commands, n, x) {
            n
        } else {
            b
        };
        lemma_within_range(commands, rest, x);
        lemma_within_led(commands, rest->0, x)
    }
}

/// What follows a `{` and what is in its block have no command in common.
pub proof fn lemma_apart(commands: Seq<CommandView>, base: int, h: usize, x: usize)
    requires
        unshared(commands, base),
        base <= h < commands.len(),
        within(commands, following(commands, h), x),
    ensures
        !within(commands, block(commands, h), x),
    decreases x,
{
    let next = following(commands, h);
    let body = block(commands, h);
    lemma_within_range(commands, next, x);
    if within(commands, body, x) {
        lemma_within_range(commands, body, x);
        let n = next->0;
        let b = body->0;
        assert(leads(commands, h, n));
        assert(leads(commands, h, b));
        assert(n != b);
        if x == n {
            let from = lemma_within_led(commands, b, x);
            assert(leads(commands, from, x));
        } else if x == b {
            let from = lemma_within_led(commands, n, x);
            assert(leads(commands, from, x));
        } else {
            let one = lemma_within_led(commands, n, x);
            let other = lemma_within_led(commands, b, x);
            assert(one == other);
            lemma_apart(commands, base, h, one);
        }
    }
}

/// Whether the link leads from the end of the block of a `{` in the tree to what comes behind
/// that `{`.
pub open spec fn closes_block(
    commands: Seq<CommandView>,
    head: Option<usize>,
    outer: Option<usize>,
    link: (usize, Option<usize>),
) -> bool {
    exists|x: usize|
        #[trigger] within(commands, head, x) && closes_block_of(commands, head, outer, link, x)
}

/// Whether the link leads from the end of the block of the `{` at `x` to what comes behind it.
pub open spec fn closes_block_of(
    commands: Seq<CommandView>,
    head: Option<usize>,
    outer: Option<usize>,
    link: (usize, Option<usize>),
    x: usize,
) -> bool {
    block(commands, x) matches Some(b) && link == (
        tail(commands, b),
        exit_of(commands, head, outer, x),
    )
}

/// Whether all links lead from ends of blocks to what comes behind them.
spec fn all_close_blocks(
    commands: Seq<CommandView>,
    head: Option<usize>,
    outer: Option<usize>,
    links: Seq<(usize, Option<usize>)>,
) -> bool {
    forall|k: int|
        0 <= k < links.len() ==> closes_block(commands, head, outer, #[trigger] links[k])
}

/// Links in the chain behind a command are links in the tree that starts with it.
proof fn lemma_closes_behind(
    commands: Seq<CommandView>,
    h: usize,
    outer: Option<usize>,
    links: Seq<(usize, Option<usize>)>,
)
    requires
        h < commands.len(),
        all_close_blocks(commands, following(commands, h), outer, links),
    ensures
        all_close_blocks(commands, Some(h), outer, links),
{
    let next = following(commands, h);
    assert forall|k: int| 0 <= k < links.len() implies closes_block(
        commands,
        Some(h),
        outer,
        #[trigger] links[k],
    ) by {
        assert(closes_block(commands, next, outer, links[k]));
        let x = choose|x: usize|
            #[trigger] within(commands, next, x) && closes_block_of(
                commands,
                next,
                outer,
                links[k],
                x,
            );
        lemma_within_range(commands, next, x);
        assert(within(commands, Some(h), x));
        assert(closes_block_of(commands, Some(h), outer, links[k], x));
    }
}

/// Links in the block of a `{` are links in the tree that starts with it.
proof fn lemma_closes_inside(
    commands: Seq<CommandView>,
    base: int,
    h: usize,
    outer: Option<usize>,
    links: Seq<(usize, Option<usize>)>,
)
    requires
        unshared(commands, base),
        base <= h < commands.len(),
        all_close_blocks(commands, block(commands, h), behind(commands, h, outer), links),
    ensures
        all_close_blocks(commands, Some(h), outer, links),
{
    let body = block(commands, h);
    let exit = behind(commands, h, outer);
    assert forall|k: int| 0 <= k < links.len() implies closes_block(
        commands,
        Some(h),
        outer,
        #[trigger] links[k],
    ) by {
        assert(closes_block(commands, body, exit, links[k]));
        let x = choose|x: usize|
            #[trigger] within(commands, body, x) && closes_block_of(
                commands,
                body,
                exit,
                links[k],
                x,
            );
        lemma_within_range(commands, body, x);
        if within(commands, following(commands, h), x) {
            lemma_apart(commands, base, h, x);
        }
        assert(within(commands, Some(h), x));
        assert(closes_block_of(commands, Some(h), outer, links[k], x));
    }
}

/// All links that are made lead from ends of blocks to what comes behind them.
proof fn lemma_links_close(
    commands: Seq<CommandView>,
    base: int,
    head: Option<usize>,
    outer: Option<usize>,
)
    requires
        unshared(commands, base),
        head matches Some(h) ==> base <= h,
    ensures
        all_close_blocks(commands, head, outer, chain_splices(commands, head, outer)),
        all_close_blocks(commands, head, outer, nested_splices(commands, head, outer)),
        all_close_blocks(commands, head, outer, splices(commands, head, outer)),
    decreases ahead_of(commands, head),
{
    if let Some(h) = head {
        if h < commands.len() {
            let next = following(commands, h);
            let body = block(commands, h);
            let exit = behind(commands, h, outer);
            lemma_links_close(commands, base, next, outer);
            lemma_links_close(commands, base, body, exit);
            lemma_closes_behind(commands, h, outer, chain_splices(commands, next, outer));
            lemma_closes_behind(commands, h, outer, nested_splices(commands, next, outer));
            lemma_closes_inside(commands, base, h, outer, splices(commands, body, exit));
            if let Some(b) = body {
                let own = (tail(commands, b), exit);
                assert(within(commands, head, h));
                assert(closes_block_of(commands, head, outer, own, h));
            }
        }
    }
}

/// The end of the block of every `{` in the tree is linked.
proof fn lemma_block_linked(
    commands: Seq<CommandView>,
    base: int,
    head: Option<usize>,
    outer: Option<usize>,
    x: usize,
)
    requires
        unshared(commands, base),
        head matches Some(h) ==> base <= h,
        within(commands, head, x),
        block(commands, x) is Some,
    ensures
        splices(commands, head, outer).contains(
            (tail(commands, block(commands, x)->0), exit_of(commands, head, outer, x)),
        ),
    decreases ahead_of(commands, head),
{
    let h = head->0;
    let next = following(commands, h);
    let body = block(commands, h);
    let exit = behind(commands, h, outer);
    let link = (tail(commands, block(commands, x)->0), exit_of(commands, head, outer, x));
    let all = splices(commands, head, outer);
    let chained = chain_splices(commands, head, outer);
    let own = chained.len() - chain_splices(commands, next, outer).len();
    let before = chained.len() + nested_splices(commands, next, outer).len();
    lemma_within_range(commands, head, x);
    if x == h {
        assert(all[0] == link);
    } else if within(commands, next, x) {
        lemma_block_linked(commands, base, next, outer, x);
        let k = choose|k: int|
            0 <= k < splices(commands, next, outer).len() && splices(commands, next, outer)[k]
                == link;
        let count = chain_splices(commands, next, outer).len();
        if k < count {
            assert(all[own + k] == link);
        } else {
            assert(all[chained.len() + (k - count)] == link);
        }
    } else {
        lemma_block_linked(commands, base, body, exit, x);
        let k = choose|k: int|
            0 <= k < splices(commands, body, exit).len() && splices(commands, body, exit)[k]
                == link;
        assert(all[before + k] == link);
    }
}

/// Whether the chain from `i` on comes to `x`.
spec fn reaches(commands: Seq<CommandView>, i: usize, x: usize) -> bool
    decreases ahead_of(commands, Some(i)),
{
    i == x || (i < commands.len() && following(commands, i) is Some && reaches(
        commands,
        following(commands, i)->0,
        x,
    ))
}

/// Some command is followed by every one that a chain comes to.
proof fn lemma_reached(commands: Seq<CommandView>, i: usize, x: usize) -> (from: usize)
    requires
        reaches(commands, i, x),
        i != x,
    ensures
        i <= from < commands.len(),
        following(commands, from) == Some(x),
    decreases ahead_of(commands, Some(i)),
{
    let n = following(commands, i)->0;
    if n == x {
        i
    } else {
        lemma_reached(commands, n, x)
    }
}

/// The last command of a chain is not before its first one.
pub proof fn lemma_tail_range(commands: Seq<CommandView>, h: usize)
    requires
        h < commands.len(),
    ensures
        h <= tail(commands, h) < commands.len(),
    decreases ahead_of(commands, Some(h)),
{
    if let Some(n) = following(commands, h) {
        lemma_tail_range(commands, n);
    }
}

/// Of two chains with the same end, one is the rest of the other.
proof fn lemma_same_tail(commands: Seq<CommandView>, base: int, a: usize, b: usize)
    requires
        unshared(commands, base),
        base <= a < commands.len(),
        base <= b < commands.len(),
        tail(commands, a) == tail(commands, b),
    ensures
        reaches(commands, a, b) || reaches(commands, b, a),
    decreases
        ahead_of(commands, Some(a)) + ahead_of(commands, Some(b)),
        if b < a {
            1nat
        } else {
            0nat
        },
{
    if a < b {
        lemma_tail_range(commands, b);
        let n = following(commands, a)->0;
        lemma_same_tail(commands, base, n, b);
        if !reaches(commands, n, b) {
            let from = lemma_reached(commands, b, n);
            assert(leads(commands, from, n) && leads(commands, a, n));
        }
    } else if b < a {
        lemma_same_tail(commands, base, b, a);
    }
}

/// The blocks of different `{` end at different commands.
pub proof fn law_blocks_end_apart(commands: Seq<CommandView>, base: int, x: usize, y: usize)
    requires
        unshared(commands, base),
        base <= x < commands.len(),
        base <= y < commands.len(),
        x != y,
        block(commands, x) is Some,
        block(commands, y) is Some,
    ensures
        tail(commands, block(commands, x)->0) != tail(commands, block(commands, y)->0),
{
    let a = block(commands, x)->0;
    let b = block(commands, y)->0;
    assert(leads(commands, x, a) && leads(commands, y, b));
    assert(a != b);
    if tail(commands, a) == tail(commands, b) {
        lemma_same_tail(commands, base, a, b);
        if reaches(commands, a, b) {
            let from = lemma_reached(commands, a, b);
            assert(leads(commands, from, b));
        } else {
            let from = lemma_reached(commands, b, a);
            assert(leads(commands, from, a));
        }
    }
}

/// Whether links from one command all lead to the same one.
pub open spec fn consistent(links: Seq<(usize, Option<usize>)>) -> bool {
    forall|j: int, k: int|
        0 <= j < links.len() && 0 <= k < links.len() && (#[trigger] links[j]).0 == (
        #[trigger] links[k]).0 ==> links[j].1 == links[k].1
}

/// Whether there is a link from the command at `i`.
pub open spec fn linked_from(links: Seq<(usize, Option<usize>)>, i: int) -> bool {
    exists|k: int| 0 <= k < links.len() && (#[trigger] links[k]).0 == i
}

/// Links that do not contradict each other are all made, in whatever order they stand, and
/// nothing else is changed.
pub proof fn law_links_are_made(commands: Seq<CommandView>, links: Seq<(usize, Option<usize>)>)
    requires
        links_below(links, commands.len()),
        consistent(links),
    ensures
        spliced(commands, links).len() == commands.len(),
        forall|k: int|
            0 <= k < links.len() ==> spliced(commands, links)[(#[trigger] links[k]).0 as int] == (
            CommandView { next: links[k].1, ..commands[links[k].0 as int] }),
        forall|i: int|
            0 <= i < commands.len() && !linked_from(links, i) ==> #[trigger] spliced(
                commands,
                links,
            )[i] == commands[i],
    decreases links.len(),
{
    if links.len() > 0 {
        let once = with_next(commands, links[0].0, links[0].1);
        let later = links.drop_first();
        assert forall|k: int| 0 <= k < later.len() implies #[trigger] later[k] == links[k + 1] by {}
        assert(links_below(later, once.len())) by {
            assert forall|k: int| 0 <= k < later.len() implies (#[trigger] later[k]).0 < once.len()
                && (later[k].1 matches Some(t) ==> t < once.len()) by {
                assert(links[k + 1].0 < commands.len());
            }
        }
        assert(consistent(later)) by {
            assert forall|j: int, k: int|
                0 <= j < later.len() && 0 <= k < later.len() && (#[trigger] later[j]).0 == (
                #[trigger] later[k]).0 implies later[j].1 == later[k].1 by {
                assert(links[j + 1].0 == links[k + 1].0);
            }
        }
        law_links_are_made(once, later);
        let after = spliced(commands, links);
        assert(links[0].0 < commands.len());
        assert forall|k: int| 0 <= k < links.len() implies after[(#[trigger] links[k]).0 as int]
            == (CommandView { next: links[k].1, ..commands[links[k].0 as int] }) by {
            let i = links[k].0 as int;
            if linked_from(later, i) {
                let m = choose|m: int| 0 <= m < later.len() && (#[trigger] later[m]).0 == i;
                assert(links[m + 1].0 == links[k].0);
                assert(after[later[m].0 as int].next == later[m].1);
            } else {
                assert(k == 0) by {
                    if k > 0 {
                        assert(later[k - 1].0 == i);
                    }
                }
                assert(after[i] == once[i]);
            }
        }
        assert forall|i: int|
            0 <= i < commands.len() && !linked_from(links, i) implies #[trigger] after[i]
            == commands[i] by {
            assert(links[0].0 != i);
            if linked_from(later, i) {
                let m = choose|m: int| 0 <= m < later.len() && (#[trigger] later[m]).0 == i;
                assert(links[m + 1].0 == i);
            }
        }
    }
}

/// Whether the command at `i` ends the block of some `{` in the tree.
pub open spec fn ends_block(commands: Seq<CommandView>, head: Option<usize>, i: int) -> bool {
    exists|x: usize| #[trigger] within(commands, head, x) && block_ends_at(commands, x, i)
}

/// Whether the block of the `{` at `x` ends with the command at `i`.
pub open spec fn block_ends_at(commands: Seq<CommandView>, x: usize, i: int) -> bool {
    block(commands, x) matches Some(b) && tail(commands, b) == i
}

/// Whether in `after` the end of the block of every `{` in the tree leads to what comes behind
/// that `{`, and all else is as in `commands`.
pub open spec fn blocks_closed(
    after: Seq<CommandView>,
    commands: Seq<CommandView>,
    head: Option<usize>,
) -> bool {
    &&& after.len() == commands.len()
    &&& forall|x: usize|
        #[trigger] within(commands, head, x) ==> (block(commands, x) matches Some(b) ==> {
            let last = tail(commands, b) as int;
            after[last] == (CommandView {
                next: exit_of(commands, head, None, x),
                ..commands[last]
            })
        })
    &&& forall|i: int|
        0 <= i < commands.len() && !ends_block(commands, head, i) ==> #[trigger] after[i]
            == commands[i]
}

/// In a tree whose blocks are linked, the end of the block of every `{` leads to what comes
/// behind that `{`, and nothing else is changed.
pub proof fn law_blocks_lead_on(commands: Seq<CommandView>, base: int, head: Option<usize>)
    requires
        unshared(commands, base),
        head matches Some(h) ==> base <= h,
    ensures
        blocks_closed(patched(commands, head), commands, head),
{
    let links = splices(commands, head, None);
    let after = patched(commands, head);
    lemma_links_close(commands, base, head, None);
    lemma_splices_below(commands, head, None);
    assert(consistent(links)) by {
        assert forall|j: int, k: int|
            0 <= j < links.len() && 0 <= k < links.len() && (#[trigger] links[j]).0 == (
            #[trigger] links[k]).0 implies links[j].1 == links[k].1 by {
            assert(closes_block(commands, head, None, links[j]));
            assert(closes_block(commands, head, None, links[k]));
            let x = choose|x: usize|
                #[trigger] within(commands, head, x) && closes_block_of(
                    commands,
                    head,
                    None,
                    links[j],
                    x,
                );
            let y = choose|y: usize|
                #[trigger] within(commands, head, y) && closes_block_of(
                    commands,
                    head,
                    None,
                    links[k],
                    y,
                );
            lemma_within_range(commands, head, x);
            lemma_within_range(commands, head, y);
            if x != y {
                law_blocks_end_apart(commands, base, x, y);
            }
        }
    }
    law_links_are_made(commands, links);
    assert forall|x: usize| #[trigger] within(commands, head, x) implies (
    block(commands, x) matches Some(b) ==> {
        let last = tail(commands, b) as int;
        after[last] == (CommandView {
            next: exit_of(commands, head, None, x),
            ..commands[last]
        })
    }) by {
        if block(commands, x) is Some {
            lemma_block_linked(commands, base, head, None, x);
            let link = (tail(commands, block(commands, x)->0), exit_of(commands, head, None, x));
            let k = choose|k: int| 0 <= k < links.len() && links[k] == link;
            assert(links[k].0 == link.0);
        }
    }
    assert forall|i: int|
        0 <= i < commands.len() && !ends_block(commands, head, i) implies #[trigger] after[i]
        == commands[i] by {
        if linked_from(links, i) {
            let k = choose|k: int| 0 <= k < links.len() && (#[trigger] links[k]).0 == i;
            assert(closes_block(commands, head, None, links[k]));
            let x = choose|x: usize|
                #[trigger] within(commands, head, x) && closes_block_of(
                    commands,
                    head,
                    None,
                    links[k],
                    x,
                );
            assert(block_ends_at(commands, x, i));
        }
    }
}

} // verus!
