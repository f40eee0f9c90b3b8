//! Compiling scripts into commands.

use crate::command::{CommandView, ContextView, DataView, ProcessingContext};
use crate::compiler::cursor::{Cursor, cursor, in_words, viewed};
use crate::compiler::graph::{
    forward_at, forward_from, heads_tree, labels_below, labels_of, lemma_labels_below,
    lemma_resolved, lemma_resolved_heads_blocks, lemma_spliced, lemma_splices_below,
    lemma_visit_in_range, patch_block_endings, patched, populate_label_map,
    populate_range_commands, ranges_of, resolve_branch_targets, resolved_from, resolved_of,
    splices, visit,
};
use crate::compiler::limits::{all_allowed, allowed};
use crate::compiler::links::{lemma_linked_up, linked_up};
use crate::compiler::sequence::{
    SequenceOutcome, can_run, compile_sequence, extends, sequence_at,
};
use crate::compiler::shape::one_tree;
use crate::error_handling::{
    ErrorView, LocationView, SedError, SedResult, located_error, location_prefix,
};
use crate::script_char_provider::{LineView, ScriptCharProvider};
use crate::script_line_provider::{ScriptLineProvider, ScriptValue, Source, script_of, sources_of};
use vstd::prelude::*;

pub mod address;
pub mod arguments;
pub mod blocks;
pub mod cursor;
pub mod flags;
pub mod graph;
pub mod handling;
pub mod layout;
pub mod limits;
pub mod links;
pub mod regex;
pub mod replacement;
pub mod sequence;
pub mod shape;
pub mod simple;
pub mod substitute;
pub mod table;
pub mod text;
pub mod transliterate;
pub mod version;

verus! {

/// The place before the first line of a script.
pub open spec fn script_start(sources: Seq<Source>) -> Cursor {
    Cursor { script: script_of(sources), line: LineView { text: Seq::empty(), pos: 0 } }
}

/// What compiling gives: the first command or an error, and the context, with all commands.
pub struct Compiled {
    /// The first command, or the error.
    pub result: Result<Option<usize>, ErrorView>,
    /// The context.
    pub context: ContextView,
}

/// What the commands that a script was compiled into give, once their labels and links are
/// seen to: branches lead to the commands that labels stand for, and the ends of blocks to
/// what comes behind them. A block that is still open is an error.
pub open spec fn linked_script(sequence: SequenceOutcome, head: Option<usize>) -> Compiled {
    let context = sequence.context;
    let order = visit(context.commands, head);
    let (labelled, labels) = labels_of(context.commands, order, context.labels);
    let noted = ContextView {
        labels,
        range_commands: context.range_commands + ranges_of(context.commands, order),
        ..context
    };
    let (branched, commands) = resolved_of(context.commands, order, labels);
    let resolved = ContextView { commands, ..noted };
    match labelled {
        Err(e) => Compiled { result: Err(e), context: ContextView { labels, ..context } },
        Ok(_) => match branched {
            Err(e) => Compiled { result: Err(e), context: resolved },
            Ok(_) => if context.parsed_block_nesting > 0 {
                Compiled { result: Err(unmatched_block(sequence.at)), context: resolved }
            } else {
                Compiled {
                    result: Ok(head),
                    context: ContextView { commands: patched(commands, head), ..resolved },
                }
            },
        },
    }
}

/// The error for a block that is still open at the end of the script.
pub open spec fn unmatched_block(at: Cursor) -> ErrorView {
    located_error(
        LocationView { name: at.script.name, line: at.script.number, column: 0 },
        "unmatched `{'"@,
        1,
    )
}

/// What compiling the scripts gives, if `reason` are the words of the regular expression engine
/// should it refuse.
#[verifier::opaque]
pub open spec fn compiled_script(
    sources: Seq<Source>,
    context: ContextView,
    reason: Seq<char>,
) -> Compiled {
    let sequence = sequence_at(script_start(sources), context, reason);
    match sequence.result {
        Err(e) => Compiled { result: Err(e), context: sequence.context },
        Ok(head) => linked_script(sequence, head),
    }
}

/// Whether the commands from `base` on lead only to commands that there are.
pub open spec fn links_valid(commands: Seq<CommandView>, base: int) -> bool {
    forall|i: int|
        base <= i < commands.len() ==> {
            &&& (#[trigger] commands[i]).next matches Some(n) ==> n < commands.len()
            &&& commands[i].data matches DataView::BranchTarget(Some(t)) ==> t < commands.len()
        }
}

/// Seeing to labels and links leaves allowed commands allowed, and makes them lead only to
/// commands that there are.
proof fn lemma_linked_script(sequence: SequenceOutcome, head: Option<usize>, base: nat)
    requires
        base <= sequence.context.commands.len(),
        forward_from(sequence.context.commands, base as int),
        head matches Some(h) ==> base <= h < sequence.context.commands.len(),
        linked_script(sequence, head).result is Ok,
    ensures
        ({
            let before = sequence.context;
            let after = linked_script(sequence, head).context;
            &&& after.commands.len() == before.commands.len()
            &&& after.options == before.options
            &&& after.writers == before.writers
            &&& after.parsed_block_nesting == 0
            &&& all_allowed(before.commands, base as int, before.options) ==> all_allowed(
                after.commands,
                base as int,
                before.options,
            )
            &&& labels_below(before.labels, before.commands.len()) ==> links_valid(
                after.commands,
                base as int,
            )
        }),
{
    let before = sequence.context;
    let tree = before.commands;
    let order = visit(tree, head);
    let labels = labels_of(tree, order, before.labels).1;
    let branched = resolved_of(tree, order, labels).1;
    let after = linked_script(sequence, head).context;
    lemma_visit_in_range(tree, head);
    lemma_resolved(tree, order, labels);
    lemma_splices_below(branched, head, None);
    lemma_spliced(branched, splices(branched, head, None));
    assert(after.commands == patched(branched, head));
    if labels_below(before.labels, tree.len()) {
        lemma_labels_below(tree, order, before.labels, tree.len());
    }
    assert forall|i: int| base <= i < tree.len() implies {
        &&& allowed(tree[i], before.options) ==> allowed(
            #[trigger] after.commands[i],
            before.options,
        )
        &&& after.commands[i].next matches Some(n) ==> n < tree.len()
        &&& labels_below(before.labels, tree.len()) ==> (
        after.commands[i].data matches DataView::BranchTarget(Some(t)) ==> t < tree.len())
    } by {
        assert(forward_at(tree, i));
        assert(resolved_from(branched[i], tree[i], labels));
        assert(after.commands[i] == (CommandView {
            next: after.commands[i].next,
            ..branched[i]
        }));
    }
    if all_allowed(tree, base as int, before.options) {
        assert forall|i: int| base <= i < after.commands.len() implies allowed(
            #[trigger] after.commands[i],
            before.options,
        ) by {
            assert(allowed(tree[i], before.options));
        }
    }
}

/// Sees to the labels and links of the commands that a script was compiled into.
fn link_script(
    head: Option<usize>,
    lines: &ScriptLineProvider,
    context: &mut ProcessingContext,
    Ghost(sequence): Ghost<SequenceOutcome>,
) -> (result: SedResult<Option<usize>>)
    requires
        sequence.context == old(context)@,
        sequence.at.script == lines@,
        heads_tree(old(context)@.commands, head),
    ensures
        viewed(result) == linked_script(sequence, head).result,
        final(context)@ == linked_script(sequence, head).context,
{
    let ghost tree = context@.commands;
    // Link branch commands to the target label commands.
    match populate_label_map(head, context) {
        Ok(_) => (),
        Err(e) => {
            return Err(e);
        },
    }
    populate_range_commands(head, context);
    match resolve_branch_targets(head, context) {
        Ok(_) => (),
        Err(e) => {
            return Err(e);
        },
    }
    if context.parsed_block_nesting > 0 {
        let mut message = location_prefix(lines.get_input_name(), lines.get_line_number(), 0);
        message.append(": ");
        message.append("unmatched `{'");
        reveal(located_error);
        return Err(SedError::new(1, message));
    }
    // Link the ends of command blocks to their following commands. This makes the tree a
    // graph, so nothing walks it as a tree any more.
    proof {
        lemma_resolved_heads_blocks(tree, head, context@.labels);
    }
    patch_block_endings(head, &mut context.commands);
    Ok(head)
}

/// Compiles the scripts. The commands go to the end of those in the context; returns the first
/// one.
///
/// All blocks of a script that compiles are closed, its commands are such as the options
/// allow, and they lead only to commands that there are. The commands are those of one tree,
/// whose branches lead to the labels that they name, and whose blocks lead to what comes behind
/// them. Earlier commands are left alone.
#[verifier::rlimit(30)]
pub fn compile(scripts: Vec<ScriptValue>, context: &mut ProcessingContext) -> (result: SedResult<
    Option<usize>,
>)
    requires
        can_run(script_start(sources_of(scripts@)), old(context)@),
    ensures
        forall|reason: Seq<char>|
            in_words(result, reason) ==> {
                let spec = #[trigger] compiled_script(
                    sources_of(scripts@),
                    old(context)@,
                    reason,
                );
                &&& viewed(result) == spec.result
                &&& final(context)@ == spec.context
            },
        result matches Ok(Some(first)) ==> old(context)@.commands.len() <= first
            < final(context)@.commands.len(),
        result is Ok ==> {
            let base = old(context)@.commands.len() as int;
            let after = final(context)@;
            &&& after.parsed_block_nesting == 0
            &&& after.options == old(context)@.options
            &&& after.options.sandbox ==> after.writers == old(context)@.writers
            &&& all_allowed(after.commands, base, after.options)
            &&& labels_below(old(context)@.labels, old(context)@.commands.len()) ==> links_valid(
                after.commands,
                base,
            )
            &&& extends(after.commands, old(context)@.commands)
        },
        result matches Ok(first) ==> {
            let base = old(context)@.commands.len() as int;
            // The engine refused nothing, so its words do not matter
            let tree = sequence_at(
                script_start(sources_of(scripts@)),
                old(context)@,
                Seq::empty(),
            ).context.commands;
            &&& one_tree(tree, first, base)
            &&& linked_up(final(context)@, tree, first, base)
        },
{
    reveal(compiled_script);
    let ghost before = context@;
    let mut lines = ScriptLineProvider::new(scripts);
    let empty: Vec<u8> = Vec::new();
    let mut line = ScriptCharProvider::new(&empty);
    assert(cursor(&lines, &line) =~= script_start(sources_of(scripts@)));
    let ghost sequence = sequence_at(script_start(sources_of(scripts@)), context@, Seq::empty());
    match compile_sequence(&mut lines, &mut line, context) {
        Ok(head) => {
            proof {
                reveal(one_tree);
                reveal(linked_up);
                assert(context@.commands.len() == context.commands.len());
                if linked_script(sequence, head).result is Ok {
                    lemma_linked_up(
                        linked_script(sequence, head).context,
                        context@.commands,
                        head,
                        before.commands.len() as int,
                        before.labels,
                    );
                    lemma_linked_script(sequence, head, before.commands.len());
                }
            }
            link_script(head, &lines, context, Ghost(sequence))
        },
        Err(e) => Err(e),
    }
}

} // verus!
