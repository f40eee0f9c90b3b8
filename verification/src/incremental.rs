//! Line-at-a-time processing for embedders that deliver input records.

use crate::command::{
    Address, AddressView, Command, CommandData, CommandView, ContextView, DataView, InputAction,
    InputView, OptionsView, ProcessingContext, commands_view, opt_view, writers_view,
};
use crate::compiler::limits::{allowed, executes};
use crate::compiler::{Compiled, compile, compiled_script};
use crate::error_handling::{ErrorView, SedError};
use crate::named_writer::NamedWriter;
use crate::script_line_provider::{ScriptValue, sources_of};
use crate::text::copy_range;
use vstd::prelude::*;

verus! {

/// What to do once a record is processed.
#[derive(Debug, Clone, Copy, PartialEq, Eq, Structural)]
pub enum Flow {
    /// Deliver the next line, if any.
    Continue,
    /// `q` or `Q` ran, or `n` found no next line: stop reading input.
    Quit,
}

/// Whether the command asks for the last input line.
pub open spec fn asks_for_last(cmd: CommandView) -> bool {
    ||| cmd.addr1 == Some(AddressView::Last)
    ||| cmd.addr2 == Some(AddressView::Last)
    ||| cmd.code == 'n'
    ||| cmd.code == 'c'
}

/// Whether the command at `i` leads to the one at `j`: it follows, or it is branched to.
pub open spec fn leads_to(commands: Seq<CommandView>, i: usize, j: usize) -> bool {
    &&& i < commands.len()
    &&& j < commands.len()
    &&& commands[i as int].next == Some(j) || commands[i as int].data == DataView::BranchTarget(
        Some(j),
    )
}

/// Whether the path goes from `first` through commands that lead to each other.
pub open spec fn is_path(commands: Seq<CommandView>, first: usize, path: Seq<usize>) -> bool {
    &&& path.len() > 0
    &&& path[0] == first
    &&& first < commands.len()
    &&& forall|k: int|
        0 <= k < path.len() - 1 ==> leads_to(commands, #[trigger] path[k], path[k + 1])
}

/// Whether the command at `i` can be reached from `first`.
pub open spec fn reachable(commands: Seq<CommandView>, first: usize, i: usize) -> bool {
    exists|path: Seq<usize>| #[trigger] is_path(commands, first, path) && path.last() == i
}

/// Whether a command that can be reached from `first` asks for the last input line.
pub open spec fn reaches_last(commands: Seq<CommandView>, first: usize) -> bool {
    exists|i: usize|
        i < commands.len() && #[trigger] reachable(commands, first, i) && asks_for_last(
            commands[i as int],
        )
}

/// Whether a command of the script that starts with `first` asks for the last input line.
pub open spec fn last_line_matters(commands: Seq<CommandView>, first: Option<usize>) -> bool {
    match first {
        Some(f) => reaches_last(commands, f),
        None => false,
    }
}

/// How many of the marks are not set.
spec fn unset(marks: Seq<bool>) -> nat
    decreases marks.len(),
{
    if marks.len() == 0 {
        0
    } else {
        unset(marks.drop_last()) + if marks.last() {
            0nat
        } else {
            1nat
        }
    }
}

/// Setting a mark leaves one less that is not set.
proof fn lemma_set_mark(marks: Seq<bool>, i: int)
    requires
        0 <= i < marks.len(),
        !marks[i],
    ensures
        unset(marks.update(i, true)) == unset(marks) - 1,
    decreases marks.len(),
{
    let after = marks.update(i, true);
    if i == marks.len() - 1 {
        assert(after.drop_last() =~= marks.drop_last());
    } else {
        lemma_set_mark(marks.drop_last(), i);
        assert(after.drop_last() =~= marks.drop_last().update(i, true));
    }
}

/// What a reachable command leads to is reachable.
proof fn lemma_reach_further(commands: Seq<CommandView>, first: usize, i: usize, j: usize)
    requires
        reachable(commands, first, i),
        leads_to(commands, i, j),
    ensures
        reachable(commands, first, j),
{
    let path = choose|path: Seq<usize>| #[trigger]
        is_path(commands, first, path) && path.last() == i;
    let longer = path.push(j);
    assert(is_path(commands, first, longer)) by {
        assert forall|k: int| 0 <= k < longer.len() - 1 implies leads_to(
            commands,
            #[trigger] longer[k],
            longer[k + 1],
        ) by {
            if k < path.len() - 1 {
                assert(leads_to(commands, path[k], path[k + 1]));
            }
        }
    }
    assert(longer.last() == j);
}

/// Marks that include `first` and all that marked commands lead to include all that is
/// reachable.
proof fn lemma_marks_closed(commands: Seq<CommandView>, first: usize, marks: Seq<bool>, path: Seq<usize>)
    requires
        marks.len() == commands.len(),
        is_path(commands, first, path),
        marks[first as int],
        forall|i: usize, j: usize|
            i < marks.len() && marks[i as int] && #[trigger] leads_to(commands, i, j)
                ==> marks[j as int],
    ensures
        path.last() < marks.len(),
        marks[path.last() as int],
    decreases path.len(),
{
    if path.len() > 1 {
        let shorter = path.drop_last();
        assert(is_path(commands, first, shorter)) by {
            assert forall|k: int| 0 <= k < shorter.len() - 1 implies leads_to(
                commands,
                #[trigger] shorter[k],
                shorter[k + 1],
            ) by {
                assert(leads_to(commands, path[k], path[k + 1]));
            }
        }
        lemma_marks_closed(commands, first, marks, shorter);
        assert(leads_to(commands, path[path.len() - 2], path[path.len() - 2 + 1]));
    }
}

/// Whether the address is the last line.
fn is_last(address: &Option<Address>) -> (yes: bool)
    ensures
        yes == (opt_view(*address) == Some(AddressView::Last)),
{
    match address {
        Some(Address::Last) => true,
        _ => false,
    }
}

/// Whether a command that can be reached from `first` asks for the last input line: by a `$`
/// address, or because it is `n` or `c`.
pub fn uses_last_line(commands: &Vec<Command>, first: Option<usize>) -> (yes: bool)
    requires
        first matches Some(f) ==> f < commands.len(),
    ensures
        yes == last_line_matters(commands_view(commands@), first),
{
    let start: usize = match first {
        Some(f) => f,
        None => {
            return false;
        },
    };
    let ghost view = commands_view(commands@);
    let mut seen: Vec<bool> = Vec::new();
    while seen.len() < commands.len()
        invariant
            seen.len() <= commands.len(),
            forall|i: int| 0 <= i < seen.len() ==> !#[trigger] seen[i],
        decreases commands.len() - seen.len(),
    {
        seen.push(false);
    }
    let mut pending: Vec<usize> = Vec::new();
    pending.push(start);
    proof {
        assert(is_path(view, start, seq![start]));
        assert(seq![start].last() == start);
        assert(reachable(view, start, start));
    }
    while pending.len() > 0
        invariant
            view == commands_view(commands@),
            seen.len() == commands.len(),
            start < commands.len(),
            first == Some(start),
            forall|k: int|
                0 <= k < pending.len() ==> (#[trigger] pending[k]) < commands.len() && reachable(
                    view,
                    start,
                    pending[k],
                ),
            forall|i: int| 0 <= i < seen.len() && #[trigger] seen[i] ==> !asks_for_last(view[i]),
            seen[start as int] || pending@.contains(start),
            forall|i: usize, j: usize|
                i < seen.len() && seen[i as int] && #[trigger] leads_to(view, i, j)
                    ==> seen[j as int] || pending@.contains(j),
        decreases unset(seen@), pending.len(),
    {
        let ghost waiting = pending@;
        assert(reachable(view, start, pending[pending.len() - 1]));
        let id: usize = match pending.pop() {
            Some(id) => id,
            None => {
                return false;
            },
        };
        assert(waiting[waiting.len() - 1] == id);
        assert(forall|x: usize|
            waiting.contains(x) ==> x == id || #[trigger] pending@.contains(x)) by {
            assert forall|x: usize| waiting.contains(x) implies x == id
                || #[trigger] pending@.contains(x) by {
                let k = choose|k: int| 0 <= k < waiting.len() && waiting[k] == x;
                if k < waiting.len() - 1 {
                    assert(pending@[k] == x);
                }
            }
        }
        if seen[id] {
            continue ;
        }
        let ghost marks = seen@;
        proof {
            lemma_set_mark(seen@, id as int);
        }
        seen.set(id, true);
        let cmd = &commands[id];
        assert(view[id as int] == cmd@);
        if is_last(&cmd.addr1) || is_last(&cmd.addr2) || cmd.code == 'n' || cmd.code == 'c' {
            assert(asks_for_last(view[id as int]));
            assert(reaches_last(view, start)) by {
                assert(reachable(view, start, id));
            }
            return true;
        }
        let ghost popped = pending@;
        if let CommandData::BranchTarget(Some(target)) = &cmd.data {
            if *target < commands.len() {
                proof {
                    lemma_reach_further(view, start, id, *target);
                }
                pending.push(*target);
            }
        }
        let ghost branched = pending@;
        if let Some(next) = cmd.next {
            if next < commands.len() {
                proof {
                    lemma_reach_further(view, start, id, next);
                }
                pending.push(next);
            }
        }
        proof {
            assert forall|x: usize| #[trigger] popped.contains(x) implies pending@.contains(x) by {
                let k = choose|k: int| 0 <= k < popped.len() && popped[k] == x;
                assert(pending@[k] == x);
            }
            assert(start == id || marks[start as int] || popped.contains(start));
            assert forall|i: usize, j: usize|
                i < seen.len() && seen[i as int] && #[trigger] leads_to(
                    view,
                    i,
                    j,
                ) implies seen[j as int] || pending@.contains(j) by {
                if i == id {
                    if cmd.data@ == DataView::BranchTarget(Some(j)) {
                        assert(branched[branched.len() - 1] == j);
                        assert(pending@[branched.len() - 1] == j);
                    }
                    if cmd.next == Some(j) {
                        assert(pending@[pending@.len() - 1] == j);
                    }
                } else {
                    assert(marks[i as int]);
                    if !marks[j as int] {
                        assert(waiting.contains(j));
                        assert(j == id || popped.contains(j));
                    }
                }
            }
        }
    }
    proof {
        assert(!pending@.contains(start));
        assert forall|i: usize| #[trigger] reachable(view, start, i) && i < view.len() implies !asks_for_last(
            view[i as int],
        ) by {
            let path = choose|path: Seq<usize>| #[trigger]
                is_path(view, start, path) && path.last() == i;
            lemma_marks_closed(view, start, seen@, path);
        }
    }
    false
}

/// What an [`Engine`] holds.
pub struct EngineView {
    /// The first command.
    pub commands: Option<usize>,
    /// The context, with all commands.
    pub context: ContextView,
    /// Whether a record has been delivered.
    pub started: bool,
    /// Whether the last line matters.
    pub needs_last: bool,
}

/// An embeddable editor: the embedder delivers input lines and receives output.
pub struct Engine {
    commands: Option<usize>,
    context: ProcessingContext,
    started: bool,
    needs_last: bool,
}

impl View for Engine {
    type V = EngineView;

    closed spec fn view(&self) -> EngineView {
        EngineView {
            commands: self.commands,
            context: self.context@,
            started: self.started,
            needs_last: self.needs_last,
        }
    }
}

/// A script that does not compile.
pub struct CompileFailure {
    /// What is wrong with it.
    pub error: SedError,
    /// The output files that it names before that, in the order in which it does.
    pub writers: Vec<NamedWriter>,
}

/// One input line, taken apart.
#[derive(Debug)]
pub struct Record {
    /// Whether it is the first one, so that what comes before all input is to be done.
    pub first: bool,
    /// The line without its delimiter.
    pub content: Vec<u8>,
    /// Whether it had a delimiter.
    pub terminated: bool,
}

/// What is left to do after the last line.
#[derive(Debug)]
pub struct Ending {
    /// Whether there was no line, so that what comes before all input is to be done.
    pub first: bool,
    /// What is still to be output.
    pub pending: Option<Vec<u8>>,
}

/// The context of an engine: it has no shell to run, all input is one stream, in its last file,
/// and no block is open before the script.
pub open spec fn embedded(context: ContextView) -> ContextView {
    ContextView {
        options: OptionsView { no_exec: true, ..context.options },
        input: InputView { last_file: true, ..context.input },
        parsed_block_nesting: 0,
        ..context
    }
}

/// The delimiter of input lines: NUL or a line feed.
pub open spec fn delimiter_of(context: ContextView) -> u8 {
    if context.options.null_data {
        0
    } else {
        10
    }
}

/// The output that is pending after the last line: a line that waits for another one to be
/// appended, unless output is suppressed or processing has ended.
pub open spec fn pending_output(context: ContextView) -> Option<Seq<u8>> {
    if context.quiet || context.input.stop_processing {
        None
    } else {
        match context.input.input_action {
            Some(Some(line)) => Some(line.push(10)),
            _ => None,
        }
    }
}

/// The context once that output is taken.
pub open spec fn without_pending(context: ContextView) -> ContextView {
    if context.quiet || context.input.stop_processing {
        context
    } else {
        ContextView { input: InputView { input_action: None, ..context.input }, ..context }
    }
}

/// Output that is pending is taken once.
pub proof fn law_pending_is_taken_once(context: ContextView)
    ensures
        pending_output(without_pending(context)) is None,
        without_pending(without_pending(context)) == without_pending(context),
{
}

/// Sets the exit status of the process to 0 (`uucore::error::set_exit_code`). It is state of
/// the process, so nothing is claimed.
#[verifier::external_body]
fn reset_exit_code() {
    uucore::error::set_exit_code(0);
}

/// The exit status of the process (`uucore::error::get_exit_code`). It is state of the
/// process, so nothing is claimed.
#[verifier::external_body]
fn current_exit_code() -> (code: i32) {
    uucore::error::get_exit_code()
}

/// The context as that of an engine.
fn embed(context: ProcessingContext) -> (out: ProcessingContext)
    ensures
        out@ == embedded(context@),
{
    let mut context = context;
    context.no_exec = true;
    // The embedder presents all operands as one stream.
    context.last_file = true;
    context.parsed_block_nesting = 0;
    context
}

/// Without leave to execute, the commands that are allowed execute nothing.
proof fn lemma_none_executes(commands: Seq<CommandView>, base: nat, options: OptionsView)
    requires
        options.no_exec,
        forall|i: int| base <= i < commands.len() ==> allowed(#[trigger] commands[i], options),
    ensures
        forall|i: int| base <= i < commands.len() ==> !executes(#[trigger] commands[i]),
{
}

impl Engine {
    /// Compiles the scripts. The `e` command and the `e` flag of `s` are refused.
    #[verifier::rlimit(30)]
    pub fn new(scripts: Vec<ScriptValue>, context: ProcessingContext) -> (result: Result<
        Engine,
        CompileFailure,
    >)
        ensures
            match result {
                Ok(engine) => {
                    &&& forall|reason: Seq<char>| #[trigger]
                        compiled_script(sources_of(scripts@), embedded(context@), reason) == (
                        Compiled { result: Ok(engine@.commands), context: engine@.context })
                    &&& engine@.context.options == embedded(context@).options
                    &&& !engine@.started
                    &&& engine@.needs_last == last_line_matters(
                        engine@.context.commands,
                        engine@.commands,
                    )
                    &&& forall|i: int|
                        context@.commands.len() <= i < engine@.context.commands.len()
                            ==> !executes(#[trigger] engine@.context.commands[i])
                },
                Err(failure) => forall|reason: Seq<char>|
                    (failure.error@.reason matches Some(words) ==> words == reason) ==> {
                        let compiled = #[trigger] compiled_script(
                            sources_of(scripts@),
                            embedded(context@),
                            reason,
                        );
                        &&& compiled.result == Err::<Option<usize>, ErrorView>(failure.error@)
                        &&& compiled.context.writers == writers_view(failure.writers@)
                    },
            },
    {
        reset_exit_code();
        let ghost given = context@;
        let mut context = embed(context);
        match compile(scripts, &mut context) {
            Ok(commands) => {
                let needs_last = uses_last_line(&context.commands, commands);
                proof {
                    lemma_none_executes(context@.commands, given.commands.len(), context@.options);
                }
                Ok(Engine { commands, context, started: false, needs_last })
            },
            Err(error) => Err(CompileFailure { error, writers: context.writers }),
        }
    }

    /// Whether the semantics depend on whole, separate files, so that an engine is not the way
    /// to process them.
    pub fn needs_files(&self) -> (yes: bool)
        ensures
            yes == (self@.context.options.in_place || self@.context.options.separate),
    {
        self.context.in_place || self.context.separate
    }

    /// The delimiter of input lines: NUL or a line feed.
    pub fn delimiter(&self) -> (b: u8)
        ensures
            b == delimiter_of(self@.context),
    {
        if self.context.null_data {
            0
        } else {
            10
        }
    }

    /// Whether [`Engine::record`] is to be told which line is the last one, so that the
    /// embedder must read one line ahead.
    pub fn needs_last(&self) -> (yes: bool)
        ensures
            yes == self@.needs_last,
    {
        self.needs_last
    }

    /// Takes one input line, with its delimiter if it has one, apart for processing.
    pub fn record(&mut self, line: &[u8]) -> (record: Record)
        ensures
            record.first == !old(self)@.started,
            ({
                let ends = line.len() > 0 && line@.last() == delimiter_of(old(self)@.context);
                &&& record.terminated == ends
                &&& record.content@ == if ends {
                    line@.drop_last()
                } else {
                    line@
                }
            }),
            line@ == if record.terminated {
                record.content@.push(delimiter_of(old(self)@.context))
            } else {
                record.content@
            },
            final(self)@ == (EngineView { started: true, ..old(self)@ }),
    {
        let first = self.start();
        let delimiter = self.delimiter();
        if line.len() > 0 && line[line.len() - 1] == delimiter {
            let content = copy_range(line, 0, line.len() - 1);
            assert(content@ =~= line@.drop_last());
            assert(line@ =~= content@.push(delimiter));
            Record { first, content, terminated: true }
        } else {
            let content = copy_range(line, 0, line.len());
            assert(content@ =~= line@);
            Record { first, content, terminated: false }
        }
    }

    /// What to do once a record is processed.
    pub fn flow(&self) -> (flow: Flow)
        ensures
            flow == if self@.context.input.stop_processing {
                Flow::Quit
            } else {
                Flow::Continue
            },
    {
        if self.context.stop_processing {
            Flow::Quit
        } else {
            Flow::Continue
        }
    }

    /// Finishes after the last line (or a quit): gives the pending line of `N`, if there is
    /// one.
    pub fn finish(&mut self) -> (ending: Ending)
        ensures
            ending.first == !old(self)@.started,
            opt_view(ending.pending) == pending_output(old(self)@.context),
            final(self)@ == (EngineView {
                started: true,
                context: without_pending(old(self)@.context),
                ..old(self)@
            }),
    {
        let first = self.start();
        if self.context.quiet || self.context.stop_processing {
            return Ending { first, pending: None };
        }
        let action = self.context.input_action.take();
        match action {
            Some(InputAction { prepend: Some(line) }) => {
                let mut line = line;
                line.push(10);
                Ending { first, pending: Some(line) }
            },
            _ => Ending { first, pending: None },
        }
    }

    /// The exit status set by `q` or `Q`, else 0. It is the state of the process.
    pub fn exit_code(&self) -> (code: i32) {
        current_exit_code()
    }

    /// The compiled commands, and the state of processing.
    pub fn context(&mut self) -> (context: &mut ProcessingContext)
        ensures
            context@ == old(self)@.context,
            final(self)@ == (EngineView { context: final(context)@, ..old(self)@ }),
    {
        &mut self.context
    }

    /// The first command.
    pub fn commands(&self) -> (head: Option<usize>)
        ensures
            head == self@.commands,
    {
        self.commands
    }

    /// Marks the engine as started. Returns whether it was not.
    fn start(&mut self) -> (first: bool)
        ensures
            first == !old(self)@.started,
            final(self)@ == (EngineView { started: true, ..old(self)@ }),
    {
        let first = !self.started;
        self.started = true;
        first
    }
}

} // verus!
