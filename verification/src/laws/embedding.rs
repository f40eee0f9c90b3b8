//! Processing that is driven from outside, and the regular expressions that it matches.

use crate::command::{AddressView, CharacterMode, CommandView, ContextView, DataView, OptionsView};
use crate::compiler::limits::{allowed, executes, touches_files};
use crate::fast_regex::{
    RegexView, byte_text, bytes_text, engine_groups, engine_pattern, matches_characters,
};
use crate::incremental::{
    asks_for_last, delimiter_of, embedded, is_path, last_line_matters, leads_to, pending_output,
    reachable, without_pending,
};
use vstd::prelude::*;
use vstd::utf8::{encode_utf8, encode_utf8_decode_utf8, encode_utf8_valid_utf8, valid_utf8};

verus! {

/// Whether the command asks which line is the last one: it has an address `$`, or it is `n` or
/// `c`.
pub open spec fn asks(cmd: CommandView) -> bool {
    ||| cmd.addr1 == Some(AddressView::Last)
    ||| cmd.addr2 == Some(AddressView::Last)
    ||| cmd.code == 'n' || cmd.code == 'c'
}

/// Whether some command that the one at `i` leads to is at `j`.
pub open spec fn goes_to(commands: Seq<CommandView>, i: int, j: usize) -> bool {
    commands[i].next == Some(j) || commands[i].data == DataView::BranchTarget(Some(j))
}

/// The last line matters if the first command asks for it.
pub proof fn law_first_command_asks(commands: Seq<CommandView>, first: usize)
    requires
        first < commands.len(),
        asks(commands[first as int]),
    ensures
        last_line_matters(commands, Some(first)),
{
    let path = seq![first];
    assert(is_path(commands, first, path));
    assert(path.last() == first);
    assert(reachable(commands, first, first));
    assert(asks_for_last(commands[first as int]));
}

/// The last line matters if it does from a command on that the first one leads to.
pub proof fn law_later_command_asks(commands: Seq<CommandView>, first: usize, next: usize)
    requires
        first < commands.len(),
        goes_to(commands, first as int, next),
        next < commands.len(),
        last_line_matters(commands, Some(next)),
    ensures
        last_line_matters(commands, Some(first)),
{
    let i = choose|i: usize|
        i < commands.len() && #[trigger] reachable(commands, next, i) && asks_for_last(
            commands[i as int],
        );
    let path = choose|path: Seq<usize>| #[trigger]
        is_path(commands, next, path) && path.last() == i;
    let longer = seq![first] + path;
    assert(is_path(commands, first, longer)) by {
        assert forall|k: int| 0 <= k < longer.len() - 1 implies leads_to(
            commands,
            #[trigger] longer[k],
            longer[k + 1],
        ) by {
            if k > 0 {
                assert(leads_to(commands, path[k - 1], path[k - 1 + 1]));
            }
        }
    }
    assert(longer.last() == i);
    assert(reachable(commands, first, i));
}

/// The last line does not matter if the first command is among some that do not ask for it and
/// lead only to each other.
pub proof fn law_no_command_asks(commands: Seq<CommandView>, first: usize, some: Set<usize>)
    requires
        some.contains(first),
        forall|i: usize|
            #![trigger some.contains(i)]
            some.contains(i) && i < commands.len() ==> !asks(commands[i as int]),
        forall|i: usize, j: usize|
            #![trigger some.contains(i), some.contains(j)]
            some.contains(i) && i < commands.len() && j < commands.len() && goes_to(
                commands,
                i as int,
                j,
            ) ==> some.contains(j),
    ensures
        !last_line_matters(commands, Some(first)),
        !last_line_matters(commands, None),
{
    assert forall|i: usize| #[trigger]
        reachable(commands, first, i) && i < commands.len() implies !asks_for_last(
        commands[i as int],
    ) by {
        let path = choose|path: Seq<usize>| #[trigger]
            is_path(commands, first, path) && path.last() == i;
        lemma_path_stays(commands, first, some, path);
        assert(some.contains(i));
    }
}

/// A path from one of the commands stays among them.
proof fn lemma_path_stays(
    commands: Seq<CommandView>,
    first: usize,
    some: Set<usize>,
    path: Seq<usize>,
)
    requires
        some.contains(first),
        is_path(commands, first, path),
        forall|i: usize, j: usize|
            #![trigger some.contains(i), some.contains(j)]
            some.contains(i) && i < commands.len() && j < commands.len() && goes_to(
                commands,
                i as int,
                j,
            ) ==> some.contains(j),
    ensures
        some.contains(path.last()),
    decreases path.len(),
{
    if path.len() > 1 {
        let shorter = path.drop_last();
        assert(is_path(commands, first, shorter)) by {
            assert forall|k: int| 0 <= k < shorter.len() - 1 implies leads_to(
                commands,
                #[trigger] shorter[k],
                shorter[k + 1],
            ) by {
                assert(leads_to(commands, path[k], path[k + 1]));
            }
        }
        lemma_path_stays(commands, first, some, shorter);
        assert(leads_to(commands, path[path.len() - 2], path[path.len() - 2 + 1]));
        assert(goes_to(commands, shorter.last() as int, path.last()));
        assert(some.contains(path.last()));
    }
}

/// An engine runs no programs, takes all input for its last file, and starts outside of all
/// blocks. It keeps all other settings.
pub proof fn law_engine_keeps_settings(context: ContextView)
    ensures
        ({
            let own = embedded(context);
            &&& own.options.no_exec
            &&& own.input.last_file
            &&& own.parsed_block_nesting == 0
            &&& own.options.posix == context.options.posix
            &&& own.options.sandbox == context.options.sandbox
            &&& own.options.regex_extended == context.options.regex_extended
            &&& own.options.character_mode == context.options.character_mode
            &&& own.options.length == context.options.length
            &&& own.options.null_data == context.options.null_data
            &&& own.options.in_place == context.options.in_place
            &&& own.options.separate == context.options.separate
            &&& own.options.current_dir == context.options.current_dir
            &&& own.options.utf8_paths == context.options.utf8_paths
            &&& own.options.drive_paths == context.options.drive_paths
            &&& own.quiet == context.quiet
            &&& own.commands == context.commands
            &&& own.labels == context.labels
            &&& own.range_commands == context.range_commands
            &&& own.writers == context.writers
            &&& own.input.line_number == context.input.line_number
            &&& own.input.stop_processing == context.input.stop_processing
            &&& own.input.input_action == context.input.input_action
        }),
{
}

/// What options allow: in a sandbox no command runs a program or names a file, without a shell
/// none runs a program, and in POSIX mode none runs a program, has line 0 or a step for an
/// address, or ignores case or matches at inner line ends in a substitution.
pub proof fn law_what_options_allow(cmd: CommandView, options: OptionsView)
    requires
        allowed(cmd, options),
    ensures
        options.sandbox || options.no_exec || options.posix ==> {
            &&& cmd.code != 'e'
            &&& cmd.data matches DataView::Substitution(subst) ==> !subst.execute
        },
        options.sandbox ==> {
            &&& !(cmd.data is Path) && !(cmd.data is NamedWriter) && !(cmd.data is NamedReader)
            &&& cmd.data matches DataView::Substitution(subst) ==> subst.write_file is None
        },
        options.posix ==> {
            &&& cmd.addr1 != Some(AddressView::Line(0))
            &&& !(cmd.addr2 matches Some(AddressView::StepMatch(_)))
            &&& !(cmd.addr2 matches Some(AddressView::StepEnd(_)))
            &&& cmd.code != 'z' && cmd.code != 'F' && cmd.code != 'R' && cmd.code != 'T' && cmd.code
                != 'W' && cmd.code != 'v'
            &&& cmd.data matches DataView::Substitution(subst) ==> !subst.ignore_case
                && !subst.multiline
        },
{
}

/// A command runs a program exactly if it is `e`, or a substitution with that flag.
pub proof fn law_what_runs_programs(cmd: CommandView)
    ensures
        executes(cmd) <==> cmd.code == 'e' || (cmd.data matches DataView::Substitution(subst)
            && subst.execute),
        touches_files(cmd) <==> cmd.data is Path || cmd.data is NamedWriter || cmd.data is NamedReader
            || (cmd.data matches DataView::Substitution(subst) && subst.write_file is Some),
{
}

/// Lines end in NUL if the options say so, and in a line feed if they do not.
pub proof fn law_delimiter(context: ContextView)
    ensures
        delimiter_of(context) == 0 <==> context.options.null_data,
        delimiter_of(context) == 10 <==> !context.options.null_data,
{
}

/// The line that waits for another one is output with a line feed behind it, but not if lines
/// are not printed by default, nor if processing has ended. Nothing waits then.
pub proof fn law_waiting_line_is_output(context: ContextView, line: Seq<u8>)
    ensures
        pending_output(context) is Some <==> !context.quiet && !context.input.stop_processing && (
        context.input.input_action matches Some(Some(_))),
        !context.quiet && !context.input.stop_processing && context.input.input_action == Some(
            Some(line),
        ) ==> pending_output(context) == Some(line + seq![10u8]),
        !context.quiet && !context.input.stop_processing ==> without_pending(
            context,
        ).input.input_action is None,
        without_pending(context).commands == context.commands,
        without_pending(context).options == context.options,
        without_pending(context).input.line_number == context.input.line_number,
{
    assert(line.push(10) =~= line + seq![10u8]);
}

/// In UTF-8 mode, the engine gets the characters that the pattern encodes, and matches
/// characters.
pub proof fn law_pattern_of_characters(chars: Seq<char>)
    ensures
        matches_characters(encode_utf8(chars), CharacterMode::Utf8),
        engine_pattern(encode_utf8(chars), CharacterMode::Utf8) == chars,
{
    encode_utf8_valid_utf8(chars);
    encode_utf8_decode_utf8(chars);
}

/// In byte mode, and where the pattern is no UTF-8, the engine gets the pattern piece by piece,
/// and matches single bytes.
pub proof fn law_pattern_of_bytes(a: Seq<u8>, b: Seq<u8>, mode: CharacterMode)
    requires
        mode == CharacterMode::Byte || !valid_utf8(a + b),
    ensures
        !matches_characters(a + b, mode),
        engine_pattern(a + b, mode) == bytes_text(a) + bytes_text(b),
{
    lemma_bytes_text(a, b);
}

/// Bytes one behind the other.
proof fn lemma_bytes_text(a: Seq<u8>, b: Seq<u8>)
    ensures
        bytes_text(a + b) == bytes_text(a) + bytes_text(b),
    decreases b.len(),
{
    if b.len() == 0 {
        assert(a + b =~= a);
        assert(bytes_text(a) + bytes_text(b) =~= bytes_text(a));
    } else {
        let before = b.drop_last();
        lemma_bytes_text(a, before);
        assert((a + b).drop_last() =~= a + before);
        assert((a + b).last() == b.last());
        assert((bytes_text(a) + bytes_text(before)) + byte_text(b.last()) =~= bytes_text(a) + (
        bytes_text(before) + byte_text(b.last())));
    }
}

/// The value of a hexadecimal digit.
pub open spec fn hex_value(c: char) -> int {
    if '0' <= c <= '9' {
        c as int - '0' as int
    } else {
        c as int - 'A' as int + 10
    }
}

/// A byte that stands alone in such a pattern is itself if it is ASCII; any other is `\\x` and
/// the two hexadecimal digits of its number.
pub proof fn law_byte_in_pattern(b: u8)
    ensures
        ({
            let text = bytes_text(seq![b]);
            if b < 128 {
                text == seq![b as char]
            } else {
                &&& text.len() == 4
                &&& text[0] == '\\' && text[1] == 'x'
                &&& '0' <= text[2] <= '9' || 'A' <= text[2] <= 'F'
                &&& '0' <= text[3] <= '9' || 'A' <= text[3] <= 'F'
                &&& 16 * hex_value(text[2]) + hex_value(text[3]) == b
            }
        }),
{
    let one = seq![b];
    assert(one.drop_last() =~= Seq::empty());
    assert(bytes_text(one.drop_last()) =~= Seq::empty());
    assert(bytes_text(one) =~= byte_text(b));
}

/// The groups of an expression are those that the engine finds in the pattern that it gets, by
/// characters or by single bytes.
pub proof fn law_groups_are_found(chars: Seq<char>, bytes: Seq<u8>, mode: CharacterMode)
    requires
        mode == CharacterMode::Byte || !valid_utf8(bytes),
    ensures
        (RegexView { pattern: encode_utf8(chars), mode: CharacterMode::Utf8 }).groups()
            == engine_groups(chars, true),
        (RegexView { pattern: bytes, mode }).groups() == engine_groups(bytes_text(bytes), false),
{
    law_pattern_of_characters(chars);
}

} // verus!
