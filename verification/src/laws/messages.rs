//! What is said of scripts that do not compile, and of which place.

use crate::command::{CommandView, ContextView, DataView, RegexMode, SubstitutionView};
use crate::compiler::address::{address_at, as_chars, range_at};
use crate::compiler::cursor::Cursor;
use crate::compiler::flags::{
    Flags, flag_at, flags_at, flags_from, letter_at, without_flags, writer_at,
};
use crate::compiler::graph::{
    defined_label, labels_of, lemma_visit_in_range, resolved_data, resolved_of, visit, with_data,
};
use crate::compiler::handling::CommandHandling;
use crate::compiler::linked_script;
use crate::compiler::links::law_each_command_is_visited_once;
use crate::compiler::regex::{regex_at, regex_source};
use crate::compiler::sequence::{SequenceOutcome, command_at};
use crate::compiler::shape::one_tree;
use crate::compiler::simple::{
    label_command, label_end, number_command, read_file_command, read_line_command,
    write_file_command,
};
use crate::compiler::substitute::{subst_argument, subst_command};
use crate::compiler::table::{CommandHandler, handle, verified_spec};
use crate::compiler::text::{execute_command, posix_text, text_command};
use crate::compiler::transliterate::trans_command;
use crate::error_handling::{ErrorView, LocationView, law_remapping_keeps_place, located_error};
use crate::fast_regex::RegexView;
use crate::in_place::{Attempt, attempt_paths, attempt_text, not_regular};
use crate::laws::addresses::{Written, law_address_is_read};
use crate::laws::commands::{is_command, most_addresses, stands_alone};
use crate::laws::delimited::{backslash_if, law_regex_must_end};
use crate::laws::flags::is_flag;
use crate::laws::numbers::{lemma_digits_stop, lemma_value};
use crate::laws::replacements::is_delimiter;
use crate::laws::scripts::{defines_label, may_branch};
use crate::laws::substitutions::{in_engine_syntax, modified_regex};
use crate::laws::writing::{
    all_blank, all_decimal, end_of, is_white, lemma_bare, lemma_blanks, lemma_pieces, rest_is,
    stands_at, value_of,
};
use crate::named_writer::{WriterView, file_failure};
use crate::quoting::{quotes_simply, shows_name, single_quoted};
use crate::script_line_provider::opening_text;
use crate::text::{decimal, lossy_text};
use vstd::prelude::*;
use vstd::utf8::valid_utf8;

verus! {

/// Whether the command at `at` is in error, with the given message and at the given place.
pub open spec fn is_refused(
    at: Cursor,
    context: ContextView,
    reason: Seq<char>,
    place: Cursor,
    message: Seq<char>,
) -> bool {
    command_at(at, context, reason).result == Err::<CommandHandling, ErrorView>(
        place.error(message),
    )
}

/// What is said where no command stands, where its letter is none, and where it has too many
/// addresses.
pub proof fn law_messages_on_letters(at: Cursor, context: ContextView, reason: Seq<char>)
    requires
        range_at(at, context, reason).result is Ok,
    ensures
        ({
            let range = range_at(at, context, reason);
            let start = range.at.past_spaces();
            let found = range.result->Ok_0;
            let most = most_addresses(start.byte(), context.options.posix);
            &&& start.eol() ==> is_refused(at, context, reason, start, "command expected"@)
            &&& !start.eol() && !is_command(start.byte(), context.options.posix) ==> is_refused(
                at,
                context,
                reason,
                start,
                "unknown command: `"@ + seq![start.byte() as char] + "'"@,
            )
            &&& !start.eol() && is_command(start.byte(), context.options.posix) && found > most
                ==> is_refused(
                at,
                context,
                reason,
                start,
                "command "@ + seq![start.byte() as char] + " expects up to "@ + decimal(
                    most as nat,
                ) + " address(es), found "@ + decimal(found as nat),
            )
        }),
{
    reveal(command_at);
    reveal(verified_spec);
}

/// What is said of a second `!`.
pub proof fn law_message_on_negation(
    at: Cursor,
    gap: Seq<u8>,
    context: ContextView,
    reason: Seq<char>,
)
    requires
        all_blank(gap),
        rest_is(at, seq![33u8] + (gap + seq![33u8])),
    ensures
        is_refused(at, context, reason, end_of(at), "multiple `!'s"@),
{
    let text = at.line.text;
    let pos = at.line.pos;
    lemma_pieces(text, pos, seq![33u8], gap + seq![33u8]);
    lemma_pieces(text, pos + 1, gap, seq![33u8]);
    assert(text[pos] == seq![33u8][0]);
    assert(text[pos + 1 + gap.len()] == seq![33u8][0]);
    lemma_blanks(text, pos + 1, gap);
    assert(at.past_spaces() == at);
    let end = end_of(at);
    assert(end.past_spaces() == end);
    reveal(command_at);
    reveal(verified_spec);
    reveal(handle);
}

/// What is said of a `}` without a `{`, and of too many of those.
pub proof fn law_messages_on_blocks(at: Cursor, context: ContextView, reason: Seq<char>)
    requires
        0 <= at.line.pos < at.line.text.len(),
        context.parsed_block_nesting < usize::MAX,
    ensures
        at.byte() == 125 && context.parsed_block_nesting == 0 ==> is_refused(
            at,
            context,
            reason,
            at,
            "unexpected `}'"@,
        ),
        at.byte() == 123 && context.parsed_block_nesting >= 5_000 ==> is_refused(
            at,
            context,
            reason,
            at.next(),
            "`{' blocks are nested too deeply"@,
        ),
{
    if at.byte() == 125 {
        lemma_bare(at, context, reason, CommandHandler::EndGroup);
    }
    if at.byte() == 123 {
        lemma_bare(at, context, reason, CommandHandler::Block);
    }
    reveal(handle);
}

/// What is said of a `:` without a label.
pub proof fn law_message_on_label(
    at: Cursor,
    gap: Seq<u8>,
    context: ContextView,
    reason: Seq<char>,
)
    requires
        all_blank(gap),
        rest_is(at, seq![58u8] + gap),
    ensures
        is_refused(at, context, reason, end_of(at), "empty label"@),
{
    let text = at.line.text;
    let pos = at.line.pos;
    lemma_pieces(text, pos, seq![58u8], gap);
    assert(text[pos] == seq![58u8][0]);
    lemma_blanks(text, pos + 1, gap);
    lemma_bare(at, context, reason, CommandHandler::Label);
    reveal(handle);
    reveal(label_command);
    assert(label_end(text, text.len() as int) == text.len());
}

/// What is said of something behind a letter that stands alone.
pub proof fn law_message_on_extra_characters(
    at: Cursor,
    letter: u8,
    gap: Seq<u8>,
    context: ContextView,
    reason: Seq<char>,
)
    requires
        stands_alone(letter, context.options.posix),
        all_blank(gap),
        stands_at(at.line.text, at.line.pos, seq![letter] + gap),
        ({
            let behind = at.at_pos(at.line.pos + 1 + gap.len());
            !behind.eol() && !is_white(behind.byte()) && behind.byte() != 59 && behind.byte()
                != 125
        }),
    ensures
        is_refused(
            at,
            context,
            reason,
            at.at_pos(at.line.pos + 1 + gap.len()),
            "extra characters at the end of the "@ + seq![letter as char] + " command"@,
        ),
{
    let text = at.line.text;
    let pos = at.line.pos;
    lemma_pieces(text, pos, seq![letter], gap);
    assert(text[pos] == seq![letter][0]);
    lemma_blanks(text, pos + 1, gap);
    lemma_bare(at, context, reason, CommandHandler::Empty);
    reveal(handle);
}

/// What is said where `r`, `R`, `w` and `W` name no file, or one that they may not or cannot
/// name.
pub proof fn law_messages_on_files(
    at: Cursor,
    code: char,
    gap: Seq<u8>,
    path: Seq<u8>,
    context: ContextView,
    reason: Seq<char>,
)
    requires
        code == 'r' || code == 'w' || !context.options.posix && (code == 'R' || code == 'W'),
        all_blank(gap),
        path.len() > 0 ==> !is_white(path[0]),
        rest_is(at, seq![code as u8] + (gap + path)),
    ensures
        context.options.sandbox ==> is_refused(
            at,
            context,
            reason,
            at,
            "e/r/w commands disabled in sandbox mode"@,
        ),
        !context.options.sandbox && path.len() == 0 ==> is_refused(
            at,
            context,
            reason,
            end_of(at),
            "missing filename in r/R/w/W commands"@,
        ),
        !context.options.sandbox && path.len() > 0 && context.options.utf8_paths && !valid_utf8(
            path,
        ) ==> is_refused(
            at,
            context,
            reason,
            end_of(at),
            "invalid characters file path: invalid UTF-8"@,
        ),
{
    let text = at.line.text;
    let pos = at.line.pos;
    let from = pos + 1 + gap.len();
    lemma_pieces(text, pos, seq![code as u8], gap + path);
    lemma_pieces(text, pos + 1, gap, path);
    assert(text[pos] == seq![code as u8][0]);
    if path.len() > 0 {
        assert(text[from] == path[0]);
    }
    lemma_blanks(text, pos + 1, gap);
    assert(text.skip(from) =~= path) by {
        assert forall|i: int| 0 <= i < path.len() implies #[trigger] text.skip(from)[i]
            == path[i] by {
            assert(text[from + i] == path[i]);
        }
    }
    reveal(handle);
    if code == 'r' {
        lemma_bare(at, context, reason, CommandHandler::ReadFile);
        reveal(read_file_command);
    } else if code == 'R' {
        lemma_bare(at, context, reason, CommandHandler::ReadLine);
        reveal(read_line_command);
    } else {
        lemma_bare(at, context, reason, CommandHandler::WriteFile);
        reveal(write_file_command);
    }
}

/// What is said of a number that is too large.
pub proof fn law_message_on_number(
    at: Cursor,
    code: char,
    digits: Seq<u8>,
    context: ContextView,
    reason: Seq<char>,
)
    requires
        code == 'l' || code == 'q' || code == 'Q',
        all_decimal(digits),
        digits.len() > 0,
        value_of(digits) > usize::MAX,
        rest_is(at, seq![code as u8] + digits),
    ensures
        is_refused(
            at,
            context,
            reason,
            end_of(at),
            "invalid number '"@ + Seq::new(digits.len(), |i: int| digits[i] as char) + "'"@,
        ),
{
    let text = at.line.text;
    let pos = at.line.pos;
    lemma_pieces(text, pos, seq![code as u8], digits);
    assert(text[pos] == seq![code as u8][0]);
    assert(text[pos + 1] == digits[0]);
    assert(48 <= digits[0] <= 57);
    lemma_value(text, pos + 1, digits);
    lemma_digits_stop(text, pos + 1, digits);
    assert(at.next().past_spaces() == at.next());
    lemma_bare(at, context, reason, CommandHandler::Number);
    reveal(handle);
    reveal(number_command);
    assert(as_chars(text.subrange(pos + 1, text.len() as int))
        =~= Seq::new(digits.len(), |i: int| digits[i] as char)) by {
        assert forall|i: int| 0 <= i < digits.len() implies #[trigger] text.subrange(
            pos + 1,
            text.len() as int,
        )[i] == digits[i] by {
            assert(text[pos + 1 + i] == digits[i]);
        }
    }
}

/// What is said of line 0 where it cannot be.
pub proof fn law_messages_on_line_zero(
    at: Cursor,
    digits: Seq<u8>,
    gap: Seq<u8>,
    context: ContextView,
    reason: Seq<char>,
)
    requires
        all_decimal(digits),
        digits.len() > 0,
        value_of(digits) == 0,
        all_blank(gap),
        stands_at(at.line.text, at.line.pos, digits + gap),
        ({
            let behind = at.line.pos + digits.len() + gap.len();
            behind < at.line.text.len() ==> {
                &&& !is_white(at.line.text[behind])
                &&& !(48 <= at.line.text[behind] <= 57)
                &&& at.line.text[behind] != 44
                &&& at.line.text[behind] != 126
                &&& at.line.text[behind] != 114
            }
        }),
    ensures
        ({
            let behind = at.at_pos(at.line.pos + digits.len() + gap.len());
            if context.options.posix {
                is_refused(
                    at,
                    context,
                    reason,
                    at.at_pos(at.line.pos + digits.len()),
                    "address 0 is invalid in POSIX mode"@,
                )
            } else {
                is_refused(
                    at,
                    context,
                    reason,
                    behind,
                    "address 0 can only be used with ~step, a second regular expression, or a read command"@,
                )
            }
        }),
{
    let address = Written::Numeral(digits);
    let text = at.line.text;
    let pos = at.line.pos;
    lemma_pieces(text, pos, digits, gap);
    assert(text[pos] == digits[0]);
    assert(48 <= digits[0] <= 57);
    if gap.len() > 0 {
        assert(text[pos + digits.len()] == gap[0]);
    }
    assert(at.past_spaces() == at);
    law_address_is_read(at, address, gap, context, reason);
    lemma_value(text, pos, digits);
    lemma_digits_stop(text, pos, digits);
    reveal(address_at);
    reveal(command_at);
}

/// What is said where a line ends behind a `,` or a `~`.
pub proof fn law_message_on_missing_address(
    at: Cursor,
    digits: Seq<u8>,
    separator: u8,
    gap: Seq<u8>,
    context: ContextView,
    reason: Seq<char>,
)
    requires
        all_decimal(digits),
        digits.len() > 0,
        0 < value_of(digits) <= usize::MAX,
        separator == 44 || separator == 126 && !context.options.posix,
        all_blank(gap),
        rest_is(at, digits + (seq![separator] + gap)),
    ensures
        is_refused(at, context, reason, end_of(at), "command expected"@),
{
    let address = Written::Numeral(digits);
    let text = at.line.text;
    let pos = at.line.pos;
    let none = Seq::<u8>::empty();
    lemma_pieces(text, pos, digits, seq![separator] + gap);
    lemma_pieces(text, pos + digits.len(), seq![separator], gap);
    assert(text[pos] == digits[0]);
    assert(48 <= digits[0] <= 57);
    assert(text[pos + digits.len()] == seq![separator][0]);
    assert(at.past_spaces() == at);
    assert(digits + none =~= digits);
    law_address_is_read(at, address, none, context, reason);
    lemma_blanks(text, pos + digits.len() + 1, gap);
    let here = at.at_pos(pos + digits.len());
    assert(here.past_spaces() == here);
    let end = end_of(at);
    assert(end.past_spaces() == end);
    reveal(command_at);
    reveal(verified_spec);
}

/// What is said of `s` and `y` where their arguments are missing, or start with what can be no
/// delimiter.
pub proof fn law_messages_on_delimiters(at: Cursor, context: ContextView, reason: Seq<char>)
    requires
        0 <= at.line.pos < at.line.text.len(),
    ensures
        at.byte() == 115 && at.next().eol() ==> is_refused(
            at,
            context,
            reason,
            at.next(),
            "unterminated `s' command"@,
        ),
        at.byte() == 115 && !at.next().eol() && (at.next().byte() == 92 || at.next().byte() == 0)
            ==> is_refused(
            at,
            context,
            reason,
            at.next(),
            "substitute pattern cannot be delimited by newline or backslash"@,
        ),
        at.byte() == 121 && at.next().eol() ==> is_refused(
            at,
            context,
            reason,
            at.next(),
            "unterminated `y' command"@,
        ),
        at.byte() == 121 && !at.next().eol() && (at.next().byte() == 92 || at.next().byte() == 0)
            ==> is_refused(
            at,
            context,
            reason,
            at.next(),
            "transliteration string cannot be delimited by newline or backslash"@,
        ),
{
    reveal(handle);
    if at.byte() == 115 {
        lemma_bare(at, context, reason, CommandHandler::Subst);
        reveal(subst_command);
        reveal(subst_argument);
    }
    if at.byte() == 121 {
        lemma_bare(at, context, reason, CommandHandler::Trans);
        reveal(trans_command);
    }
}

/// What is said of an expression that does not end, in an address and in a substitution.
pub proof fn law_messages_on_missing_ends(
    at: Cursor,
    pattern: Seq<u8>,
    slash: bool,
    delimiter: u8,
    context: ContextView,
    reason: Seq<char>,
)
    requires
        is_delimiter(delimiter),
        forall|i: int|
            0 <= i < pattern.len() ==> #[trigger] pattern[i] != 92 && pattern[i] != 91
                && pattern[i] != delimiter,
    ensures
        rest_is(at, seq![115u8] + (seq![delimiter] + (pattern + backslash_if(slash))))
            ==> is_refused(at, context, reason, end_of(at), "unterminated `s' command"@),
        delimiter == 47 && rest_is(at, seq![delimiter] + (pattern + backslash_if(slash)))
            ==> is_refused(at, context, reason, end_of(at), "unterminated address regex"@),
{
    let text = at.line.text;
    let pos = at.line.pos;
    let rest = seq![delimiter] + (pattern + backslash_if(slash));
    let mode = if context.options.regex_extended {
        RegexMode::Extended
    } else {
        RegexMode::Basic
    };
    let end = end_of(at);
    law_remapping_keeps_place(end.location(), "unterminated `s' command"@);
    law_remapping_keeps_place(end.location(), "unterminated address regex"@);
    if rest_is(at, seq![115u8] + rest) {
        lemma_pieces(text, pos, seq![115u8], rest);
        assert(text[pos] == seq![115u8][0]);
        assert(text[pos + 1] == rest[0]);
        law_regex_must_end(at.next(), pattern, slash, delimiter, mode, context.options.posix);
        lemma_bare(at, context, reason, CommandHandler::Subst);
        reveal(handle);
        reveal(subst_command);
        reveal(subst_argument);
    }
    if delimiter == 47 && rest_is(at, rest) {
        assert(text[pos] == rest[0]);
        law_regex_must_end(at, pattern, slash, delimiter, mode, context.options.posix);
        assert(at.past_spaces() == at);
        reveal(address_at);
        reveal(command_at);
    }
}

/// What is said of something behind the backslash of `a`, `c` or `i` in POSIX mode.
pub proof fn law_message_on_text_line(
    at: Cursor,
    code: char,
    gap: Seq<u8>,
    last_gap: Seq<u8>,
    context: ContextView,
    reason: Seq<char>,
)
    requires
        code == 'a' || code == 'c' || code == 'i',
        context.options.posix,
        all_blank(gap) && all_blank(last_gap),
        stands_at(
            at.line.text,
            at.line.pos,
            seq![code as u8] + (gap + (seq![92u8] + last_gap)),
        ),
        ({
            let behind = at.at_pos(at.line.pos + 2 + gap.len() + last_gap.len());
            !behind.eol() && !is_white(behind.byte())
        }),
    ensures
        is_refused(
            at,
            context,
            reason,
            at.at_pos(at.line.pos + 2 + gap.len() + last_gap.len()),
            "extra characters after \\ at the end of `"@ + seq![code] + "' command"@,
        ),
{
    let text = at.line.text;
    let pos = at.line.pos;
    lemma_pieces(text, pos, seq![code as u8], gap + (seq![92u8] + last_gap));
    lemma_pieces(text, pos + 1, gap, seq![92u8] + last_gap);
    let from = pos + 1 + gap.len();
    lemma_pieces(text, from, seq![92u8], last_gap);
    assert(text[pos] == seq![code as u8][0]);
    assert(text[from] == seq![92u8][0]);
    lemma_blanks(text, pos + 1, gap);
    lemma_blanks(text, from + 1, last_gap);
    assert(at.next().past_spaces() == at.at_pos(from));
    lemma_bare(at, context, reason, CommandHandler::Text);
    reveal(handle);
    reveal(text_command);
    reveal(posix_text);
}

/// What is said of `a`, `c` and `i` in POSIX mode where the script ends behind the backslash.
pub proof fn law_message_on_missing_text(
    at: Cursor,
    code: char,
    gap: Seq<u8>,
    context: ContextView,
    reason: Seq<char>,
)
    requires
        code == 'a' || code == 'c' || code == 'i',
        context.options.posix,
        all_blank(gap),
        rest_is(at, seq![code as u8] + (gap + seq![92u8])),
        at.script.rest.lines.len() == 0,
        at.script.rest.failure is None,
    ensures
        is_refused(at, context, reason, end_of(at).after_read(), "incomplete command"@),
{
    let text = at.line.text;
    let pos = at.line.pos;
    lemma_pieces(text, pos, seq![code as u8], gap + seq![92u8]);
    lemma_pieces(text, pos + 1, gap, seq![92u8]);
    let from = pos + 1 + gap.len();
    assert(text[pos] == seq![code as u8][0]);
    assert(text[from] == seq![92u8][0]);
    lemma_blanks(text, pos + 1, gap);
    assert(at.next().past_spaces() == at.at_pos(from));
    let end = end_of(at);
    assert(end.past_spaces() == end);
    lemma_bare(at, context, reason, CommandHandler::Text);
    reveal(handle);
    reveal(text_command);
    reveal(posix_text);
}

/// What is said of `a`, `c` and `i` without text.
pub proof fn law_message_on_text(
    at: Cursor,
    code: char,
    gap: Seq<u8>,
    context: ContextView,
    reason: Seq<char>,
)
    requires
        code == 'a' || code == 'c' || code == 'i',
        all_blank(gap),
        rest_is(at, seq![code as u8] + gap),
    ensures
        is_refused(at, context, reason, end_of(at), "expected \\ after `a', `c' or `i'"@),
{
    let text = at.line.text;
    let pos = at.line.pos;
    lemma_pieces(text, pos, seq![code as u8], gap);
    assert(text[pos] == seq![code as u8][0]);
    lemma_blanks(text, pos + 1, gap);
    lemma_bare(at, context, reason, CommandHandler::Text);
    reveal(handle);
    reveal(text_command);
    reveal(posix_text);
}

/// What is said of `e` where programs cannot be run.
pub proof fn law_messages_on_programs(at: Cursor, context: ContextView, reason: Seq<char>)
    requires
        0 <= at.line.pos < at.line.text.len(),
        at.byte() == 101,
    ensures
        context.options.posix || context.options.sandbox ==> is_refused(
            at,
            context,
            reason,
            at,
            "the 'e' command is not allowed with --posix or --sandbox"@,
        ),
        !context.options.posix && !context.options.sandbox && context.options.no_exec
            ==> is_refused(
            at,
            context,
            reason,
            at,
            "the 'e' command and substitute flag are unsupported here: no shell to run"@,
        ),
{
    lemma_bare(at, context, reason, CommandHandler::Execute);
    reveal(handle);
    reveal(execute_command);
}

/// What is said of what is no flag of `s`, and of a flag that cannot be there.
pub proof fn law_messages_on_flags(
    at: Cursor,
    subst: SubstitutionView,
    posix: bool,
    sandbox: bool,
)
    requires
        0 <= at.line.pos < at.line.text.len(),
    ensures
        ({
            let b = at.byte();
            let result = flags_at(at, subst, posix, sandbox).result;
            &&& !is_flag(b) && !(49 <= b <= 57) && b != 119 && b != 59 && !is_white(b) ==> result
                == Err::<(), ErrorView>(at.error("unknown option to `s'"@))
            &&& posix && (b == 105 || b == 73 || b == 109 || b == 77) ==> result == Err::<
                (),
                ErrorView,
            >(at.error("unknown option to `s'"@))
            &&& (posix || sandbox) && b == 101 ==> result == Err::<(), ErrorView>(
                at.error("the 'e' substitute flag is not allowed with --posix or --sandbox"@),
            )
            &&& sandbox && b == 119 ==> result == Err::<(), ErrorView>(
                at.error("e/r/w commands disabled in sandbox mode"@),
            )
            &&& b == 103 && !at.next().eol() && at.next().byte() == 103 ==> result == Err::<
                (),
                ErrorView,
            >(at.next().error("multiple `g' options to `s' command"@))
        }),
{
    reveal(flags_at);
    reveal(flag_at);
    reveal(letter_at);
    reveal(writer_at);
    let flags = Flags { at, subst: without_flags(subst), seen_g: false, seen_n: false };
    assert(!is_white(at.byte()) ==> at.past_spaces() == at);
    if at.byte() == 103 && !at.next().eol() && at.next().byte() == 103 {
        let more = flag_at(flags, posix, sandbox)->More_0;
        assert(more.at == at.next());
        assert(more.at.past_spaces() == more.at);
        assert(flag_at(more, posix, sandbox) is Wrong);
        assert(flags_from(more, posix, sandbox).result is Err);
    }
}

/// What is said of an expression that the engine refuses: the expression that it got, and its
/// words.
pub proof fn law_message_on_expression(
    at: Cursor,
    pattern: Seq<u8>,
    icase: bool,
    multiline: bool,
    context: ContextView,
    reason: Seq<char>,
)
    requires
        pattern.len() > 0,
    ensures
        ({
            let regex = modified_regex(pattern, icase, multiline, context);
            let result = regex_at(at, pattern, context, icase, multiline, reason);
            if regex.groups() is Some {
                result == Ok::<Option<RegexView>, ErrorView>(Some(regex))
            } else {
                result == Err::<Option<RegexView>, ErrorView>(
                    ErrorView {
                        code: 1,
                        message: at.error(
                            "invalid regex '"@ + lossy_text(regex.pattern) + "': "@ + reason,
                        ).message,
                        reason: Some(reason),
                    },
                )
            }
        }),
{
    reveal(regex_at);
    reveal(located_error);
    let expression = in_engine_syntax(pattern, context.options.regex_extended);
    let none = Seq::<u8>::empty();
    assert(none + expression =~= expression);
    assert(regex_source(pattern, context, icase, multiline) =~= modified_regex(
        pattern,
        icase,
        multiline,
        context,
    ));
}

/// Whether the error is that a command defines a label that is defined already.
pub open spec fn says_duplicate(error: ErrorView, cmd: CommandView, label: Seq<char>) -> bool {
    &&& defines_label(cmd, label)
    &&& error == located_error(cmd.location, "duplicate label `"@ + label + "'"@, 1)
}

/// Whether the error is that a branch names a label that is not defined.
pub open spec fn says_undefined(error: ErrorView, cmd: CommandView, label: Seq<char>) -> bool {
    &&& may_branch(cmd)
    &&& cmd.data == DataView::Label(Some(label))
    &&& error == located_error(cmd.location, "undefined label `"@ + label + "'"@, 1)
}

/// The error on labels is one of a command on the way.
proof fn lemma_label_error(
    commands: Seq<CommandView>,
    order: Seq<usize>,
    labels: Map<Seq<char>, usize>,
)
    ensures
        labels_of(commands, order, labels).0 matches Err(e) ==> exists|k: int, label: Seq<char>|
            0 <= k < order.len() && #[trigger] says_duplicate(
                e,
                commands[order[k] as int],
                label,
            ),
    decreases order.len(),
{
    if order.len() > 0 {
        let cmd = commands[order[0] as int];
        let later = order.drop_first();
        if let Some(label) = defined_label(cmd) {
            if labels.contains_key(label) {
                if let Err(e) = labels_of(commands, order, labels).0 {
                    assert(says_duplicate(e, commands[order[0] as int], label));
                }
            } else {
                lemma_label_error(commands, later, labels.insert(label, order[0]));
            }
        } else {
            lemma_label_error(commands, later, labels);
        }
        if let Err(e) = labels_of(commands, order, labels).0 {
            if !(exists|label: Seq<char>| says_duplicate(e, commands[order[0] as int], label)) {
                let (k, label) = choose|k: int, label: Seq<char>|
                    0 <= k < later.len() && #[trigger] says_duplicate(
                        e,
                        commands[later[k] as int],
                        label,
                    );
                assert(says_duplicate(e, commands[order[k + 1] as int], label));
            }
        }
    }
}

/// What is said of a script whose labels do not fit, and of one with a block that is still open.
pub proof fn law_messages_on_scripts(
    sequence: SequenceOutcome,
    head: Option<usize>,
    base: int,
)
    requires
        0 <= base <= sequence.context.commands.len() <= usize::MAX,
        one_tree(sequence.context.commands, head, base),
    ensures
        ({
            let tree = sequence.context.commands;
            let order = visit(tree, head);
            let (labelled, labels) = labels_of(tree, order, sequence.context.labels);
            let out = linked_script(sequence, head);
            &&& labelled is Err ==> (out.result matches Err(e) && exists|i: int, label: Seq<char>|
                base <= i < tree.len() && #[trigger] says_duplicate(e, tree[i], label))
            &&& labelled is Ok && resolved_of(tree, order, labels).0 is Ok
                && sequence.context.parsed_block_nesting > 0 ==> out.result == Err::<
                Option<usize>,
                ErrorView,
            >(
                located_error(
                    LocationView {
                        name: sequence.at.script.name,
                        line: sequence.at.script.number,
                        column: 0,
                    },
                    "unmatched `{'"@,
                    1,
                ),
            )
        }),
{
    let tree = sequence.context.commands;
    let order = visit(tree, head);
    lemma_label_error(tree, order, sequence.context.labels);
    law_each_command_is_visited_once(tree, head, base);
    if let Err(e) = labels_of(tree, order, sequence.context.labels).0 {
        let (k, label) = choose|k: int, label: Seq<char>|
            0 <= k < order.len() && #[trigger] says_duplicate(e, tree[order[k] as int], label);
        assert(order.contains(order[k]));
        assert(says_duplicate(e, tree[order[k] as int], label));
    }
}

/// The error on branches is one of a command on the way.
proof fn lemma_branch_error(
    commands: Seq<CommandView>,
    order: Seq<usize>,
    labels: Map<Seq<char>, usize>,
)
    requires
        forall|k: int| 0 <= k < order.len() ==> #[trigger] order[k] < commands.len(),
        order.no_duplicates(),
    ensures
        resolved_of(commands, order, labels).0 matches Err(e) ==> exists|k: int, label: Seq<char>|
            0 <= k < order.len() && !labels.contains_key(label) && #[trigger] says_undefined(
                e,
                commands[order[k] as int],
                label,
            ),
    decreases order.len(),
{
    if order.len() > 0 {
        let cmd = commands[order[0] as int];
        let later = order.drop_first();
        match resolved_data(cmd, labels) {
            Ok(data) => {
                let once = with_data(commands, order[0], data);
                lemma_branch_error(once, later, labels);
                if let Err(e) = resolved_of(commands, order, labels).0 {
                    let (k, label) = choose|k: int, label: Seq<char>|
                        0 <= k < later.len() && !labels.contains_key(label)
                            && #[trigger] says_undefined(e, once[later[k] as int], label);
                    assert(later[k] == order[k + 1]);
                    assert(order[k + 1] != order[0]);
                    assert(says_undefined(e, commands[order[k + 1] as int], label));
                }
            },
            Err(label) => {
                let e = resolved_of(commands, order, labels).0->Err_0;
                assert(says_undefined(e, commands[order[0] as int], label));
            },
        }
    }
}

/// What is said of a branch to a label that is not defined.
pub proof fn law_message_on_branches(
    sequence: SequenceOutcome,
    head: Option<usize>,
    base: int,
)
    requires
        0 <= base <= sequence.context.commands.len() <= usize::MAX,
        one_tree(sequence.context.commands, head, base),
    ensures
        ({
            let tree = sequence.context.commands;
            let order = visit(tree, head);
            let (labelled, labels) = labels_of(tree, order, sequence.context.labels);
            let out = linked_script(sequence, head);
            labelled is Ok && resolved_of(tree, order, labels).0 is Err ==> (
            out.result matches Err(e) && exists|i: int, label: Seq<char>|
                base <= i < tree.len() && !labels.contains_key(label) && #[trigger] says_undefined(
                    e,
                    tree[i],
                    label,
                ))
        }),
{
    let tree = sequence.context.commands;
    let order = visit(tree, head);
    let labels = labels_of(tree, order, sequence.context.labels).1;
    law_each_command_is_visited_once(tree, head, base);
    lemma_visit_in_range(tree, head);
    lemma_branch_error(tree, order, labels);
    if let Err(e) = resolved_of(tree, order, labels).0 {
        let (k, label) = choose|k: int, label: Seq<char>|
            0 <= k < order.len() && !labels.contains_key(label) && #[trigger] says_undefined(
                e,
                tree[order[k] as int],
                label,
            );
        assert(order.contains(order[k]));
        assert(says_undefined(e, tree[order[k] as int], label));
    }
}

/// What is said of an attempt on a file that is edited in place, and of a file that is none of
/// the usual kind.
pub proof fn law_messages_on_edited_files(attempt: Attempt, first: Seq<char>, second: Seq<char>)
    ensures
        attempt_text(attempt, first, second) == match attempt {
            Attempt::ResolveLink(_) => "resolving symlink "@ + first,
            Attempt::ReadMetadata(_) => "error Reading metadata of "@ + first
                + " for in-place edit"@,
            Attempt::CreateTemporary(_) => "error creating temporary file in "@ + first,
            Attempt::BackUp(_, _) => "error backing up "@ + first + " to "@ + second,
            Attempt::RemoveOriginal(_) => "error removing original input file "@ + first,
            Attempt::Persist(_, _) => "error persisting temporary file "@ + first + " to "@ + second,
        },
        match attempt {
            Attempt::BackUp(from, to) => attempt_paths(attempt) == (from@, to@),
            Attempt::Persist(from, to) => attempt_paths(attempt) == (from@, to@),
            _ => attempt_paths(attempt).0 == attempt_paths(attempt).1,
        },
        not_regular(first).message == "cannot in-place edit non-regular file "@ + first,
        not_regular(first).code == 2 && not_regular(first).reason is None,
{
}

/// What is said of a script that cannot be opened, and of an output file that cannot be written:
/// the place of the command that names it, what was tried, the file and the cause.
pub proof fn law_messages_on_named_files(
    writer: WriterView,
    doing: Seq<char>,
    quoted: Seq<char>,
    cause: Seq<char>,
)
    ensures
        opening_text(quoted) == "error opening script file "@ + quoted,
        file_failure(writer, doing, quoted, cause) == located_error(
            writer.location,
            doing + quoted + ": "@ + cause,
            2,
        ),
{
}

/// A name that needs no more stands in single quotes.
pub proof fn law_names_are_quoted(quoted: Seq<char>, name: Seq<char>)
    requires
        shows_name(quoted, name),
        forall|i: int|
            0 <= i < name.len() ==> 32 <= (#[trigger] name[i]) as int <= 126 && name[i] as int != 39,
    ensures
        quoted.len() == name.len() + 2,
        quoted[0] as int == 39,
        quoted[quoted.len() - 1] as int == 39,
        quoted.subrange(1, quoted.len() - 1) == name,
{
    reveal_strlit("'");
    assert(quotes_simply(name));
    assert(quoted == single_quoted(name));
    assert(quoted.subrange(1, quoted.len() - 1) =~= name);
}

} // verus!
