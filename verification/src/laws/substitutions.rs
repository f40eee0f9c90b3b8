//! Substitutions: the expression that the engine gets, and the command as a whole.

use crate::command::{
    ContextView, PartView, RegexMode, SubstitutionView, empty_substitution, template_of,
};
use crate::compiler::cursor::Cursor;
use crate::compiler::flags::{
    FlagStep, Flags, flag_at, flags_at, flags_from, letter_at, number_at, without_flags, writer_at,
};
use crate::compiler::regex::{ere, regex_at, regex_source};
use crate::compiler::replacement::{law_replacement_is_sound, replacement_at};
use crate::compiler::sequence::command_at;
use crate::compiler::substitute::{assembled, subst_argument, subst_command, with_flag_writer};
use crate::compiler::table::{CommandHandler, handle};
use crate::delimited_parser::delimited_regex;
use crate::fast_regex::RegexView;
use crate::laws::arguments::{lemma_own_output, own_output};
use crate::laws::delimited::{
    is_plain_regex, is_special, law_regex_between_delimiters, written_regex,
};
use crate::laws::commands::law_white_space_is_skipped;
use crate::laws::flags::{
    can_be_flags, law_letters_are_flags, lemma_counted_range, prints_before_running,
};
use crate::laws::replacements::{
    can_be_parts, is_delimiter, law_largest_group_is_kept, law_written_parts_are_read,
    written_parts,
};
use crate::laws::writing::{
    end_of, gave, lemma_bare, lemma_pieces, plain_command, rest_is, stands_at,
};
use vstd::prelude::*;
use vstd::utf8::valid_utf8;

verus! {

/// The expression in the engine's syntax: as it is if expressions are extended ones, else the
/// extended expression that says what the basic one says.
pub open spec fn in_engine_syntax(pattern: Seq<u8>, extended: bool) -> Seq<u8> {
    if extended {
        pattern
    } else {
        ere(pattern)
    }
}

/// Whether the engine's pattern is the given expression with the given modifiers: with none it
/// is the expression itself; else the modifiers stand before it, between `(?` and `)`, `i` if
/// case is ignored and `m` if inner line ends count.
pub open spec fn has_modifiers(pattern: Seq<u8>, expression: Seq<u8>, icase: bool, multiline: bool) -> bool {
    let before = pattern.len() - expression.len();
    let modifiers = pattern.subrange(2, before - 1);
    if !icase && !multiline {
        pattern == expression
    } else {
        &&& before >= 4
        &&& pattern[0] == 40 && pattern[1] == 63 && pattern[before - 1] == 41
        &&& pattern.skip(before) == expression
        &&& icase == modifiers.contains(105)
        &&& multiline == modifiers.contains(109)
        &&& forall|i: int|
            0 <= i < modifiers.len() ==> #[trigger] modifiers[i] == 105 || modifiers[i] == 109
    }
}

/// The engine gets the expression with the modifiers that are asked for.
pub proof fn law_engine_gets_modifiers(
    pattern: Seq<u8>,
    context: ContextView,
    icase: bool,
    multiline: bool,
)
    ensures
        has_modifiers(
            regex_source(pattern, context, icase, multiline).pattern,
            in_engine_syntax(pattern, context.options.regex_extended),
            icase,
            multiline,
        ),
        regex_source(pattern, context, icase, multiline).mode == context.options.character_mode,
{
    let expression = in_engine_syntax(pattern, context.options.regex_extended);
    let whole = regex_source(pattern, context, icase, multiline).pattern;
    let before = whole.len() - expression.len();
    let modifiers = whole.subrange(2, before - 1);
    if icase || multiline {
        assert(whole.skip(before) =~= expression);
        let expected: Seq<u8> = if icase && multiline {
            seq![105u8, 109]
        } else if icase {
            seq![105u8]
        } else {
            seq![109u8]
        };
        assert(modifiers =~= expected);
        if icase {
            assert(expected[0] == 105);
        }
        if multiline {
            assert(expected[expected.len() - 1] == 109);
        }
    }
}

/// A substitution that compiles has the expression that stands between its first delimiters,
/// with a modifier for each of its flags that concern matching, and in the unit that the
/// options give. Only an empty expression stands for none.
pub proof fn law_flags_reach_engine(at: Cursor, context: ContextView, reason: Seq<char>)
    requires
        0 <= at.line.pos < at.line.text.len(),
        at.line.text[at.line.pos] == 115,
    ensures
        ({
            let after = command_at(at, context, reason);
            let mode = if context.options.regex_extended {
                RegexMode::Extended
            } else {
                RegexMode::Basic
            };
            let read = delimited_regex(at.next(), mode, context.options.posix).result;
            after.result is Ok ==> {
                &&& read is Ok
                &&& after.cmd.code == 's'
                &&& after.cmd.data is Substitution
                &&& after.cmd.data->Substitution_0.regex is None <==> read->Ok_0.len() == 0
                &&& after.cmd.data->Substitution_0.regex matches Some(re) ==> {
                    &&& has_modifiers(
                        re.pattern,
                        in_engine_syntax(read->Ok_0, context.options.regex_extended),
                        after.cmd.data->Substitution_0.ignore_case,
                        after.cmd.data->Substitution_0.multiline,
                    )
                    &&& re.mode == context.options.character_mode
                }
            }
        }),
{
    lemma_bare(at, context, reason, CommandHandler::Subst);
    reveal(handle);
    reveal(subst_command);
    reveal(subst_argument);
    reveal(assembled);
    reveal(regex_at);
    let argument = subst_argument(at.next(), context);
    if let Ok(arg) = argument.result {
        law_engine_gets_modifiers(
            arg.pattern,
            context,
            arg.subst.ignore_case,
            arg.subst.multiline,
        );
        assert(regex_source(arg.pattern, context, arg.subst.ignore_case, arg.subst.multiline)
            == regex_source(
            arg.pattern,
            with_flag_writer(context, arg.subst),
            arg.subst.ignore_case,
            arg.subst.multiline,
        ));
    }
}

/// A regular expression with what it is to match and how: the modifiers that are asked for stand
/// before the expression.
pub open spec fn modified_regex(
    pattern: Seq<u8>,
    icase: bool,
    multiline: bool,
    context: ContextView,
) -> RegexView {
    RegexView {
        pattern: (if icase && multiline {
            seq![40u8, 63, 105, 109, 41]
        } else if icase {
            seq![40u8, 63, 105, 41]
        } else if multiline {
            seq![40u8, 63, 109, 41]
        } else {
            Seq::empty()
        }) + in_engine_syntax(pattern, context.options.regex_extended),
        mode: context.options.character_mode,
    }
}

/// A regular expression with the modifiers that flags ask for: `i` or `I`, and `m` or `M`.
pub open spec fn engine_regex(pattern: Seq<u8>, letters: Seq<u8>, context: ContextView) -> RegexView {
    modified_regex(
        pattern,
        letters.contains(105) || letters.contains(73),
        letters.contains(109) || letters.contains(77),
        context,
    )
}

/// Whether the substitution is the one that is written with the given expression, parts and
/// flags.
pub open spec fn is_written(
    subst: SubstitutionView,
    regex: Option<RegexView>,
    parts: Seq<PartView>,
    letters: Seq<u8>,
) -> bool {
    &&& subst.regex == regex
    &&& subst.replacement.parts == parts
    &&& subst.print_flag == letters.contains(112)
    &&& subst.ignore_case == (letters.contains(105) || letters.contains(73))
    &&& subst.multiline == (letters.contains(109) || letters.contains(77))
    &&& subst.execute == letters.contains(101)
    &&& subst.occurrence == if letters.contains(103) {
        0usize
    } else {
        1
    }
    &&& !subst.global
    &&& subst.write_file is None
    &&& subst.p_before_e == (letters.contains(112) && prints_before_running(letters))
}

/// Whether no part refers to a group from `groups` on.
pub open spec fn refers_below(parts: Seq<PartView>, groups: nat) -> bool {
    forall|k: int|
        0 <= k < parts.len() ==> (#[trigger] parts[k] matches PartView::Group(n) ==> n < groups)
}

/// `s`, an expression, a replacement and flags make up the substitution that is written so. It
/// is in error exactly if the engine refuses the expression, or if the replacement refers to a
/// group that the expression does not have.
pub proof fn law_substitution_is_compiled(
    at: Cursor,
    pattern: Seq<u8>,
    parts: Seq<PartView>,
    letters: Seq<u8>,
    delimiter: u8,
    context: ContextView,
    reason: Seq<char>,
)
    requires
        is_delimiter(delimiter),
        !is_special(delimiter, RegexMode::Extended),
        pattern.len() > 0,
        is_plain_regex(pattern, delimiter),
        can_be_parts(parts),
        can_be_flags(letters),
        !context.options.posix,
        letters.contains(101) ==> !context.options.sandbox && !context.options.no_exec,
        rest_is(
            at,
            seq![115u8] + ((seq![delimiter] + written_regex(pattern, delimiter)) + ((
            seq![delimiter] + (written_parts(parts, delimiter) + seq![delimiter])) + letters)),
        ),
    ensures
        ({
            let after = command_at(at, context, reason);
            let regex = engine_regex(pattern, letters, context);
            match regex.groups() {
                None => after.result is Err,
                Some(groups) => if groups >= 1 && refers_below(parts, groups) {
                    &&& after.cmd.data is Substitution
                    &&& is_written(after.cmd.data->Substitution_0, Some(regex), parts, letters)
                    &&& gave(
                        after,
                        end_of(at),
                        plain_command('s', at.location(), after.cmd.data),
                        context,
                    )
                } else {
                    groups >= 1 ==> after.result is Err
                },
            }
        }),
{
    let text = at.line.text;
    let pos = at.line.pos;
    let first = seq![delimiter] + written_regex(pattern, delimiter);
    let second = seq![delimiter] + (written_parts(parts, delimiter) + seq![delimiter]);
    lemma_pieces(text, pos, seq![115u8], first + (second + letters));
    lemma_pieces(text, pos + 1, first, second + letters);
    lemma_pieces(text, pos + 1 + first.len(), second, letters);
    assert(text[pos] == seq![115u8][0]);
    let start = at.next();
    let middle = at.at_pos(pos + 1 + first.len());
    let behind = at.at_pos(pos + 1 + first.len() + second.len());
    let mode = if context.options.regex_extended {
        RegexMode::Extended
    } else {
        RegexMode::Basic
    };
    assert(text[pos + 1] == first[0]);
    assert(text[pos + 1 + first.len()] == second[0]);
    let whole = seq![delimiter] + (written_regex(pattern, delimiter) + seq![delimiter]);
    assert(stands_at(text, pos + 1, whole)) by {
        assert forall|j: int| pos + 1 <= j < pos + 1 + whole.len() implies #[trigger] text[j]
            == whole[j - (pos + 1)] by {
            if j < pos + 1 + first.len() {
                assert(text[j] == first[j - (pos + 1)]);
            }
        }
    }
    law_regex_between_delimiters(start, pattern, delimiter, mode, false);
    law_written_parts_are_read(middle, parts, delimiter);
    let template = replacement_at(middle).result->Ok_0;
    let unset = SubstitutionView {
        replacement: template,
        ..empty_substitution()
    };
    law_letters_are_flags(behind, unset, letters, false, context.options.sandbox);
    law_replacement_is_sound(middle);
    assert(template == template_of(parts));
    law_largest_group_is_kept(parts);
    lemma_bare(at, context, reason, CommandHandler::Subst);
    reveal(handle);
    reveal(subst_command);
    reveal(subst_argument);
    let argument = subst_argument(start, context);
    assert(argument.result is Ok);
    let arg = argument.result->Ok_0;
    assert(arg.pattern == pattern);
    let regex = engine_regex(pattern, letters, context);
    assert(regex_source(pattern, context, arg.subst.ignore_case, arg.subst.multiline) =~= regex)
        by {
        let none = Seq::<u8>::empty();
        let expression = in_engine_syntax(pattern, context.options.regex_extended);
        assert(none + expression =~= expression);
    }
    reveal(assembled);
    reveal(regex_at);
    if let Some(groups) = regex.groups() {
        if groups >= 1 && !refers_below(parts, groups) {
            let k = choose|k: int|
                0 <= k < parts.len() && !(#[trigger] parts[k] matches PartView::Group(n) ==> n
                    < groups);
            assert(parts[k] is Group);
        }
        if groups >= 1 && refers_below(parts, groups) && template.max_group_number > 0 {
            let k = choose|k: int|
                0 <= k < parts.len() && #[trigger] parts[k] == PartView::Group(
                    template_of(parts).max_group_number as u32,
                );
            assert(parts[k] is Group);
        }
    }
}

/// The place behind the replacement of an `s` at `at`.
pub open spec fn behind_replacement(
    at: Cursor,
    pattern: Seq<u8>,
    parts: Seq<PartView>,
    delimiter: u8,
) -> Cursor {
    at.at_pos(
        at.line.pos + 4 + written_regex(pattern, delimiter).len() + written_parts(
            parts,
            delimiter,
        ).len(),
    )
}

/// A substitution has the flags that stand behind its replacement, and that replacement. Its
/// output file, if it has one, is one of the files to be opened, unless it is the editor's own
/// output. It is in error if its flags are.
pub proof fn law_substitution_takes_flags(
    at: Cursor,
    pattern: Seq<u8>,
    parts: Seq<PartView>,
    delimiter: u8,
    context: ContextView,
    reason: Seq<char>,
)
    requires
        is_delimiter(delimiter),
        !is_special(delimiter, RegexMode::Extended),
        is_plain_regex(pattern, delimiter),
        can_be_parts(parts),
        stands_at(
            at.line.text,
            at.line.pos,
            seq![115u8] + ((seq![delimiter] + written_regex(pattern, delimiter)) + (
            seq![delimiter] + (written_parts(parts, delimiter) + seq![delimiter]))),
        ),
    ensures
        ({
            let after = command_at(at, context, reason);
            let unset = SubstitutionView {
                replacement: template_of(parts),
                ..empty_substitution()
            };
            let flags = flags_at(
                behind_replacement(at, pattern, parts, delimiter),
                unset,
                context.options.posix,
                context.options.sandbox,
            );
            &&& flags.result is Err ==> after.result is Err
            &&& after.result is Ok ==> {
                &&& after.cmd.data is Substitution
                &&& after.cmd.data->Substitution_0 == SubstitutionView {
                    regex: after.cmd.data->Substitution_0.regex,
                    ..flags.subst
                }
                &&& after.context == ContextView {
                    writers: match flags.subst.write_file {
                        Some(writer) => if writer.path == own_output() {
                            context.writers
                        } else {
                            context.writers.push(writer)
                        },
                        None => context.writers,
                    },
                    ..context
                }
                &&& after.at == flags.at || flags.at.sees(';') && after.at == flags.at.next()
            }
            &&& pattern.len() == 0 && (flags.subst.ignore_case || flags.subst.multiline)
                ==> after.result is Err
            &&& flags.subst.execute && context.options.no_exec ==> after.result is Err
            &&& context.options.utf8_paths && (flags.subst.write_file matches Some(writer)
                && !valid_utf8(writer.path)) ==> after.result is Err
            &&& {
                &&& flags.result is Ok
                &&& flags.at.eol() || flags.at.byte() == 59
                &&& !(flags.subst.execute && context.options.no_exec)
                &&& flags.subst.write_file matches Some(writer) ==> !context.options.utf8_paths
                    || valid_utf8(writer.path)
                &&& if pattern.len() == 0 {
                    !flags.subst.ignore_case && !flags.subst.multiline
                } else {
                    modified_regex(
                        pattern,
                        flags.subst.ignore_case,
                        flags.subst.multiline,
                        context,
                    ).groups() matches Some(groups) && groups >= 1 && refers_below(parts, groups)
                }
            } ==> after.result is Ok
        }),
{
    let text = at.line.text;
    let pos = at.line.pos;
    let first = seq![delimiter] + written_regex(pattern, delimiter);
    let second = seq![delimiter] + (written_parts(parts, delimiter) + seq![delimiter]);
    lemma_pieces(text, pos, seq![115u8], first + second);
    lemma_pieces(text, pos + 1, first, second);
    assert(text[pos] == seq![115u8][0]);
    let start = at.next();
    let middle = at.at_pos(pos + 1 + first.len());
    let behind = behind_replacement(at, pattern, parts, delimiter);
    let mode = if context.options.regex_extended {
        RegexMode::Extended
    } else {
        RegexMode::Basic
    };
    assert(text[pos + 1] == first[0]);
    assert(text[pos + 1 + first.len()] == second[0]);
    let whole = seq![delimiter] + (written_regex(pattern, delimiter) + seq![delimiter]);
    assert(stands_at(text, pos + 1, whole)) by {
        assert forall|j: int| pos + 1 <= j < pos + 1 + whole.len() implies #[trigger] text[j]
            == whole[j - (pos + 1)] by {
            if j < pos + 1 + first.len() {
                assert(text[j] == first[j - (pos + 1)]);
            }
        }
    }
    law_regex_between_delimiters(start, pattern, delimiter, mode, context.options.posix);
    law_written_parts_are_read(middle, parts, delimiter);
    law_replacement_is_sound(middle);
    let template = replacement_at(middle).result->Ok_0;
    assert(template == template_of(parts));
    assert(replacement_at(middle).at == behind);
    lemma_own_output();
    lemma_bare(at, context, reason, CommandHandler::Subst);
    reveal(handle);
    reveal(subst_command);
    reveal(subst_argument);
    reveal(assembled);
    reveal(flags_at);
    let unset = SubstitutionView { replacement: template_of(parts), ..empty_substitution() };
    let flags = flags_at(behind, unset, context.options.posix, context.options.sandbox);
    lemma_flags_keep_replacement(behind, unset, context.options.posix, context.options.sandbox);
    let icase = flags.subst.ignore_case;
    let multiline = flags.subst.multiline;
    let expression = in_engine_syntax(pattern, context.options.regex_extended);
    let none = Seq::<u8>::empty();
    assert(none + expression =~= expression);
    assert(regex_source(pattern, context, icase, multiline) =~= modified_regex(
        pattern,
        icase,
        multiline,
        context,
    ));
    reveal(regex_at);
    law_largest_group_is_kept(parts);
    if let Some(groups) = modified_regex(pattern, icase, multiline, context).groups() {
        if groups >= 1 && refers_below(parts, groups) && template.max_group_number > 0 {
            let k = choose|k: int|
                0 <= k < parts.len() && #[trigger] parts[k] == PartView::Group(
                    template_of(parts).max_group_number as u32,
                );
            assert(parts[k] is Group);
        }
    }
}

/// Flags leave the replacement as it is.
proof fn lemma_flags_keep_replacement(
    at: Cursor,
    subst: SubstitutionView,
    posix: bool,
    sandbox: bool,
)
    requires
        0 <= at.line.pos <= at.line.text.len(),
    ensures
        flags_at(at, subst, posix, sandbox).subst.replacement == subst.replacement,
{
    reveal(flags_at);
    lemma_flags_from_keep_replacement(
        Flags { at, subst: without_flags(subst), seen_g: false, seen_n: false },
        posix,
        sandbox,
    );
}

/// One flag leaves the replacement as it is, and comes before the next one.
proof fn lemma_flag_keeps_replacement(flags: Flags, posix: bool, sandbox: bool)
    requires
        0 <= flags.at.line.pos <= flags.at.line.text.len(),
    ensures
        match flag_at(flags, posix, sandbox) {
            FlagStep::More(more) => {
                &&& more.subst.replacement == flags.subst.replacement
                &&& more.at.line.text == flags.at.line.text
                &&& flags.at.line.pos < more.at.line.pos <= flags.at.line.text.len()
            },
            FlagStep::End(end) => end.subst.replacement == flags.subst.replacement,
            FlagStep::Wrong(wrong, _) => wrong.subst.replacement == flags.subst.replacement,
        },
{
    reveal(flag_at);
    reveal(letter_at);
    reveal(number_at);
    reveal(writer_at);
    law_white_space_is_skipped(flags.at);
    let here = flags.at.past_spaces();
    if !here.eol() {
        lemma_counted_range(here.line.text, here.line.pos, here.line.pos);
    }
}

/// The same from some flag on.
proof fn lemma_flags_from_keep_replacement(flags: Flags, posix: bool, sandbox: bool)
    requires
        0 <= flags.at.line.pos <= flags.at.line.text.len(),
    ensures
        flags_from(flags, posix, sandbox).subst.replacement == flags.subst.replacement,
    decreases flags.at.line.text.len() - flags.at.line.pos,
{
    lemma_flag_keeps_replacement(flags, posix, sandbox);
    if let FlagStep::More(more) = flag_at(flags, posix, sandbox) {
        lemma_flags_from_keep_replacement(more, posix, sandbox);
    }
}

} // verus!
