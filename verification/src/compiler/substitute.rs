//! Compiling substitutions.

use crate::command::{
    Command, CommandData, CommandView, ContextView, DataView, ProcessingContext, Substitution,
    SubstitutionView, empty_substitution, with_writer,
};
use crate::compiler::address::{regex_mode, regex_mode_of};
use crate::compiler::arguments::{ERR_NO_EXEC, ERR_PATH, has_path, is_path, parse_command_ending};
use crate::compiler::cursor::{
    Cursor, Outcome, ahead, cursor, done, fail, fail_with, in_words, viewed, words_of,
};
use crate::compiler::flags::{compile_subst_flags, flags_at};
use crate::compiler::handling::{CommandHandling, Handled, ended, failed, handled, refused};
use crate::compiler::limits::{flags_allowed, may_be_allowed, within_limits};
use crate::compiler::regex::{compile_regex, regex_at};
use crate::compiler::replacement::{compile_replacement, replacement_at};
use crate::compiler::table::CommandHandler;
use crate::delimited_parser::{delimited_regex, parse_regex_for_mode};
use crate::error_handling::{ErrorView, SedResult, compilation_error, remap_unterminated, remapped};
use crate::script_char_provider::ScriptCharProvider;
use crate::script_line_provider::ScriptLineProvider;
use crate::text::{decimal, push_decimal};
use vstd::prelude::*;

verus! {

/// Checks that no group number, the largest of which is `largest`, is beyond the groups of the
/// expression, of which there are `groups`, the whole match counted as one.
pub fn check_references(
    lines: &ScriptLineProvider,
    line: &ScriptCharProvider,
    largest: usize,
    groups: usize,
) -> (result: SedResult<()>)
    requires
        groups >= 1,
    ensures
        viewed(result) == if largest > groups - 1 {
            Err(cursor(lines, line).error(invalid_reference(largest as nat)))
        } else {
            Ok(())
        },
{
    if largest > groups - 1 {
        let mut message = String::from_str("invalid reference \\");
        push_decimal(&mut message, largest);
        message.append(" on `s' command's RHS");
        assert(message@ =~= invalid_reference(largest as nat));
        return compilation_error(lines, line, message.as_str());
    }
    Ok(())
}

/// The message for a reference to the group `n`, which the expression does not have.
pub open spec fn invalid_reference(n: nat) -> Seq<char> {
    "invalid reference \\"@ + decimal(n) + " on `s' command's RHS"@
}

/// The context once the substitution is read: it has taken note of an output file.
pub open spec fn with_flag_writer(context: ContextView, subst: SubstitutionView) -> ContextView {
    match subst.write_file {
        Some(writer) => ContextView {
            writers: with_writer(context.writers, writer),
            ..context
        },
        None => context,
    }
}

/// What `s` gives once the pattern `pattern` and the rest of its argument have been read, up to
/// `at`, if `reason` are the words of the regular expression engine should it refuse.
#[verifier::opaque]
pub open spec fn assembled(
    at: Cursor,
    pattern: Seq<u8>,
    subst: SubstitutionView,
    cmd: CommandView,
    context: ContextView,
    reason: Seq<char>,
) -> Handled {
    let regex = regex_at(at, pattern, context, subst.ignore_case, subst.multiline, reason);
    if subst.execute && context.options.no_exec {
        refused(at, cmd, context, ERR_NO_EXEC@)
    } else if pattern.len() == 0 && (subst.ignore_case || subst.multiline) {
        refused(at, cmd, context, "cannot specify modifiers on an empty regular expression"@)
    } else {
        match regex {
            Err(e) => failed(at, cmd, context, e),
            Ok(re) => if re is Some && subst.replacement.max_group_number > re->0.groups()->0
                - 1 {
                refused(at, cmd, context, invalid_reference(subst.replacement.max_group_number))
            } else {
                ended(
                    at,
                    CommandView {
                        data: DataView::Substitution(SubstitutionView { regex: re, ..subst }),
                        ..cmd
                    },
                    context,
                )
            },
        }
    }
}

/// The argument of `s`: the pattern, and the rest with no expression compiled yet.
#[verifier::ext_equal]
pub struct SubstArgument {
    /// The pattern.
    pub pattern: Seq<u8>,
    /// The rest.
    pub subst: SubstitutionView,
}

/// What the replacement and the flags of `s` give at `at`, behind the pattern `pattern`.
pub open spec fn subst_rest(at: Cursor, pattern: Seq<u8>, context: ContextView) -> Outcome<
    SubstArgument,
> {
    let replacement = replacement_at(at);
    match replacement.result {
        Err(e) => fail_with(replacement.at, e),
        Ok(template) => {
            let flags = flags_at(
                replacement.at,
                SubstitutionView { replacement: template, ..empty_substitution() },
                context.options.posix,
                context.options.sandbox,
            );
            match flags.result {
                Err(e) => fail_with(flags.at, e),
                Ok(_) => if flags.subst.write_file is Some && !is_path(
                    flags.subst.write_file->0.path,
                    context.options.utf8_paths,
                ) {
                    fail(flags.at, ERR_PATH@)
                } else {
                    done(flags.at, SubstArgument { pattern, subst: flags.subst })
                },
            }
        },
    }
}

/// What the argument of `s` gives at `at`, behind the command character.
#[verifier::opaque]
pub open spec fn subst_argument(at: Cursor, context: ContextView) -> Outcome<SubstArgument> {
    if at.eol() {
        fail(at, "unterminated `s' command"@)
    } else if at.byte() == 0 || at.char() == '\\' {
        fail(at, "substitute pattern cannot be delimited by newline or backslash"@)
    } else {
        let pattern = delimited_regex(at, regex_mode(context), context.options.posix);
        match pattern.result {
            Err(e) => fail_with(pattern.at, remapped(e, "unterminated `s' command"@)),
            Ok(p) => subst_rest(pattern.at, p, context),
        }
    }
}

/// What `s` gives at `at`, if `reason` are the words of the regular expression engine should it
/// refuse.
#[verifier::opaque]
pub open spec fn subst_command(
    at: Cursor,
    cmd: CommandView,
    context: ContextView,
    reason: Seq<char>,
) -> Handled {
    let argument = subst_argument(at.next(), context);
    match argument.result {
        Err(e) => failed(argument.at, cmd, context, e),
        Ok(arg) => assembled(
            argument.at,
            arg.pattern,
            arg.subst,
            cmd,
            with_flag_writer(context, arg.subst),
            reason,
        ),
    }
}

/// A substitution that compiles refers only to groups that its expression has. An expression
/// that is left empty stands for one that is known only later.
pub proof fn law_references_are_valid(
    at: Cursor,
    cmd: CommandView,
    context: ContextView,
    reason: Seq<char>,
)
    ensures
        ({
            let after = subst_command(at, cmd, context, reason);
            after.result is Ok ==> {
                &&& after.cmd.data is Substitution
                &&& after.cmd.data->Substitution_0.regex matches Some(re)
                    ==> after.cmd.data->Substitution_0.replacement.max_group_number
                    <= re.groups()->0 - 1
            }
        }),
{
    reveal(subst_command);
    reveal(assembled);
}

/// A substitution with allowed flags makes an allowed command.
proof fn lemma_assembled_allowed(
    at: Cursor,
    pattern: Seq<u8>,
    subst: SubstitutionView,
    cmd: CommandView,
    context: ContextView,
    reason: Seq<char>,
)
    requires
        flags_allowed(subst, context.options.posix, context.options.sandbox),
        may_be_allowed(CommandHandler::Subst, cmd, context.options),
    ensures
        within_limits(assembled(at, pattern, subst, cmd, context, reason), context),
{
    reveal(assembled);
    let after = assembled(at, pattern, subst, cmd, context, reason);
    if after.result is Ok {
        assert(after.cmd.data matches DataView::Substitution(s) && s.execute == subst.execute
            && s.write_file == subst.write_file && s.ignore_case == subst.ignore_case
            && s.multiline == subst.multiline);
    }
}

/// Compiles what has been read of the argument of `s` into the command.
#[verifier::rlimit(30)]
fn assemble(
    lines: &ScriptLineProvider,
    line: &mut ScriptCharProvider,
    pattern: &[u8],
    subst: Substitution,
    cmd: &mut Command,
    context: &ProcessingContext,
) -> (result: SedResult<CommandHandling>)
    ensures
        forall|reason: Seq<char>|
            in_words(result, reason) ==> handled(
                result,
                cursor(lines, final(line)),
                final(cmd),
                context,
            ) == #[trigger] assembled(
                cursor(lines, old(line)),
                pattern@,
                subst@,
                old(cmd)@,
                context@,
                reason,
            ),
        ahead(cursor(lines, old(line)), cursor(lines, final(line))),
{
    reveal(assembled);
    let _at_end = line.eol();
    let mut subst = subst;
    if subst.execute && context.no_exec {
        return compilation_error(lines, line, ERR_NO_EXEC);
    }
    if pattern.len() == 0 && (subst.ignore_case || subst.multiline) {
        return compilation_error(
            lines,
            line,
            "cannot specify modifiers on an empty regular expression",
        );
    }
    // Compile regex with now known modifier flags.
    let regex = match compile_regex(
        lines,
        line,
        pattern,
        context,
        subst.ignore_case,
        subst.multiline,
    ) {
        Ok(regex) => regex,
        Err(e) => {
            return Err(e);
        },
    };
    // Catch invalid group references at compile time, if possible.
    if let Some(re) = &regex {
        match check_references(
            lines,
            line,
            subst.replacement.max_group_number,
            re.captures_len(),
        ) {
            Ok(_) => (),
            Err(e) => {
                return Err(e);
            },
        }
    }
    subst.regex = regex;
    cmd.data = CommandData::Substitution(Box::new(subst));
    match parse_command_ending(lines, line, cmd) {
        Ok(_) => Ok(CommandHandling::Continue),
        Err(e) => Err(e),
    }
}

/// Reads the replacement and the flags of `s`.
fn parse_subst_rest(
    lines: &mut ScriptLineProvider,
    line: &mut ScriptCharProvider,
    pattern: Vec<u8>,
    context: &ProcessingContext,
) -> (result: SedResult<(Vec<u8>, Substitution)>)
    requires
        old(line)@.pos < old(line)@.text.len(),
    ensures
        argument_view(result) == subst_rest(
            cursor(old(lines), old(line)),
            pattern@,
            context@,
        ).result,
        cursor(final(lines), final(line)) == subst_rest(
            cursor(old(lines), old(line)),
            pattern@,
            context@,
        ).at,
        ahead(cursor(old(lines), old(line)), cursor(final(lines), final(line))),
        result matches Ok((_, subst)) ==> flags_allowed(
            subst@,
            context@.options.posix,
            context@.options.sandbox,
        ),
{
    let mut subst = Substitution::default();
    subst.replacement = match compile_replacement(lines, line, context.character_mode) {
        Ok(replacement) => replacement,
        Err(e) => {
            return Err(e);
        },
    };
    match compile_subst_flags(lines, line, &mut subst, context.posix, context.sandbox) {
        Ok(_) => (),
        Err(e) => {
            return Err(e);
        },
    }
    if let Some(writer) = &subst.write_file {
        if !has_path(&writer.path, context.utf8_paths) {
            return compilation_error(lines, line, ERR_PATH);
        }
    }
    Ok((pattern, subst))
}

/// The argument of `s`, or the error in it.
pub open spec fn argument_view(result: SedResult<(Vec<u8>, Substitution)>) -> Result<
    SubstArgument,
    ErrorView,
> {
    match result {
        Ok((pattern, subst)) => Ok(SubstArgument { pattern: pattern@, subst: subst@ }),
        Err(e) => Err(e@),
    }
}

/// Reads the argument of `s`.
fn parse_subst_argument(
    lines: &mut ScriptLineProvider,
    line: &mut ScriptCharProvider,
    context: &ProcessingContext,
) -> (result: SedResult<(Vec<u8>, Substitution)>)
    ensures
        argument_view(result) == subst_argument(
            cursor(old(lines), old(line)),
            context@,
        ).result,
        cursor(final(lines), final(line)) == subst_argument(
            cursor(old(lines), old(line)),
            context@,
        ).at,
        ahead(cursor(old(lines), old(line)), cursor(final(lines), final(line))),
        result matches Ok((_, subst)) ==> flags_allowed(
            subst@,
            context@.options.posix,
            context@.options.sandbox,
        ),
{
    reveal(subst_argument);
    if line.eol() {
        return compilation_error(lines, line, "unterminated `s' command");
    }
    let delimiter = line.current();
    if delimiter == '\0' || delimiter == '\\' {
        return compilation_error(
            lines,
            line,
            "substitute pattern cannot be delimited by newline or backslash",
        );
    }
    let parsed = parse_regex_for_mode(lines, line, regex_mode_of(context), context.posix);
    match remap_unterminated(parsed, "unterminated `s' command") {
        Ok(pattern) => parse_subst_rest(lines, line, pattern, context),
        Err(e) => Err(e),
    }
}

/// Compiles `s`, which is the current character.
pub fn compile_subst_command(
    lines: &mut ScriptLineProvider,
    line: &mut ScriptCharProvider,
    cmd: &mut Command,
    context: &mut ProcessingContext,
) -> (result: SedResult<CommandHandling>)
    requires
        old(line)@.pos < old(line)@.text.len(),
    ensures
        forall|reason: Seq<char>|
            in_words(result, reason) ==> handled(
                result,
                cursor(final(lines), final(line)),
                final(cmd),
                final(context),
            ) == #[trigger] subst_command(
                cursor(old(lines), old(line)),
                old(cmd)@,
                old(context)@,
                reason,
            ),
        ahead(cursor(old(lines), old(line)).next(), cursor(final(lines), final(line))),
        may_be_allowed(CommandHandler::Subst, old(cmd)@, old(context)@.options)
            ==> within_limits(
            handled(result, cursor(final(lines), final(line)), final(cmd), final(context)),
            old(context)@,
        ),
{
    reveal(subst_command);
    line.advance();  // move past 's'
    let (pattern, subst) = match parse_subst_argument(lines, line, context) {
        Ok(argument) => argument,
        Err(e) => {
            return Err(e);
        },
    };
    if let Some(writer) = &subst.write_file {
        context.register_writer(writer);
    }
    let ghost read = cursor(lines, line);
    let ghost argument = subst@;
    let ghost noted = context@;
    let result = assemble(lines, line, &pattern, subst, cmd, context);
    proof {
        if may_be_allowed(CommandHandler::Subst, old(cmd)@, noted.options) {
            lemma_assembled_allowed(
                read,
                pattern@,
                argument,
                old(cmd)@,
                noted,
                words_of(result),
            );
        }
    }
    result
}

} // verus!
