//! Compiling transliterations.

use crate::command::{
    Command, CommandData, CommandView, ContextView, DataView, ProcessingContext, Transliteration,
    TransliterationView,
};
use crate::compiler::arguments::parse_command_ending;
use crate::compiler::cursor::{Cursor, ahead, cursor};
use crate::compiler::handling::{CommandHandling, Handled, ended, failed, handled, refused};
use crate::delimited_parser::{
    ParsedTransliteration, ParsedView, delimited_transliteration, parse_transliteration_for_mode,
};
use crate::error_handling::{SedResult, compilation_error};
use crate::script_char_provider::ScriptCharProvider;
use crate::script_line_provider::ScriptLineProvider;
use vstd::prelude::*;

verus! {

/// The message for strings that cannot be mapped to each other.
pub const ERR_TRANSLITERATION_LENGTH: &'static str = "strings for `y' command are different lengths";

/// The transliteration of one string to another, if they are of one length.
pub open spec fn transliteration_of(source: ParsedView, target: ParsedView) -> Option<
    TransliterationView,
> {
    match (source, target) {
        (ParsedView::Bytes(s), ParsedView::Bytes(t)) => if s.len() == t.len() {
            Some(TransliterationView::Bytes(s, t))
        } else {
            None
        },
        (ParsedView::Text(s), ParsedView::Text(t)) => if s.len() == t.len() {
            Some(TransliterationView::Text(s, t))
        } else {
            None
        },
        _ => None,
    }
}

/// What `y` gives at `at`.
#[verifier::opaque]
pub open spec fn trans_command(at: Cursor, cmd: CommandView, context: ContextView) -> Handled {
    let start = at.next();
    if start.eol() {
        refused(start, cmd, context, "unterminated `y' command"@)
    } else if start.byte() == 0 || start.char() == '\\' {
        refused(
            start,
            cmd,
            context,
            "transliteration string cannot be delimited by newline or backslash"@,
        )
    } else {
        let source = delimited_transliteration(start, context.options.character_mode);
        match source.result {
            Err(e) => failed(source.at, cmd, context, e),
            Ok(s) => {
                let target = delimited_transliteration(source.at, context.options.character_mode);
                match target.result {
                    Err(e) => failed(target.at, cmd, context, e),
                    Ok(t) => match transliteration_of(s, t) {
                        Some(trans) => ended(
                            target.at.next(),
                            CommandView { data: DataView::Transliteration(trans), ..cmd },
                            context,
                        ),
                        None => refused(target.at, cmd, context, ERR_TRANSLITERATION_LENGTH@),
                    },
                }
            },
        }
    }
}

/// Whether each unit of the first string has one in the second that it becomes.
pub open spec fn is_paired(trans: TransliterationView) -> bool {
    match trans {
        TransliterationView::Bytes(source, target) => source.len() == target.len(),
        TransliterationView::Text(source, target) => source.len() == target.len(),
    }
}

/// The strings of a transliteration that compiles are of one length.
pub proof fn law_transliteration_is_paired(at: Cursor, cmd: CommandView, context: ContextView)
    ensures
        ({
            let after = trans_command(at, cmd, context);
            after.result is Ok ==> {
                &&& after.cmd.data is Transliteration
                &&& is_paired(after.cmd.data->Transliteration_0)
            }
        }),
{
    reveal(trans_command);
}

/// Compiles `y`, which is the current character.
pub fn compile_trans_command(
    lines: &mut ScriptLineProvider,
    line: &mut ScriptCharProvider,
    cmd: &mut Command,
    context: &mut ProcessingContext,
) -> (result: SedResult<CommandHandling>)
    requires
        old(line)@.pos < old(line)@.text.len(),
    ensures
        handled(
            result,
            cursor(final(lines), final(line)),
            final(cmd),
            final(context),
        ) == trans_command(cursor(old(lines), old(line)), old(cmd)@, old(context)@),
        ahead(cursor(old(lines), old(line)).next(), cursor(final(lines), final(line))),
{
    reveal(trans_command);
    line.advance();  // move past 'y'
    if line.eol() {
        return compilation_error(lines, line, "unterminated `y' command");
    }
    let delimiter = line.current();
    if delimiter == '\0' || delimiter == '\\' {
        return compilation_error(
            lines,
            line,
            "transliteration string cannot be delimited by newline or backslash",
        );
    }
    let source = match parse_transliteration_for_mode(lines, line, context.character_mode) {
        Ok(source) => source,
        Err(e) => {
            return Err(e);
        },
    };
    let target = match parse_transliteration_for_mode(lines, line, context.character_mode) {
        Ok(target) => target,
        Err(e) => {
            return Err(e);
        },
    };
    let transliteration = match (source, target) {
        (ParsedTransliteration::Bytes(source), ParsedTransliteration::Bytes(target)) => {
            if source.len() != target.len() {
                return compilation_error(lines, line, ERR_TRANSLITERATION_LENGTH);
            }
            Transliteration::from_bytes(&source, &target)
        },
        (ParsedTransliteration::Text(source), ParsedTransliteration::Text(target)) => {
            if source.as_str().unicode_len() != target.as_str().unicode_len() {
                return compilation_error(lines, line, ERR_TRANSLITERATION_LENGTH);
            }
            Transliteration::from_strings(source.as_str(), target.as_str())
        },
        _ => {
            return compilation_error(lines, line, ERR_TRANSLITERATION_LENGTH);
        },
    };
    cmd.data = CommandData::Transliteration(Box::new(transliteration));
    line.advance();  // move past last delimiter
    match parse_command_ending(lines, line, cmd) {
        Ok(_) => Ok(CommandHandling::Continue),
        Err(e) => Err(e),
    }
}

} // verus!
