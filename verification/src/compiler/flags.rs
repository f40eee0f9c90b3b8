//! Compiling the flags of substitutions.

use crate::command::{Substitution, SubstitutionView};
use crate::compiler::arguments::{ERR_SANDBOX, path_at, read_file_path};
use crate::compiler::cursor::{Cursor, ahead, cursor, viewed};
use crate::compiler::limits::flags_allowed;
use crate::compiler::regex::is_digit;
use crate::delimited_parser::digits_number;
use crate::error_handling::{ErrorView, ScriptLocation, SedResult, compilation_error};
use crate::named_writer::{NamedWriter, WriterView};
use crate::script_char_provider::ScriptCharProvider;
use crate::script_line_provider::ScriptLineProvider;
use vstd::prelude::*;

verus! {

/// The message for a flag that does not exist.
pub const ERR_UNKNOWN_OPTION_TO_S: &'static str = "unknown option to `s'";

/// What compiling the flags of a substitution gives: nothing or an error, the place reached,
/// and the substitution with its flags.
pub struct FlagsOutcome {
    /// Nothing, or the error.
    pub result: Result<(), ErrorView>,
    /// The place reached.
    pub at: Cursor,
    /// The substitution.
    pub subst: SubstitutionView,
}

/// The substitution with none of its flags set.
pub open spec fn without_flags(subst: SubstitutionView) -> SubstitutionView {
    SubstitutionView {
        occurrence: 1,
        global: false,
        print_flag: false,
        p_before_e: false,
        ignore_case: false,
        execute: false,
        multiline: false,
        write_file: None,
        ..subst
    }
}

/// Where the flags of a substitution have been read up to.
pub struct Flags {
    /// The place.
    pub at: Cursor,
    /// The substitution with the flags so far.
    pub subst: SubstitutionView,
    /// Whether there was a `g`.
    pub seen_g: bool,
    /// Whether there was a number.
    pub seen_n: bool,
}

/// What one flag gives.
pub enum FlagStep {
    /// Other flags may follow.
    More(Flags),
    /// There are no more flags.
    End(Flags),
    /// It is in error.
    Wrong(Flags, ErrorView),
}

/// The flag is in error.
pub open spec fn flag_error(flags: Flags, message: Seq<char>) -> FlagStep {
    FlagStep::Wrong(flags, flags.at.error(message))
}

/// The flag is one character and makes the substitution `subst`.
pub open spec fn simple_flag(flags: Flags, subst: SubstitutionView) -> FlagStep {
    FlagStep::More(Flags { at: flags.at.next(), subst, ..flags })
}

/// The end of the number from `from` on, read up to `pos`, or the position of the digit that
/// makes it too large.
pub open spec fn counted(text: Seq<u8>, from: int, pos: int) -> Result<int, int>
    decreases text.len() - pos,
{
    if 0 <= pos < text.len() && is_digit(text[pos]) {
        if digits_number(text, from, pos + 1, 10) > usize::MAX {
            Err(pos)
        } else {
            counted(text, from, pos + 1)
        }
    } else {
        Ok(pos)
    }
}

/// Whether a flag is one of the letters that stand alone.
pub open spec fn is_letter_flag(c: char) -> bool {
    c == 'g' || c == 'p' || c == 'i' || c == 'I' || c == 'm' || c == 'M' || c == 'e'
}

/// What the letter at the place that `flags` have reached gives.
#[verifier::opaque]
pub open spec fn letter_at(flags: Flags, posix: bool, sandbox: bool) -> FlagStep {
    let c = flags.at.char();
    let subst = flags.subst;
    if c == 'g' {
        if flags.seen_g {
            flag_error(flags, "multiple `g' options to `s' command"@)
        } else {
            simple_flag(Flags { seen_g: true, ..flags }, subst)
        }
    } else if c == 'p' {
        // Printing comes before execution iff there was no `e` yet.
        simple_flag(
            flags,
            SubstitutionView { print_flag: true, p_before_e: !subst.execute, ..subst },
        )
    } else if c == 'e' {
        if posix || sandbox {
            flag_error(
                flags,
                "the 'e' substitute flag is not allowed with --posix or --sandbox"@,
            )
        } else {
            simple_flag(flags, SubstitutionView { execute: true, ..subst })
        }
    } else if posix {
        flag_error(flags, ERR_UNKNOWN_OPTION_TO_S@)
    } else if c == 'i' || c == 'I' {
        simple_flag(flags, SubstitutionView { ignore_case: true, ..subst })
    } else {
        simple_flag(flags, SubstitutionView { multiline: true, ..subst })
    }
}

/// What the number at the place that `flags` have reached gives.
#[verifier::opaque]
pub open spec fn number_at(flags: Flags) -> FlagStep {
    let here = flags.at;
    let text = here.line.text;
    let pos = here.line.pos;
    if flags.seen_n {
        flag_error(flags, "multiple `g' options to `s' command"@)
    } else {
        match counted(text, pos, pos) {
            Ok(end) => FlagStep::More(
                Flags {
                    at: here.at_pos(end),
                    subst: SubstitutionView {
                        occurrence: digits_number(text, pos, end, 10) as usize,
                        ..flags.subst
                    },
                    seen_n: true,
                    ..flags
                },
            ),
            Err(over) => flag_error(
                Flags { at: here.at_pos(over), ..flags },
                "overflow in numeric substitute flag"@,
            ),
        }
    }
}

/// What the `w` at the place that `flags` have reached gives. It is the last flag.
#[verifier::opaque]
pub open spec fn writer_at(flags: Flags, sandbox: bool) -> FlagStep {
    let here = flags.at;
    if sandbox {
        flag_error(flags, ERR_SANDBOX@)
    } else {
        let path = path_at(here);
        match path.result {
            Ok(p) => FlagStep::End(
                Flags {
                    at: path.at,
                    subst: SubstitutionView {
                        write_file: Some(WriterView { path: p, location: here.location() }),
                        ..flags.subst
                    },
                    ..flags
                },
            ),
            Err(e) => FlagStep::Wrong(Flags { at: path.at, ..flags }, e),
        }
    }
}

/// What the flag at the place that `flags` have reached, behind white space, gives.
#[verifier::opaque]
pub open spec fn flag_at(before: Flags, posix: bool, sandbox: bool) -> FlagStep {
    let here = before.at.past_spaces();
    let flags = Flags { at: here, ..before };
    if here.eol() || here.char() == ';' || here.byte() == 10 {
        FlagStep::End(flags)
    } else if is_letter_flag(here.char()) {
        letter_at(flags, posix, sandbox)
    } else if is_digit(here.byte()) && here.char() != '0' {
        number_at(flags)
    } else if here.char() == 'w' {
        writer_at(flags, sandbox)
    } else {
        flag_error(flags, ERR_UNKNOWN_OPTION_TO_S@)
    }
}

/// The substitution once all flags are read. With `g`, the match that a number names is
/// replaced and every later one; without a number, every match.
pub open spec fn with_global(flags: Flags) -> SubstitutionView {
    if !flags.seen_g {
        flags.subst
    } else if flags.subst.occurrence <= 1 {
        SubstitutionView { occurrence: 0, ..flags.subst }
    } else {
        SubstitutionView { global: true, ..flags.subst }
    }
}

/// What the flags of a substitution give from the place that `flags` have reached on.
pub open spec fn flags_from(flags: Flags, posix: bool, sandbox: bool) -> FlagsOutcome
    decreases flags.at.line.text.len() - flags.at.line.pos,
{
    match flag_at(flags, posix, sandbox) {
        FlagStep::More(more) => if more.at.line.text == flags.at.line.text && flags.at.line.pos
            < more.at.line.pos <= flags.at.line.text.len() {
            flags_from(more, posix, sandbox)
        } else {
            arbitrary()
        },
        FlagStep::End(end) => FlagsOutcome {
            result: Ok(()),
            at: end.at,
            subst: with_global(end),
        },
        FlagStep::Wrong(wrong, e) => FlagsOutcome {
            result: Err(e),
            at: wrong.at,
            subst: wrong.subst,
        },
    }
}

/// What the flags of a substitution give.
#[verifier::opaque]
pub open spec fn flags_at(
    at: Cursor,
    subst: SubstitutionView,
    posix: bool,
    sandbox: bool,
) -> FlagsOutcome {
    let flags = Flags { at, subst: without_flags(subst), seen_g: false, seen_n: false };
    flags_from(flags, posix, sandbox)
}

/// Reads the number of the match to replace.
fn parse_occurrence(lines: &ScriptLineProvider, line: &mut ScriptCharProvider) -> (result: SedResult<
    usize,
>)
    requires
        0 <= old(line)@.pos < old(line)@.text.len(),
        is_digit(old(line)@.text[old(line)@.pos]),
    ensures
        ({
            let text = old(line)@.text;
            let from = old(line)@.pos;
            let here = cursor(lines, final(line));
            match counted(text, from, from) {
                Ok(end) => {
                    &&& here == cursor(lines, old(line)).at_pos(end)
                    &&& result matches Ok(n)
                    &&& n == digits_number(text, from, end, 10)
                    &&& from < end <= text.len()
                },
                Err(over) => {
                    &&& here == cursor(lines, old(line)).at_pos(over)
                    &&& result matches Err(e)
                    &&& e@ == here.error("overflow in numeric substitute flag"@)
                    &&& from <= over < text.len()
                },
            }
        }),
{
    let ghost text = line@.text;
    let ghost from = line@.pos;
    let mut number: usize = 0;
    while !line.eol() && '0' as u8 <= line.current_byte() && line.current_byte() <= '9' as u8
        invariant
            text == old(line)@.text,
            from == old(line)@.pos,
            line@.text == text,
            0 <= from <= line@.pos <= text.len(),
            from < text.len(),
            is_digit(text[from]),
            counted(text, from, line@.pos) == counted(text, from, from),
            number == digits_number(text, from, line@.pos, 10),
        decreases text.len() - line@.pos,
    {
        let digit: usize = (line.current_byte() - '0' as u8) as usize;
        let more = match number.checked_mul(10) {
            Some(tens) => tens.checked_add(digit),
            None => None,
        };
        assert(digits_number(text, from, line@.pos + 1, 10) == number * 10 + digit);
        match more {
            Some(n) => {
                number = n;
            },
            None => {
                return compilation_error(lines, line, "overflow in numeric substitute flag");
            },
        }
        line.advance();
    }
    Ok(number)
}

/// A flag that is accepted leaves allowed flags allowed.
proof fn lemma_flag_allowed(flags: Flags, posix: bool, sandbox: bool)
    requires
        flags_allowed(flags.subst, posix, sandbox),
    ensures
        match flag_at(flags, posix, sandbox) {
            FlagStep::More(more) => flags_allowed(more.subst, posix, sandbox),
            FlagStep::End(end) => flags_allowed(end.subst, posix, sandbox),
            FlagStep::Wrong(..) => true,
        },
{
    reveal(flag_at);
    reveal(letter_at);
    reveal(number_at);
    reveal(writer_at);
}

/// Whether `step` led from one place to another: there are more flags, there are none, or there
/// is an error.
pub open spec fn step_taken(step: FlagStep, result: SedResult<bool>, before: Flags, after: Flags) -> bool {
    match step {
        FlagStep::More(more) => {
            &&& result matches Ok(goes_on)
            &&& goes_on
            &&& after == more
            &&& before.at.line.pos < after.at.line.pos
        },
        FlagStep::End(end) => {
            &&& result matches Ok(goes_on)
            &&& !goes_on
            &&& after == end
        },
        FlagStep::Wrong(wrong, error) => {
            &&& result matches Err(e)
            &&& e@ == error
            &&& after.at == wrong.at
            &&& after.subst == wrong.subst
        },
    }
}

/// The flags so far.
pub open spec fn flags_of(at: Cursor, subst: SubstitutionView, seen: (bool, bool)) -> Flags {
    Flags { at, subst, seen_g: seen.0, seen_n: seen.1 }
}

/// Compiles a letter that stands alone into the substitution.
fn compile_letter_flag(
    lines: &ScriptLineProvider,
    line: &mut ScriptCharProvider,
    subst: &mut Substitution,
    seen: &mut (bool, bool),
    posix: bool,
    sandbox: bool,
) -> (result: SedResult<bool>)
    requires
        0 <= old(line)@.pos < old(line)@.text.len(),
        is_letter_flag(cursor(lines, old(line)).char()),
    ensures
        ({
            let before = flags_of(cursor(lines, old(line)), old(subst)@, *old(seen));
            let after = flags_of(cursor(lines, final(line)), final(subst)@, *final(seen));
            step_taken(letter_at(before, posix, sandbox), result, before, after)
        }),
        ahead(cursor(lines, old(line)), cursor(lines, final(line))),
{
    reveal(letter_at);
    let c = line.current();
    if c == 'g' {
        if seen.0 {
            return compilation_error(lines, line, "multiple `g' options to `s' command");
        }
        seen.0 = true;
    } else if c == 'p' {
        subst.print_flag = true;
        // 'p' is applied before 'e' iff 'e' has not been seen yet.
        subst.p_before_e = !subst.execute;
    } else if c == 'e' {
        if posix || sandbox {
            return compilation_error(
                lines,
                line,
                "the 'e' substitute flag is not allowed with --posix or --sandbox",
            );
        }
        subst.execute = true;
    } else if posix {
        return compilation_error(lines, line, ERR_UNKNOWN_OPTION_TO_S);
    } else if c == 'i' || c == 'I' {
        subst.ignore_case = true;
    } else {
        subst.multiline = true;
    }
    line.advance();
    Ok(true)
}

/// Compiles the number of the match to replace into the substitution.
fn compile_number_flag(
    lines: &ScriptLineProvider,
    line: &mut ScriptCharProvider,
    subst: &mut Substitution,
    seen: &mut (bool, bool),
) -> (result: SedResult<bool>)
    requires
        0 <= old(line)@.pos < old(line)@.text.len(),
        is_digit(old(line)@.text[old(line)@.pos]),
    ensures
        ({
            let before = flags_of(cursor(lines, old(line)), old(subst)@, *old(seen));
            let after = flags_of(cursor(lines, final(line)), final(subst)@, *final(seen));
            step_taken(number_at(before), result, before, after)
        }),
        ahead(cursor(lines, old(line)), cursor(lines, final(line))),
{
    reveal(number_at);
    if seen.1 {
        return compilation_error(lines, line, "multiple `g' options to `s' command");
    }
    match parse_occurrence(lines, line) {
        Ok(number) => {
            subst.occurrence = number;
        },
        Err(e) => {
            return Err(e);
        },
    }
    seen.1 = true;
    Ok(true)
}

/// Compiles the output file of `w` into the substitution.
fn compile_writer_flag(
    lines: &ScriptLineProvider,
    line: &mut ScriptCharProvider,
    subst: &mut Substitution,
    Ghost(seen): Ghost<(bool, bool)>,
    sandbox: bool,
) -> (result: SedResult<bool>)
    requires
        0 <= old(line)@.pos < old(line)@.text.len(),
    ensures
        ({
            let before = flags_of(cursor(lines, old(line)), old(subst)@, seen);
            let after = flags_of(cursor(lines, final(line)), final(subst)@, seen);
            step_taken(writer_at(before, sandbox), result, before, after)
        }),
        ahead(cursor(lines, old(line)), cursor(lines, final(line))),
{
    reveal(writer_at);
    if sandbox {
        return compilation_error(lines, line, ERR_SANDBOX);
    }
    let location = ScriptLocation::at_position(lines, line);
    match read_file_path(lines, line) {
        Ok(path) => {
            subst.write_file = Some(NamedWriter::new(path, location));
            // 'w' is the last flag allowed
            Ok(false)
        },
        Err(e) => Err(e),
    }
}

/// Compiles one flag of a substitution into it. Returns whether other flags may follow.
fn compile_flag(
    lines: &ScriptLineProvider,
    line: &mut ScriptCharProvider,
    subst: &mut Substitution,
    seen: &mut (bool, bool),
    posix: bool,
    sandbox: bool,
) -> (result: SedResult<bool>)
    ensures
        ({
            let before = flags_of(cursor(lines, old(line)), old(subst)@, *old(seen));
            let after = flags_of(cursor(lines, final(line)), final(subst)@, *final(seen));
            step_taken(flag_at(before, posix, sandbox), result, before, after)
        }),
        ahead(cursor(lines, old(line)), cursor(lines, final(line))),
        0 <= final(line)@.pos,
{
    reveal(flag_at);
    line.eat_spaces();
    if line.eol() {
        return Ok(false);
    }
    let c = line.current();
    if c == ';' || c == '\n' {
        Ok(false)
    } else if c == 'g' || c == 'p' || c == 'i' || c == 'I' || c == 'm' || c == 'M' || c == 'e' {
        compile_letter_flag(lines, line, subst, seen, posix, sandbox)
    } else if '1' <= c && c <= '9' {
        compile_number_flag(lines, line, subst, seen)
    } else if c == 'w' {
        compile_writer_flag(lines, line, subst, Ghost(*seen), sandbox)
    } else {
        compilation_error(lines, line, ERR_UNKNOWN_OPTION_TO_S)
    }
}

/// Compiles the optional flags of a substitution into it.
pub fn compile_subst_flags(
    lines: &ScriptLineProvider,
    line: &mut ScriptCharProvider,
    subst: &mut Substitution,
    posix: bool,
    sandbox: bool,
) -> (result: SedResult<()>)
    ensures
        viewed(result) == flags_at(
            cursor(lines, old(line)),
            old(subst)@,
            posix,
            sandbox,
        ).result,
        cursor(lines, final(line)) == flags_at(
            cursor(lines, old(line)),
            old(subst)@,
            posix,
            sandbox,
        ).at,
        final(subst)@ == flags_at(cursor(lines, old(line)), old(subst)@, posix, sandbox).subst,
        ahead(cursor(lines, old(line)), cursor(lines, final(line))),
        result is Ok ==> flags_allowed(final(subst)@, posix, sandbox),
{
    reveal(flags_at);
    let ghost start = cursor(lines, line);
    let ghost spec = flags_at(start, subst@, posix, sandbox);
    // Whether a `g` and a number have been seen
    let mut seen: (bool, bool) = (false, false);
    let _at_end = line.eol();
    subst.occurrence = 1;
    subst.global = false;
    subst.print_flag = false;
    subst.p_before_e = false;
    subst.ignore_case = false;
    subst.execute = false;
    subst.multiline = false;
    subst.write_file = None;
    let mut more = true;
    while more
        invariant
            start == cursor(lines, old(line)),
            spec == flags_at(start, old(subst)@, posix, sandbox),
            ahead(start, cursor(lines, line)),
            0 <= line@.pos,
            flags_allowed(subst@, posix, sandbox),
            ({
                let flags = flags_of(cursor(lines, line), subst@, seen);
                if more {
                    spec == flags_from(flags, posix, sandbox)
                } else {
                    spec == (FlagsOutcome {
                        result: Ok(()),
                        at: flags.at,
                        subst: with_global(flags),
                    })
                }
            }),
        decreases
            if more {
                line@.text.len() - line@.pos + 1
            } else {
                0
            },
    {
        proof {
            lemma_flag_allowed(flags_of(cursor(lines, line), subst@, seen), posix, sandbox);
        }
        match compile_flag(lines, line, subst, &mut seen, posix, sandbox) {
            Ok(goes_on) => {
                more = goes_on;
            },
            Err(e) => {
                return Err(e);
            },
        }
    }
    if seen.0 {
        // GNU: `g` with a number N replaces the Nth match and every later one.
        if subst.occurrence <= 1 {
            subst.occurrence = 0;
        } else {
            subst.global = true;
        }
    }
    Ok(())
}

} // verus!
