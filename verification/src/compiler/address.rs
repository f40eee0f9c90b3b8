//! Compiling the addresses of a command.

use crate::command::{
    Address, AddressView, Command, CommandView, ContextView, ProcessingContext, RegexMode,
};
use crate::compiler::cursor::{
    Cursor, Outcome, ahead, cursor, done, fail, fail_with, in_words, outcome, viewed,
};
use crate::compiler::regex::{compile_regex, is_digit, regex_at};
use crate::delimited_parser::{delimited_regex, digits_number, parse_regex_for_mode};
use crate::error_handling::{ErrorView, SedResult, compilation_error, remap_unterminated, remapped};
use crate::script_char_provider::ScriptCharProvider;
use crate::script_line_provider::ScriptLineProvider;
use crate::text::{around_char, around_text};
use vstd::prelude::*;

verus! {

/// The message for a first address 0 that nothing allows.
pub const ERR_ADDRESS_0_USAGE: &'static str =
    "address 0 can only be used with ~step, a second regular expression, or a read command";

/// The first position at or after `pos` that does not hold a decimal digit.
pub open spec fn number_end(text: Seq<u8>, pos: int) -> int
    decreases text.len() - pos,
{
    if 0 <= pos < text.len() && is_digit(text[pos]) {
        number_end(text, pos + 1)
    } else {
        pos
    }
}

/// The bytes, each as a character of its own.
pub open spec fn as_chars(bytes: Seq<u8>) -> Seq<char> {
    bytes.map_values(|b: u8| b as char)
}

/// The decimal number at `at`, if there is one.
pub open spec fn number_at(at: Cursor, required: bool) -> Outcome<Option<usize>> {
    let text = at.line.text;
    let pos = at.line.pos;
    let end = number_end(text, pos);
    let value = digits_number(text, pos, end, 10);
    if end == pos {
        if required {
            fail(at, "number expected"@)
        } else {
            done(at, None)
        }
    } else if value <= usize::MAX {
        done(at.at_pos(end), Some(value as usize))
    } else {
        fail(at.at_pos(end), "invalid number '"@ + as_chars(text.subrange(pos, end)) + "'"@)
    }
}

/// Reads the decimal number at the current position, up to the first character that is no
/// digit. It is an error if there is none and one is required.
pub fn parse_number(
    lines: &ScriptLineProvider,
    line: &mut ScriptCharProvider,
    required: bool,
) -> (result: SedResult<Option<usize>>)
    ensures
        viewed(result) == number_at(cursor(lines, old(line)), required).result,
        cursor(lines, final(line)) == number_at(cursor(lines, old(line)), required).at,
        ahead(cursor(lines, old(line)), cursor(lines, final(line))),
        required ==> !(result matches Ok(None)),
{
    let ghost start = cursor(lines, line);
    let ghost text = start.line.text;
    let ghost from = start.line.pos;
    let first: usize = line.get_pos();
    let mut digits = String::new();
    let mut value: Option<usize> = Some(0);
    while !line.eol() && '0' as u8 <= line.current_byte() && line.current_byte() <= '9' as u8
        invariant
            start == cursor(lines, old(line)),
            ahead(start, cursor(lines, line)),
            0 <= from <= line@.pos <= text.len(),
            text == start.line.text,
            from == start.line.pos,
            first == from,
            line@.text == text,
            number_end(text, line@.pos) == number_end(text, from),
            digits@ == as_chars(text.subrange(from, line@.pos)),
            match value {
                Some(v) => v == digits_number(text, from, line@.pos, 10),
                None => digits_number(text, from, line@.pos, 10) > usize::MAX,
            },
        decreases line@.text.len() - line@.pos,
    {
        let b = line.current_byte();
        digits.push(b as char);
        value = match value {
            Some(v) => match v.checked_mul(10) {
                Some(w) => w.checked_add((b - '0' as u8) as usize),
                None => None,
            },
            None => None,
        };
        line.advance();
        assert(digits@ =~= as_chars(text.subrange(from, line@.pos)));
    }
    if line.get_pos() == first {
        if required {
            return compilation_error(lines, line, "number expected");
        }
        return Ok(None);
    }
    match value {
        Some(v) => Ok(Some(v)),
        None => compilation_error(
            lines,
            line,
            around_text("invalid number '", digits.as_str(), "'").as_str(),
        ),
    }
}

/// Whether `c` can start a first address.
pub open spec fn address_char(c: char) -> bool {
    '0' <= c <= '9' || c == '/' || c == '\\' || c == '$'
}

/// Whether `c` can start an address.
pub fn is_address_char(c: char) -> (yes: bool)
    ensures
        yes == address_char(c),
{
    ('0' <= c && c <= '9') || c == '/' || c == '\\' || c == '$'
}

/// The syntax of regular expressions that the context asks for.
pub open spec fn regex_mode(context: ContextView) -> RegexMode {
    if context.options.regex_extended {
        RegexMode::Extended
    } else {
        RegexMode::Basic
    }
}

/// The syntax of regular expressions that the context asks for.
pub fn regex_mode_of(context: &ProcessingContext) -> (mode: RegexMode)
    ensures
        mode == regex_mode(context@),
{
    if context.regex_extended {
        RegexMode::Extended
    } else {
        RegexMode::Basic
    }
}

/// The address that is made of the number at `at`.
pub open spec fn numeric_address(at: Cursor, relative: bool) -> Outcome<AddressView> {
    let number = number_at(at, true);
    match number.result {
        Ok(n) => done(
            number.at,
            if relative {
                AddressView::RelLine(n->0)
            } else {
                AddressView::Line(n->0)
            },
        ),
        Err(e) => fail_with(number.at, e),
    }
}

/// The address that is made of the regular expression whose opening delimiter is at `at`, and
/// of an `I` behind it.
pub open spec fn regex_address(at: Cursor, context: ContextView, reason: Seq<char>) -> Outcome<
    AddressView,
> {
    let pattern = delimited_regex(at, regex_mode(context), context.options.posix);
    match pattern.result {
        Ok(p) => {
            let behind = pattern.at.next().past_spaces();
            let icase = behind.sees('I');
            let end = if icase {
                behind.next()
            } else {
                behind
            };
            match regex_at(end, p, context, icase, false, reason) {
                Ok(re) => done(end, AddressView::Re(re)),
                Err(e) => fail_with(end, e),
            }
        },
        Err(e) => fail_with(pattern.at, remapped(e, "unterminated address regex"@)),
    }
}

/// The address at `at`, if `reason` are the words of the regular expression engine should it
/// refuse. Addresses with a step come out as line numbers.
#[verifier::opaque]
pub open spec fn address_at(at: Cursor, context: ContextView, reason: Seq<char>) -> Outcome<
    AddressView,
> {
    if at.eol() {
        fail(at, "expected context address"@)
    } else if at.char() == '\\' {
        regex_address(at.next(), context, reason)
    } else if at.char() == '/' {
        regex_address(at, context, reason)
    } else if at.char() == '$' {
        done(at.next(), AddressView::Last)
    } else if at.char() == '+' {
        numeric_address(at.next(), true)
    } else {
        numeric_address(at, false)
    }
}

/// Compiles a single address.
// Due to their irregular syntax addresses with a step come out as line numbers;
// compile_address_range() adjusts them.
pub fn compile_address(
    lines: &ScriptLineProvider,
    line: &mut ScriptCharProvider,
    context: &ProcessingContext,
) -> (result: SedResult<Address>)
    requires
        ({
            let at = cursor(lines, old(line));
            at.eol() || address_char(at.char()) || at.char() == '+'
        }),
    ensures
        forall|reason: Seq<char>|
            in_words(result, reason) ==> outcome(result, cursor(lines, final(line)))
                == #[trigger] address_at(cursor(lines, old(line)), context@, reason),
        ahead(cursor(lines, old(line)), cursor(lines, final(line))),
{
    reveal(address_at);
    if line.eol() {
        return compilation_error(lines, line, "expected context address");
    }
    let c = line.current();
    if c == '\\' || c == '/' {
        if c == '\\' {
            // The next character is an arbitrary delimiter
            line.advance();
        }
        let parsed = parse_regex_for_mode(lines, line, regex_mode_of(context), context.posix);
        let pattern = match remap_unterminated(parsed, "unterminated address regex") {
            Ok(pattern) => pattern,
            Err(e) => {
                return Err(e);
            },
        };
        // Skip over delimiter
        line.advance();
        line.eat_spaces();
        let mut icase = false;
        if !line.eol() && line.current() == 'I' {
            icase = true;
            line.advance();
        }
        match compile_regex(lines, line, &pattern, context, icase, false) {
            Ok(regex) => Ok(Address::Re(regex)),
            Err(e) => Err(e),
        }
    } else if c == '$' {
        line.advance();
        Ok(Address::Last)
    } else if c == '+' {
        line.advance();
        match parse_number(lines, line, true) {
            Ok(Some(number)) => Ok(Address::RelLine(number)),
            Ok(None) => Ok(Address::RelLine(0)),
            Err(e) => Err(e),
        }
    } else {
        match parse_number(lines, line, true) {
            Ok(Some(number)) => Ok(Address::Line(number)),
            Ok(None) => Ok(Address::Line(0)),
            Err(e) => Err(e),
        }
    }
}

/// What compiling the addresses of a command gives: their number or an error, the place
/// reached, and the addresses that the command gets.
pub struct RangeOutcome {
    /// The number of addresses, or the error.
    pub result: Result<usize, ErrorView>,
    /// The place reached.
    pub at: Cursor,
    /// The first address, if the command gets one.
    pub addr1: Option<AddressView>,
    /// The second address, if the command gets one.
    pub addr2: Option<AddressView>,
}

/// The addresses are only `addr1`. A lone line 0 is only for reading a file.
pub open spec fn lone_address(at: Cursor, addr1: AddressView) -> RangeOutcome {
    RangeOutcome {
        result: if addr1 == AddressView::Line(0) && !at.sees('r') {
            Err(at.error(ERR_ADDRESS_0_USAGE@))
        } else {
            Ok(1)
        },
        at,
        addr1: Some(addr1),
        addr2: None,
    }
}

/// The first address is `addr1` and what follows is in error.
pub open spec fn failed_range(at: Cursor, addr1: AddressView, error: ErrorView) -> RangeOutcome {
    RangeOutcome { result: Err(error), at, addr1: Some(addr1), addr2: None }
}

/// The second address as the separator makes it: every so many lines (`~`), up to a multiple
/// (`,~`), or as it is (`,`).
pub open spec fn stepped(addr2: AddressView, step_match: bool, step_end: bool) -> AddressView {
    if step_match {
        AddressView::StepMatch(addr2->Line_0)
    } else if step_end {
        AddressView::StepEnd(addr2->Line_0)
    } else {
        addr2
    }
}

/// The addresses of a command whose first address, `addr1`, ends at `at`.
pub open spec fn second_address(
    at: Cursor,
    context: ContextView,
    addr1: AddressView,
    reason: Seq<char>,
) -> RangeOutcome {
    let separator = at.past_spaces();
    if separator.sees(',') || separator.sees('~') {
        let step_match = separator.char() == '~';
        let behind = separator.next().past_spaces();
        let step_end = behind.sees('~');
        let start = if step_end {
            behind.next().past_spaces()
        } else {
            behind
        };
        if (step_match || step_end) && context.options.posix {
            failed_range(start, addr1, start.error("~step is invalid in POSIX mode"@))
        } else if start.eol() {
            lone_address(start, addr1)
        } else if !address_char(start.char()) && start.char() != '+' {
            failed_range(
                start,
                addr1,
                start.error("unexpected `"@ + seq![separator.char()] + "'"@),
            )
        } else {
            let second = address_at(start, context, reason);
            match second.result {
                Ok(addr2) => if (step_match || step_end) && !(addr2 is Line) {
                    failed_range(
                        second.at,
                        addr1,
                        second.at.error("~step can only be specified through numeric values"@),
                    )
                } else if addr1 == AddressView::Line(0) && !(addr2 is Re) && !step_match {
                    failed_range(second.at, addr1, second.at.error(ERR_ADDRESS_0_USAGE@))
                } else {
                    RangeOutcome {
                        result: Ok(2),
                        at: second.at,
                        addr1: Some(addr1),
                        addr2: Some(stepped(addr2, step_match, step_end)),
                    }
                },
                Err(e) => failed_range(second.at, addr1, e),
            }
        }
    } else {
        lone_address(separator, addr1)
    }
}

/// The addresses of the command at `at`, if `reason` are the words of the regular expression
/// engine should it refuse.
pub open spec fn range_at(at: Cursor, context: ContextView, reason: Seq<char>) -> RangeOutcome {
    let start = at.past_spaces();
    if !start.eol() && address_char(start.char()) {
        let first = address_at(start, context, reason);
        match first.result {
            Ok(addr1) => if addr1 == AddressView::Line(0) && context.options.posix {
                failed_range(
                    first.at,
                    addr1,
                    first.at.error("address 0 is invalid in POSIX mode"@),
                )
            } else {
                second_address(first.at, context, addr1, reason)
            },
            Err(e) => RangeOutcome { result: Err(e), at: first.at, addr1: None, addr2: None },
        }
    } else {
        RangeOutcome { result: Ok(0), at: start, addr1: None, addr2: None }
    }
}

/// The command with the addresses that it gets.
pub open spec fn with_addresses(cmd: CommandView, range: RangeOutcome) -> CommandView {
    CommandView {
        addr1: if range.addr1 is Some {
            range.addr1
        } else {
            cmd.addr1
        },
        addr2: if range.addr2 is Some {
            range.addr2
        } else {
            cmd.addr2
        },
        ..cmd
    }
}

/// Compiles what follows the first address of a command, which it has: a second address, if
/// there is one. Returns the number of addresses.
fn compile_second_address(
    lines: &ScriptLineProvider,
    line: &mut ScriptCharProvider,
    cmd: &mut Command,
    context: &ProcessingContext,
    is_line0: bool,
) -> (result: SedResult<usize>)
    requires
        old(cmd)@.addr1 is Some,
        is_line0 == (old(cmd)@.addr1 == Some(AddressView::Line(0))),
    ensures
        forall|reason: Seq<char>|
            in_words(result, reason) ==> {
                let spec = #[trigger] second_address(
                    cursor(lines, old(line)),
                    context@,
                    old(cmd)@.addr1->0,
                    reason,
                );
                &&& viewed(result) == spec.result
                &&& cursor(lines, final(line)) == spec.at
                &&& final(cmd)@ == with_addresses(old(cmd)@, spec)
            },
        ahead(cursor(lines, old(line)), cursor(lines, final(line))),
{
    line.eat_spaces();
    if !line.eol() && (line.current() == ',' || line.current() == '~') {
        let separator = line.current();
        let is_step_match = separator == '~';  // E.g. 0~2: Pick even-numbered lines
        line.advance();
        line.eat_spaces();
        let mut is_step_end = false;
        if !line.eol() && line.current() == '~' {
            // E.g. /foo/,~10: Start at foo, include all lines until multiple of 10 is reached.
            line.advance();
            line.eat_spaces();
            is_step_end = true;
        }
        if (is_step_match || is_step_end) && context.posix {
            // ~ steps are a GNU extension.
            return compilation_error(lines, line, "~step is invalid in POSIX mode");
        }
        // Look for second address.
        if !line.eol() {
            if !is_address_char(line.current()) && line.current() != '+' {
                let message = around_char("unexpected `", separator, "'");
                return compilation_error(lines, line, message.as_str());
            }
            let addr2 = match compile_address(lines, line, context) {
                Ok(addr2) => addr2,
                Err(e) => {
                    return Err(e);
                },
            };
            let mut step_n: usize = 0;
            if is_step_match || is_step_end {
                match &addr2 {
                    Address::Line(n) => {
                        step_n = *n;
                    },
                    _ => {
                        return compilation_error(
                            lines,
                            line,
                            "~step can only be specified through numeric values",
                        );
                    },
                }
            }
            if is_line0 && !matches!(addr2, Address::Re(_)) && !is_step_match {
                return compilation_error(lines, line, ERR_ADDRESS_0_USAGE);
            }
            // If needed, transform Address::Line into Address::Step*.
            cmd.addr2 = if is_step_match {
                Some(Address::StepMatch(step_n))
            } else if is_step_end {
                Some(Address::StepEnd(step_n))
            } else {
                Some(addr2)
            };
            return Ok(2);
        }
    }
    // Zero-address read command check. Spaces have been consumed.
    if is_line0 && (line.eol() || line.current() != 'r') {
        return compilation_error(lines, line, ERR_ADDRESS_0_USAGE);
    }
    Ok(1)
}

/// Compiles the optional addresses of a command into it and returns their number.
pub fn compile_address_range(
    lines: &ScriptLineProvider,
    line: &mut ScriptCharProvider,
    cmd: &mut Command,
    context: &ProcessingContext,
) -> (result: SedResult<usize>)
    ensures
        forall|reason: Seq<char>|
            in_words(result, reason) ==> {
                let spec = #[trigger] range_at(cursor(lines, old(line)), context@, reason);
                &&& viewed(result) == spec.result
                &&& cursor(lines, final(line)) == spec.at
                &&& final(cmd)@ == with_addresses(old(cmd)@, spec)
            },
        ahead(cursor(lines, old(line)), cursor(lines, final(line))),
{
    line.eat_spaces();
    if line.eol() || !is_address_char(line.current()) {
        return Ok(0);
    }
    let addr1 = match compile_address(lines, line, context) {
        Ok(addr1) => addr1,
        Err(e) => {
            return Err(e);
        },
    };
    let is_line0 = matches!(addr1, Address::Line(0));
    cmd.addr1 = Some(addr1);
    if is_line0 && context.posix {
        // 0 starting address is a GNU extension.
        return compilation_error(lines, line, "address 0 is invalid in POSIX mode");
    }
    compile_second_address(lines, line, cmd, context, is_line0)
}

} // verus!
