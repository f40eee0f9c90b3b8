//! Strings between delimiters, and the escape sequences in them.

use crate::command::{CharacterMode, RegexMode};
use crate::compiler::cursor::{Cursor, Outcome, ahead, cursor, done, fail, fail_with, viewed};
use crate::error_handling::{ErrorView, SedResult, compilation_error};
use crate::script_char_provider::{LineView, ScriptCharProvider};
use crate::script_line_provider::ScriptLineProvider;
use crate::text::utf8_text;
use vstd::prelude::*;
use vstd::utf8::{decode_utf8, valid_utf8};

verus! {

/// The value of the byte as a digit, or 255 if it is none.
pub open spec fn digit_value(b: u8) -> int {
    if '0' as u8 <= b <= '9' as u8 {
        b - '0' as u8
    } else if 'a' as u8 <= b <= 'f' as u8 {
        b - 'a' as u8 + 10
    } else if 'A' as u8 <= b <= 'F' as u8 {
        b - 'A' as u8 + 10
    } else {
        255
    }
}

/// The end of the digits of the given base from `pos` on, `most` of them at most.
pub open spec fn digits_end(text: Seq<u8>, pos: int, base: int, most: nat) -> int
    decreases most,
{
    if most > 0 && 0 <= pos < text.len() && digit_value(text[pos]) < base {
        digits_end(text, pos + 1, base, (most - 1) as nat)
    } else {
        pos
    }
}

/// The number that the digits of the given base from `from` to `to` make up.
pub open spec fn digits_number(text: Seq<u8>, from: int, to: int, base: int) -> int
    decreases to - from,
{
    if to <= from {
        0
    } else {
        digits_number(text, from, to - 1, base) * base + digit_value(text[to - 1])
    }
}

/// The byte that the number at `pos` stands for and the position behind it, if there is a
/// number.
pub open spec fn numeric_escape(text: Seq<u8>, pos: int, base: int, most: nat) -> Option<
    (u8, int),
> {
    let end = digits_end(text, pos, base, most);
    if end > pos {
        Some(((digits_number(text, pos, end, base) % 256) as u8, end))
    } else {
        None
    }
}

/// The control character that the byte names: its upper case with one bit flipped.
pub open spec fn control_char(b: u8) -> u8 {
    if 'a' as u8 <= b <= 'z' as u8 {
        ((b - 32) as u8) ^ 64u8
    } else {
        b ^ 64u8
    }
}

/// The byte that the escape sequence at `pos`, behind its backslash, stands for, and the
/// position behind it, if there is one.
pub open spec fn escape_at(text: Seq<u8>, pos: int) -> Option<(u8, int)> {
    let c = text[pos] as char;
    if c == 'a' {
        Some((7, pos + 1))
    } else if c == 'b' {
        Some((8, pos + 1))
    } else if c == 'f' {
        Some((12, pos + 1))
    } else if c == 'n' {
        Some((10, pos + 1))
    } else if c == 'r' {
        Some((13, pos + 1))
    } else if c == 't' {
        Some((9, pos + 1))
    } else if c == 'v' {
        Some((11, pos + 1))
    } else if c == 'c' {
        if pos + 1 < text.len() {
            Some((control_char(text[pos + 1]), pos + 2))
        } else {
            None
        }
    } else if c == 'd' {
        numeric_escape(text, pos + 1, 10, 3)
    } else if c == 'o' {
        numeric_escape(text, pos + 1, 8, 3)
    } else if c == 'x' {
        numeric_escape(text, pos + 1, 16, 2)
    } else {
        None
    }
}

/// The value of the byte as a digit, or 255 if it is none.
fn digit_of(b: u8) -> (value: u32)
    ensures
        value == digit_value(b),
{
    if '0' as u8 <= b && b <= '9' as u8 {
        (b - '0' as u8) as u32
    } else if 'a' as u8 <= b && b <= 'f' as u8 {
        (b - 'a' as u8 + 10) as u32
    } else if 'A' as u8 <= b && b <= 'F' as u8 {
        (b - 'A' as u8 + 10) as u32
    } else {
        255
    }
}

/// One more digit keeps a number of a few digits small.
proof fn lemma_number_bound(value: int, base: int, digit: int, most: int)
    by (nonlinear_arith)
    requires
        0 <= value <= most,
        0 <= digit < base <= 16,
        0 <= most,
    ensures
        0 <= value * base + digit <= most * 16 + 15,
{
}

/// The byte that the number behind the current character stands for, if there is a number.
fn parse_numeric_escape(line: &mut ScriptCharProvider, base: u32, most: u32) -> (result: Option<u8>)
    requires
        2 <= base <= 16,
        1 <= most <= 3,
        old(line)@.pos < old(line)@.text.len(),
    ensures
        match numeric_escape(old(line)@.text, old(line)@.pos + 1, base as int, most as nat) {
            Some((b, end)) => result == Some(b) && final(line)@ == (LineView {
                pos: end,
                ..old(line)@
            }),
            None => result is None && final(line)@ == old(line)@,
        },
{
    let ghost text = line@.text;
    let ghost start = line@.pos + 1;
    match line.peek_byte() {
        Some(b) => {
            if digit_of(b) >= base {
                return None;
            }
        },
        None => {
            return None;
        },
    }
    line.advance();
    let mut count: u32 = 0;
    let mut value: u32 = 0;
    while count < most && !line.eol() && digit_of(line.current_byte()) < base
        invariant
            2 <= base <= 16,
            count <= most <= 3,
            0 <= start < text.len(),
            line@ == (LineView { text, pos: start + count }),
            digits_end(text, start + count, base as int, (most - count) as nat) == digits_end(
                text,
                start,
                base as int,
                most as nat,
            ),
            value == digits_number(text, start, start + count, base as int),
            count == 0 ==> value == 0,
            count == 1 ==> value <= 15,
            count == 2 ==> value <= 255,
            value <= 4095,
        decreases most - count,
    {
        let digit: u32 = digit_of(line.current_byte());
        proof {
            lemma_number_bound(
                value as int,
                base as int,
                digit as int,
                if count == 0 {
                    0
                } else if count == 1 {
                    15
                } else {
                    255
                },
            );
        }
        value = value * base + digit;
        line.advance();
        count += 1;
    }
    proof {
        if count == 0 {
            assert(digit_value(text[start]) < base);
        }
        assert(digits_end(text, start, base as int, most as nat) == start + count);
    }
    Some((value % 256) as u8)
}

/// The byte that the escape sequence at the current position, behind its backslash, stands
/// for, if there is one. The position then moves behind it.
pub fn parse_char_escape(line: &mut ScriptCharProvider) -> (result: Option<u8>)
    requires
        old(line)@.pos < old(line)@.text.len(),
    ensures
        match escape_at(old(line)@.text, old(line)@.pos) {
            Some((b, end)) => result == Some(b) && final(line)@ == (LineView {
                pos: end,
                ..old(line)@
            }),
            None => result is None && final(line)@ == old(line)@,
        },
{
    let c = line.current();
    let simple: Option<u8> = if c == 'a' {
        Some(7)
    } else if c == 'b' {
        Some(8)
    } else if c == 'f' {
        Some(12)
    } else if c == 'n' {
        Some(10)
    } else if c == 'r' {
        Some(13)
    } else if c == 't' {
        Some(9)
    } else if c == 'v' {
        Some(11)
    } else {
        None
    };
    if let Some(b) = simple {
        line.advance();
        return Some(b);
    }
    if c == 'c' {
        match line.peek_byte() {
            Some(b) => {
                line.advance();
                line.advance();
                if 'a' as u8 <= b && b <= 'z' as u8 {
                    Some((b - 32) ^ 64)
                } else {
                    Some(b ^ 64)
                }
            },
            None => None,
        }
    } else if c == 'd' {
        parse_numeric_escape(line, 10, 3)
    } else if c == 'o' {
        parse_numeric_escape(line, 8, 3)
    } else if c == 'x' {
        parse_numeric_escape(line, 16, 2)
    } else {
        None
    }
}

/// An escape sequence is not empty and ends in its line.
pub proof fn lemma_escape_end(text: Seq<u8>, pos: int)
    requires
        0 <= pos < text.len(),
    ensures
        escape_at(text, pos) matches Some((_, end)) ==> pos < end <= text.len(),
{
    lemma_digits_end(text, pos + 1, 10, 3);
    lemma_digits_end(text, pos + 1, 8, 3);
    lemma_digits_end(text, pos + 1, 16, 2);
}

/// Digits end in their line.
proof fn lemma_digits_end(text: Seq<u8>, pos: int, base: int, most: nat)
    requires
        0 <= pos <= text.len(),
    ensures
        pos <= digits_end(text, pos, base, most) <= text.len(),
    decreases most,
{
    if most > 0 && pos < text.len() && digit_value(text[pos]) < base {
        lemma_digits_end(text, pos + 1, base, (most - 1) as nat);
    }
}

/// Whether the byte has a meaning of its own in a bracket expression.
pub open spec fn special_in_bracket(b: u8) -> bool {
    b == '[' as u8 || b == ']' as u8 || b == '\\' as u8 || b == '^' as u8 || b == '-' as u8
}

/// Whether the byte has a meaning of its own in a regular expression of the given syntax.
pub open spec fn special_in_regex(b: u8, mode: RegexMode) -> bool {
    ||| b == '.' as u8
    ||| b == '*' as u8
    ||| b == '[' as u8
    ||| b == ']' as u8
    ||| b == '^' as u8
    ||| b == '$' as u8
    ||| mode == RegexMode::Extended && (b == '+' as u8 || b == '?' as u8 || b == '(' as u8 || b
        == ')' as u8 || b == '{' as u8 || b == '}' as u8 || b == '|' as u8)
}

/// The byte behind a backslash.
pub open spec fn escaped(b: u8) -> Seq<u8> {
    seq!['\\' as u8, b]
}

/// The byte, behind a backslash if that is asked for.
pub open spec fn escaped_if(b: u8, special: bool) -> Seq<u8> {
    if special {
        escaped(b)
    } else {
        seq![b]
    }
}

/// Whether the byte opens the name of a character class inside a bracket expression.
pub open spec fn opens_class(b: u8) -> bool {
    b == ':' as u8 || b == '.' as u8 || b == '=' as u8
}

/// The position behind the name of a character class that `kind` opened, if it is closed at or
/// after `pos`.
pub open spec fn class_end(text: Seq<u8>, pos: int, kind: u8) -> Option<int>
    decreases text.len() - pos,
{
    if pos < 0 || pos + 1 >= text.len() {
        None
    } else if text[pos] == kind && text[pos + 1] == ']' as u8 {
        Some(pos + 2)
    } else {
        class_end(text, pos + 1, kind)
    }
}

/// The name of a character class ends in its line.
proof fn lemma_class_end(text: Seq<u8>, pos: int, kind: u8)
    ensures
        class_end(text, pos, kind) matches Some(end) ==> pos < end <= text.len(),
    decreases text.len() - pos,
{
    if 0 <= pos && pos + 1 < text.len() {
        lemma_class_end(text, pos + 1, kind);
    }
}

/// What a bracket expression gives from `at` on, behind its first characters, when `out` was
/// given before: its text for the engine. In it, a backslash is an ordinary character, except
/// that it may start an escape sequence if `posix` does not hold.
pub open spec fn bracket_from(at: Cursor, out: Seq<u8>, posix: bool) -> Outcome<Seq<u8>>
    decreases at.line.text.len() - at.line.pos,
{
    let text = at.line.text;
    let pos = at.line.pos;
    if pos < 0 || at.eol() {
        fail(at, "Unterminated bracket expression"@)
    } else if at.char() == ']' {
        done(at.next(), out.push(']' as u8))
    } else if at.char() == '[' && pos + 1 < text.len() && opens_class(text[pos + 1]) {
        match class_end(text, pos + 2, text[pos + 1]) {
            Some(end) => if pos < end <= text.len() {
                bracket_from(at.at_pos(end), out + text.subrange(pos, end), posix)
            } else {
                arbitrary()
            },
            None => fail(at.line_end(), "Unterminated bracket expression"@),
        }
    } else if at.char() == '\\' && !posix && pos + 1 < text.len() && escape_at(
        text,
        pos + 1,
    ) is Some {
        let (b, end) = escape_at(text, pos + 1)->0;
        if pos < end <= text.len() {
            bracket_from(at.at_pos(end), out + escaped_if(b, special_in_bracket(b)), posix)
        } else {
            arbitrary()
        }
    } else {
        bracket_from(
            at.next(),
            out + escaped_if(at.byte(), at.char() == '[' || at.char() == '\\'),
            posix,
        )
    }
}

/// What a bracket expression gives from `at` on, behind its opening bracket. A `]` that comes
/// first is an ordinary character.
pub open spec fn bracket_at(at: Cursor, out: Seq<u8>, posix: bool) -> Outcome<Seq<u8>> {
    let (negated, out) = if at.sees('^') {
        (at.next(), out.push('^' as u8))
    } else {
        (at, out)
    };
    if negated.sees(']') {
        bracket_from(negated.next(), out + escaped(']' as u8), posix)
    } else {
        bracket_from(negated, out, posix)
    }
}

/// A bracket expression is read within its line, and forward.
proof fn lemma_bracket_forward(at: Cursor, out: Seq<u8>, posix: bool)
    requires
        0 <= at.line.pos <= at.line.text.len(),
    ensures
        bracket_from(at, out, posix).at.line.text == at.line.text,
        bracket_from(at, out, posix).at.script == at.script,
        bracket_from(at, out, posix).result is Ok ==> at.line.pos < bracket_from(
            at,
            out,
            posix,
        ).at.line.pos <= at.line.text.len(),
    decreases at.line.text.len() - at.line.pos,
{
    let text = at.line.text;
    let pos = at.line.pos;
    if !at.eol() && at.char() != ']' {
        if at.char() == '[' && pos + 1 < text.len() && opens_class(text[pos + 1]) {
            lemma_class_end(text, pos + 2, text[pos + 1]);
            if let Some(end) = class_end(text, pos + 2, text[pos + 1]) {
                lemma_bracket_forward(at.at_pos(end), out + text.subrange(pos, end), posix);
            }
        } else if at.char() == '\\' && !posix && pos + 1 < text.len() && escape_at(
            text,
            pos + 1,
        ) is Some {
            lemma_escape_end(text, pos + 1);
            let (b, end) = escape_at(text, pos + 1)->0;
            lemma_bracket_forward(
                at.at_pos(end),
                out + escaped_if(b, special_in_bracket(b)),
                posix,
            );
        } else {
            lemma_bracket_forward(
                at.next(),
                out + escaped_if(at.byte(), at.char() == '[' || at.char() == '\\'),
                posix,
            );
        }
    }
}

/// What a regular expression gives from `at` on, when `out` was given before: its text up to
/// the delimiter. A delimiter behind a backslash stands for itself, and `\n` is a line feed.
pub open spec fn regex_from(
    at: Cursor,
    out: Seq<u8>,
    delimiter: u8,
    mode: RegexMode,
    posix: bool,
) -> Outcome<Seq<u8>>
    decreases at.line.text.len() - at.line.pos,
{
    let text = at.line.text;
    let pos = at.line.pos;
    if pos < 0 || at.eol() {
        fail(at, "unterminated regular expression"@)
    } else if at.byte() == delimiter {
        done(at, out)
    } else if at.char() == '\\' {
        if pos + 1 >= text.len() {
            fail(at.next(), "unterminated regular expression"@)
        } else {
            let b = text[pos + 1];
            let unit = if b == delimiter {
                escaped_if(b, special_in_regex(b, mode))
            } else if b as char == 'n' {
                seq![10u8]
            } else {
                escaped(b)
            };
            regex_from(at.at_pos(pos + 2), out + unit, delimiter, mode, posix)
        }
    } else if at.char() == '[' {
        let bracket = bracket_at(at.next(), out.push('[' as u8), posix);
        match bracket.result {
            Ok(so_far) => if bracket.at.line.text == text && pos < bracket.at.line.pos
                <= text.len() {
                regex_from(bracket.at, so_far, delimiter, mode, posix)
            } else {
                arbitrary()
            },
            Err(_) => bracket,
        }
    } else {
        regex_from(at.next(), out.push(at.byte()), delimiter, mode, posix)
    }
}

/// What a delimited regular expression gives at its opening delimiter. The place reached is
/// the closing one.
#[verifier::opaque]
pub open spec fn delimited_regex(at: Cursor, mode: RegexMode, posix: bool) -> Outcome<Seq<u8>> {
    if at.eol() {
        fail(at, "unterminated regular expression"@)
    } else {
        regex_from(at.next(), Seq::empty(), at.byte(), mode, posix)
    }
}

/// Reads a bracket expression behind its opening bracket and appends its text to `out`.
fn parse_bracket(
    lines: &ScriptLineProvider,
    line: &mut ScriptCharProvider,
    out: &mut Vec<u8>,
    posix: bool,
) -> (result: SedResult<()>)
    requires
        0 <= old(line)@.pos <= old(line)@.text.len(),
    ensures
        ({
            let spec = bracket_at(cursor(lines, old(line)), old(out)@, posix);
            &&& final(line)@ == spec.at.line
            &&& spec.at.script == lines@
            &&& ahead(cursor(lines, old(line)), spec.at)
            &&& match result {
                Ok(_) => spec.result == Ok::<Seq<u8>, ErrorView>(final(out)@),
                Err(e) => spec.result == Err::<Seq<u8>, ErrorView>(e@),
            }
        }),
{
    let ghost start = cursor(lines, line);
    let ghost first = out@;
    if !line.eol() && line.current() == '^' {
        out.push('^' as u8);
        line.advance();
    }
    if !line.eol() && line.current() == ']' {
        out.push('\\' as u8);
        out.push(']' as u8);
        line.advance();
    }
    let ghost spec = bracket_at(start, first, posix);
    proof {
        let negated = if start.sees('^') {
            start.next()
        } else {
            start
        };
        let head = if start.sees('^') {
            first.push('^' as u8)
        } else {
            first
        };
        if negated.sees(']') {
            assert(out@ =~= head + escaped(']' as u8));
        }
        lemma_bracket_forward(cursor(lines, line), out@, posix);
    }
    while !line.eol()
        invariant
            start.script == lines@,
            bracket_from(cursor(lines, line), out@, posix) == spec,
            spec.at.script == lines@,
            spec == bracket_at(cursor(lines, old(line)), old(out)@, posix),
            ahead(cursor(lines, old(line)), cursor(lines, line)),
        decreases line@.text.len() - line@.pos,
    {
        let ghost before = out@;
        let ghost here = cursor(lines, line);
        let c = line.current();
        let b = line.current_byte();
        let next = line.peek_byte();
        if c == ']' {
            out.push(b);
            line.advance();
            return Ok(());
        }
        let opens = match next {
            Some(kind) => kind == ':' as u8 || kind == '.' as u8 || kind == '=' as u8,
            None => false,
        };
        if c == '[' && opens {
            let kind = next.unwrap();
            line.advance();
            line.advance();
            out.push(b);
            out.push(kind);
            let ghost from = here.line.pos + 2;
            let ghost text = here.line.text;
            assert(out@ =~= before + text.subrange(here.line.pos, from));
            let mut closed = false;
            while !line.eol() && !closed
                invariant
                    line@.text == text,
                    0 <= here.line.pos < from <= line@.pos <= text.len(),
                    here.line.pos == from - 2,
                    out@ == before + text.subrange(here.line.pos, line@.pos),
                    closed ==> class_end(text, from, kind) == Some(line@.pos),
                    !closed ==> class_end(text, line@.pos, kind) == class_end(text, from, kind),
                decreases text.len() - line@.pos,
            {
                let d = line.current_byte();
                let after = line.peek_byte();
                closed = d == kind && after == Some(']' as u8);
                out.push(d);
                line.advance();
                if closed {
                    out.push(']' as u8);
                    line.advance();
                }
                assert(out@ =~= before + text.subrange(here.line.pos, line@.pos));
            }
            if !closed {
                return compilation_error(lines, line, "Unterminated bracket expression");
            }
        } else if c == '\\' && !posix && next.is_some() {
            line.advance();
            proof {
                lemma_escape_end(here.line.text, here.line.pos + 1);
            }
            match parse_char_escape(line) {
                Some(d) => {
                    if d == '[' as u8 || d == ']' as u8 || d == '\\' as u8 || d == '^' as u8 || d
                        == '-' as u8 {
                        out.push('\\' as u8);
                    }
                    out.push(d);
                    assert(out@ =~= before + escaped_if(d, special_in_bracket(d)));
                },
                None => {
                    out.push('\\' as u8);
                    out.push('\\' as u8);
                    assert(out@ =~= before + escaped_if(b, true));
                },
            }
        } else {
            if c == '[' || c == '\\' {
                out.push('\\' as u8);
            }
            out.push(b);
            line.advance();
            assert(out@ =~= before + escaped_if(b, c == '[' || c == '\\'));
        }
    }
    compilation_error(lines, line, "Unterminated bracket expression")
}

/// A bracket expression is read within its line, and forward.
proof fn lemma_bracket_at_forward(at: Cursor, out: Seq<u8>, posix: bool)
    requires
        0 <= at.line.pos <= at.line.text.len(),
    ensures
        bracket_at(at, out, posix).at.line.text == at.line.text,
        bracket_at(at, out, posix).at.script == at.script,
        bracket_at(at, out, posix).result is Ok ==> at.line.pos < bracket_at(
            at,
            out,
            posix,
        ).at.line.pos <= at.line.text.len(),
{
    let (negated, head) = if at.sees('^') {
        (at.next(), out.push('^' as u8))
    } else {
        (at, out)
    };
    if negated.sees(']') {
        lemma_bracket_forward(negated.next(), head + escaped(']' as u8), posix);
    } else {
        lemma_bracket_forward(negated, head, posix);
    }
}

/// Whether the byte has a meaning of its own in a regular expression of the given syntax.
fn is_special_in_regex(b: u8, mode: RegexMode) -> (yes: bool)
    ensures
        yes == special_in_regex(b, mode),
{
    let c = b as char;
    if c == '.' || c == '*' || c == '[' || c == ']' || c == '^' || c == '$' {
        return true;
    }
    mode == RegexMode::Extended && (c == '+' || c == '?' || c == '(' || c == ')' || c == '{' || c
        == '}' || c == '|')
}

/// Reads a regular expression between delimiters, the first of which is the current
/// character. It ends on the last one.
pub fn parse_regex_for_mode(
    lines: &ScriptLineProvider,
    line: &mut ScriptCharProvider,
    mode: RegexMode,
    posix: bool,
) -> (result: SedResult<Vec<u8>>)
    ensures
        viewed(result) == delimited_regex(cursor(lines, old(line)), mode, posix).result,
        final(line)@ == delimited_regex(cursor(lines, old(line)), mode, posix).at.line,
        delimited_regex(cursor(lines, old(line)), mode, posix).at.script == lines@,
        ahead(cursor(lines, old(line)), cursor(lines, final(line))),
        result is Ok ==> !cursor(lines, final(line)).eol(),
{
    reveal(delimited_regex);
    if line.eol() {
        return compilation_error(lines, line, "unterminated regular expression");
    }
    let ghost spec = delimited_regex(cursor(lines, line), mode, posix);
    let delimiter = line.current_byte();
    line.advance();
    let mut out: Vec<u8> = Vec::new();
    while !line.eol()
        invariant
            regex_from(cursor(lines, line), out@, delimiter, mode, posix) == spec,
            spec == delimited_regex(cursor(lines, old(line)), mode, posix),
            ahead(cursor(lines, old(line)), cursor(lines, line)),
        decreases line@.text.len() - line@.pos,
    {
        let ghost before = out@;
        let ghost here = cursor(lines, line);
        let c = line.current();
        let b = line.current_byte();
        if b == delimiter {
            return Ok(out);
        }
        if c == '\\' {
            line.advance();
            if line.eol() {
                return compilation_error(lines, line, "unterminated regular expression");
            }
            let d = line.current_byte();
            line.advance();
            if d == delimiter {
                if is_special_in_regex(d, mode) {
                    out.push('\\' as u8);
                }
                out.push(d);
                assert(out@ =~= before + escaped_if(d, special_in_regex(d, mode)));
            } else if d as char == 'n' {
                out.push(10);
                assert(out@ =~= before + seq![10u8]);
            } else {
                out.push('\\' as u8);
                out.push(d);
                assert(out@ =~= before + escaped(d));
            }
        } else if c == '[' {
            line.advance();
            out.push('[' as u8);
            proof {
                lemma_bracket_at_forward(cursor(lines, line), out@, posix);
            }
            match parse_bracket(lines, line, &mut out, posix) {
                Ok(_) => (),
                Err(e) => {
                    return Err(e);
                },
            }
        } else {
            out.push(b);
            line.advance();
        }
    }
    compilation_error(lines, line, "unterminated regular expression")
}

/// What a string of `y` gives from `at` on, when `out` was given before: its bytes up to the
/// delimiter. A backslash or delimiter behind a backslash stands for itself.
pub open spec fn transliteration_from(at: Cursor, out: Seq<u8>, delimiter: u8) -> Outcome<Seq<u8>>
    decreases at.line.text.len() - at.line.pos,
{
    let text = at.line.text;
    let pos = at.line.pos;
    if pos < 0 || at.eol() {
        fail(at, "unterminated `y' command"@)
    } else if at.byte() == delimiter {
        done(at, out)
    } else if at.char() == '\\' {
        if pos + 1 >= text.len() {
            fail(at.next(), "unterminated `y' command"@)
        } else if text[pos + 1] == delimiter || text[pos + 1] == '\\' as u8 {
            transliteration_from(at.at_pos(pos + 2), out.push(text[pos + 1]), delimiter)
        } else {
            match escape_at(text, pos + 1) {
                Some((b, end)) => if pos < end <= text.len() {
                    transliteration_from(at.at_pos(end), out.push(b), delimiter)
                } else {
                    arbitrary()
                },
                None => transliteration_from(
                    at.at_pos(pos + 2),
                    out + escaped(text[pos + 1]),
                    delimiter,
                ),
            }
        }
    } else {
        transliteration_from(at.next(), out.push(at.byte()), delimiter)
    }
}

/// A string of `y`, by the unit that it is handled by.
#[verifier::ext_equal]
pub enum ParsedView {
    Bytes(Seq<u8>),
    Text(Seq<char>),
}

/// A string of `y`, by the unit that it is handled by.
#[derive(Debug)]
pub enum ParsedTransliteration {
    /// As bytes.
    Bytes(Vec<u8>),
    /// As characters.
    Text(String),
}

impl View for ParsedTransliteration {
    type V = ParsedView;

    open spec fn view(&self) -> ParsedView {
        match *self {
            ParsedTransliteration::Bytes(bytes) => ParsedView::Bytes(bytes@),
            ParsedTransliteration::Text(text) => ParsedView::Text(text@),
        }
    }
}

/// What a delimited string of `y` gives at its opening delimiter. The place reached is the
/// closing one.
pub open spec fn delimited_transliteration(at: Cursor, mode: CharacterMode) -> Outcome<ParsedView> {
    let bytes = transliteration_from(at.next(), Seq::empty(), at.byte());
    match bytes.result {
        Ok(b) => if mode == CharacterMode::Byte {
            done(bytes.at, ParsedView::Bytes(b))
        } else if valid_utf8(b) {
            done(bytes.at, ParsedView::Text(decode_utf8(b)))
        } else {
            fail(bytes.at, "invalid UTF-8 in `y' command"@)
        },
        Err(e) => fail_with(bytes.at, e),
    }
}

/// Reads a string of `y` between delimiters, the first of which is the current character. It
/// ends on the last one.
pub fn parse_transliteration_for_mode(
    lines: &ScriptLineProvider,
    line: &mut ScriptCharProvider,
    mode: CharacterMode,
) -> (result: SedResult<ParsedTransliteration>)
    requires
        old(line)@.pos < old(line)@.text.len(),
    ensures
        viewed(result) == delimited_transliteration(cursor(lines, old(line)), mode).result,
        final(line)@ == delimited_transliteration(cursor(lines, old(line)), mode).at.line,
        delimited_transliteration(cursor(lines, old(line)), mode).at.script == lines@,
        ahead(cursor(lines, old(line)), cursor(lines, final(line))),
        result is Ok ==> !cursor(lines, final(line)).eol(),
        result matches Ok(parsed) ==> (parsed is Bytes <==> mode == CharacterMode::Byte),
{
    let ghost start = cursor(lines, line);
    let delimiter = line.current_byte();
    line.advance();
    let ghost bytes = transliteration_from(start.next(), Seq::empty(), delimiter);
    let mut out: Vec<u8> = Vec::new();
    while !line.eol()
        invariant
            start == cursor(lines, old(line)),
            bytes == transliteration_from(start.next(), Seq::empty(), start.byte()),
            transliteration_from(cursor(lines, line), out@, delimiter) == bytes,
            ahead(start, cursor(lines, line)),
        decreases line@.text.len() - line@.pos,
    {
        let ghost before = out@;
        let ghost here = cursor(lines, line);
        let b = line.current_byte();
        if b == delimiter {
            if mode == CharacterMode::Byte {
                return Ok(ParsedTransliteration::Bytes(out));
            }
            return match utf8_text(&out) {
                Some(text) => Ok(ParsedTransliteration::Text(text)),
                None => compilation_error(lines, line, "invalid UTF-8 in `y' command"),
            };
        }
        line.advance();
        if b != '\\' as u8 {
            out.push(b);
        } else {
            if line.eol() {
                return compilation_error(lines, line, "unterminated `y' command");
            }
            let d = line.current_byte();
            if d == delimiter || d == '\\' as u8 {
                out.push(d);
                line.advance();
            } else {
                proof {
                    lemma_escape_end(here.line.text, here.line.pos + 1);
                }
                match parse_char_escape(line) {
                    Some(decoded) => {
                        out.push(decoded);
                    },
                    None => {
                        out.push('\\' as u8);
                        out.push(d);
                        line.advance();
                        assert(out@ =~= before + escaped(d));
                    },
                }
            }
        }
    }
    compilation_error(lines, line, "unterminated `y' command")
}

} // verus!
