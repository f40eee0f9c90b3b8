//! Compiling `v`, which asks for a version of the editor.

use crate::command::{Command, CommandView, ContextView, ProcessingContext};
use crate::compiler::cursor::{Cursor, ahead, cursor};
use crate::compiler::handling::{CommandHandling, Handled, compiled, handled, refused};
use crate::compiler::regex::is_digit;
use crate::delimited_parser::digits_number;
use crate::error_handling::{SedResult, compilation_error};
use crate::script_char_provider::{ScriptCharProvider, is_space, is_space_byte};
use crate::script_line_provider::ScriptLineProvider;
use vstd::prelude::*;

verus! {

/// The version of GNU sed that the editor is on a par with.
pub const GNU_MAJOR: u8 = 4;

/// The second part of that version.
pub const GNU_MINOR: u8 = 9;

/// The third part of that version.
pub const GNU_PATCH: u8 = 0;

/// The parts of a version, as they stand in the script.
#[verifier::ext_equal]
pub struct VersionText {
    pub major: Seq<u8>,
    pub minor: Seq<u8>,
    pub patch: Seq<u8>,
}

/// A version of which nothing has been read.
pub open spec fn no_version() -> VersionText {
    VersionText { major: Seq::empty(), minor: Seq::empty(), patch: Seq::empty() }
}

/// The parts with one more byte in the part at `index`.
pub open spec fn with_byte(version: VersionText, index: nat, b: u8) -> VersionText {
    if index == 0 {
        VersionText { major: version.major.push(b), ..version }
    } else if index == 1 {
        VersionText { minor: version.minor.push(b), ..version }
    } else {
        VersionText { patch: version.patch.push(b), ..version }
    }
}

/// The end of the version from `at` on, and its parts, when `version` was read before and
/// `dots` dots with it; there are no parts if a fourth one follows. The version ends at white
/// space or `;`.
pub open spec fn version_from(at: Cursor, version: VersionText, dots: nat) -> (Cursor, Option<VersionText>)
    decreases at.line.text.len() - at.line.pos,
{
    if at.line.pos < 0 || at.eol() || is_space(at.byte()) || at.char() == ';' {
        (at, Some(version))
    } else if at.char() == '.' {
        version_from(at.next(), version, dots + 1)
    } else if dots > 2 {
        (at, None)
    } else {
        version_from(at.next(), with_byte(version, dots, at.byte()), dots)
    }
}

/// Whether the bytes are decimal digits.
pub open spec fn all_digits(bytes: Seq<u8>) -> bool {
    forall|i: int| 0 <= i < bytes.len() ==> is_digit(#[trigger] bytes[i])
}

/// The number from 0 to 255 that the bytes write, if they write one: digits, with a sign `+`
/// allowed before them.
pub open spec fn small_number(bytes: Seq<u8>) -> Option<int> {
    let digits = if bytes.len() > 0 && bytes[0] == '+' as u8 {
        bytes.skip(1)
    } else {
        bytes
    };
    let value = digits_number(digits, 0, digits.len() as int, 10);
    if digits.len() > 0 && all_digits(digits) && value <= 255 {
        Some(value)
    } else {
        None
    }
}

/// The number that a part of the version stands for. A part that is missing is 0.
pub open spec fn part_number(bytes: Seq<u8>) -> Option<int> {
    if bytes.len() == 0 {
        Some(0)
    } else {
        small_number(bytes)
    }
}

/// The numbers of the version, if all parts write numbers. No version is the editor's own.
pub open spec fn version_numbers(version: VersionText) -> Option<(int, int, int)> {
    if version.major.len() == 0 {
        Some((GNU_MAJOR as int, GNU_MINOR as int, GNU_PATCH as int))
    } else {
        match (
            small_number(version.major),
            part_number(version.minor),
            part_number(version.patch),
        ) {
            (Some(major), Some(minor), Some(patch)) => Some((major, minor, patch)),
            _ => None,
        }
    }
}

/// Whether the editor is of the given version or a newer one: the first parts that differ
/// decide.
pub open spec fn version_supported(numbers: (int, int, int)) -> bool {
    ||| numbers.0 < GNU_MAJOR
    ||| numbers.0 == GNU_MAJOR && numbers.1 < GNU_MINOR
    ||| numbers.0 == GNU_MAJOR && numbers.1 == GNU_MINOR && numbers.2 <= GNU_PATCH
}

/// What `v` gives at `at`.
#[verifier::opaque]
pub open spec fn version_command(at: Cursor, cmd: CommandView, context: ContextView) -> Handled {
    let (end, version) = version_from(at.next().past_spaces(), no_version(), 0);
    match version {
        None => refused(end, cmd, context, "invalid version of sed"@),
        Some(v) => match version_numbers(v) {
            None => refused(end, cmd, context, "invalid version of sed"@),
            Some(numbers) => if version_supported(numbers) {
                compiled(end, cmd, context)
            } else {
                refused(end, cmd, context, "expected newer version of sed"@)
            },
        },
    }
}

/// More digits make no smaller number.
proof fn lemma_number_grows(bytes: Seq<u8>, from: int, to: int)
    requires
        0 <= from <= to <= bytes.len(),
        all_digits(bytes),
    ensures
        digits_number(bytes, 0, from, 10) <= digits_number(bytes, 0, to, 10),
        0 <= digits_number(bytes, 0, from, 10),
    decreases to,
{
    if from < to {
        lemma_number_grows(bytes, from, to - 1);
        assert(is_digit(bytes[to - 1]));
    } else if to > 0 {
        lemma_number_grows(bytes, to - 1, to - 1);
        assert(is_digit(bytes[to - 1]));
    }
}

/// The number from 0 to 255 that the bytes write, if they write one.
fn parse_small(bytes: &Vec<u8>) -> (number: Option<u32>)
    ensures
        match number {
            Some(n) => small_number(bytes@) == Some(n as int),
            None => small_number(bytes@) is None,
        },
{
    let first: usize = if bytes.len() > 0 && bytes[0] == '+' as u8 {
        1
    } else {
        0
    };
    let ghost digits = bytes@.skip(first as int);
    assert(first == 0 ==> digits =~= bytes@);
    if first >= bytes.len() {
        return None;
    }
    let mut value: u32 = 0;
    let mut i: usize = first;
    while i < bytes.len()
        invariant
            first <= i <= bytes.len(),
            first < bytes.len(),
            first <= 1,
            digits == bytes@.skip(first as int),
            small_number(bytes@) == (if digits.len() > 0 && all_digits(digits)
                && digits_number(digits, 0, digits.len() as int, 10) <= 255 {
                Some(digits_number(digits, 0, digits.len() as int, 10))
            } else {
                None
            }),
            forall|j: int| 0 <= j < i - first ==> is_digit(#[trigger] digits[j]),
            value == digits_number(digits, 0, i - first, 10),
            value <= 255,
        decreases bytes.len() - i,
    {
        let b = bytes[i];
        assert(b == digits[i - first]);
        if b < '0' as u8 || b > '9' as u8 {
            assert(!all_digits(digits));
            return None;
        }
        value = value * 10 + (b - '0' as u8) as u32;
        i += 1;
        if value > 255 {
            proof {
                if all_digits(digits) {
                    lemma_number_grows(digits, i - first, digits.len() as int);
                }
            }
            return None;
        }
    }
    Some(value)
}

/// The number that a part of the version stands for.
fn parse_part(bytes: &Vec<u8>) -> (number: Option<u32>)
    ensures
        match number {
            Some(n) => part_number(bytes@) == Some(n as int),
            None => part_number(bytes@) is None,
        },
{
    if bytes.len() == 0 {
        Some(0)
    } else {
        parse_small(bytes)
    }
}

/// Reads a version. There is none if it has a fourth part.
fn parse_version(lines: &ScriptLineProvider, line: &mut ScriptCharProvider) -> (version: Option<
    (Vec<u8>, Vec<u8>, Vec<u8>),
>)
    ensures
        ({
            let (end, parts) = version_from(cursor(lines, old(line)), no_version(), 0);
            &&& cursor(lines, final(line)) == end
            &&& match version {
                Some((major, minor, patch)) => parts == Some(
                    VersionText { major: major@, minor: minor@, patch: patch@ },
                ),
                None => parts is None,
            }
        }),
        ahead(cursor(lines, old(line)), cursor(lines, final(line))),
{
    let ghost start = cursor(lines, line);
    let ghost spec = version_from(start, no_version(), 0);
    let mut major: Vec<u8> = Vec::new();
    let mut minor: Vec<u8> = Vec::new();
    let mut patch: Vec<u8> = Vec::new();
    let mut dots: usize = 0;
    let _at_end = line.eol();
    assert(no_version() =~= (VersionText { major: major@, minor: minor@, patch: patch@ }));
    // Like a label, the version ends at whitespace or `;`, so `v 4.2;p` runs `p`.
    while !line.eol() && !is_space_byte(line.current_byte()) && line.current() != ';'
        invariant
            start == cursor(lines, old(line)),
            ahead(start, cursor(lines, line)),
            0 <= dots <= line@.pos,
            spec == version_from(start, no_version(), 0),
            spec == version_from(
                cursor(lines, line),
                VersionText { major: major@, minor: minor@, patch: patch@ },
                dots as nat,
            ),
        decreases line@.text.len() - line@.pos,
    {
        let b = line.current_byte();
        if line.current() == '.' {
            line.advance();
            dots += 1;
        } else {
            if dots == 0 {
                major.push(b);
            } else if dots == 1 {
                minor.push(b);
            } else if dots == 2 {
                patch.push(b);
            } else {
                return None;
            }
            line.advance();
        }
    }
    Some((major, minor, patch))
}

/// Compiles `v`, which is the current character.
pub fn compile_version_command(
    lines: &mut ScriptLineProvider,
    line: &mut ScriptCharProvider,
    cmd: &mut Command,
    context: &mut ProcessingContext,
) -> (result: SedResult<CommandHandling>)
    requires
        old(line)@.pos < old(line)@.text.len(),
    ensures
        handled(
            result,
            cursor(final(lines), final(line)),
            final(cmd),
            final(context),
        ) == version_command(cursor(old(lines), old(line)), old(cmd)@, old(context)@),
        ahead(cursor(old(lines), old(line)).next(), cursor(final(lines), final(line))),
{
    reveal(version_command);
    line.advance();
    line.eat_spaces();  // Skip any leading whitespace.
    let (major, minor, patch) = match parse_version(lines, line) {
        Some(version) => version,
        None => {
            return compilation_error(lines, line, "invalid version of sed");
        },
    };
    if major.len() == 0 {
        return Ok(CommandHandling::Continue);
    }
    match (parse_small(&major), parse_part(&minor), parse_part(&patch)) {
        (Some(x), Some(y), Some(z)) => {
            let (a, b, c) = (GNU_MAJOR as u32, GNU_MINOR as u32, GNU_PATCH as u32);
            // Version order: 3.99 is older than 4.9.
            if x < a || (x == a && (y < b || (y == b && z <= c))) {
                return Ok(CommandHandling::Continue);
            }
            compilation_error(lines, line, "expected newer version of sed")
        },
        _ => compilation_error(lines, line, "invalid version of sed"),
    }
}

} // verus!
