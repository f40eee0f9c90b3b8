//! Compiling regular expressions.

use crate::command::{ContextView, ProcessingContext};
use crate::compiler::cursor::{Cursor, cursor, in_words, viewed_option};
use crate::error_handling::{ErrorView, SedError, SedResult, compilation_error};
use crate::fast_regex::{Regex, RegexView};
use crate::script_char_provider::ScriptCharProvider;
use crate::script_line_provider::ScriptLineProvider;
use crate::text::{copy_range, lossy, lossy_text};
use vstd::prelude::*;

verus! {

/// Whether the byte is special in extended regular expressions but not in basic ones.
pub open spec fn extended_only(c: u8) -> bool {
    c == '+' as u8 || c == '?' as u8 || c == '{' as u8 || c == '}' as u8 || c == '|' as u8
        || c == '(' as u8 || c == ')' as u8
}

/// Whether the byte is a decimal digit.
pub open spec fn is_digit(c: u8) -> bool {
    '0' as u8 <= c <= '9' as u8
}

/// What a backslash and the byte `c` of a basic expression become: an operator that basic
/// expressions write with a backslash loses it, a back-reference is kept apart from digits
/// that follow, and anything else stays.
pub open spec fn escape_unit(c: u8) -> Seq<u8> {
    if extended_only(c) {
        seq![c]
    } else if is_digit(c) {
        seq!['(' as u8, '?' as u8, ':' as u8, '\\' as u8, c, ')' as u8]
    } else {
        seq!['\\' as u8, c]
    }
}

/// What the byte `c` of a basic expression becomes. `previous` is the byte before it, and
/// `last` tells whether none follows. A byte that only extended expressions give a meaning
/// to gets a backslash, and so does an anchor away from its end of the expression (`^` also
/// negates a bracket expression).
pub open spec fn plain_unit(c: u8, previous: Option<u8>, last: bool) -> Seq<u8> {
    if extended_only(c) || (c == '^' as u8 && previous is Some && previous != Some('[' as u8))
        || (c == '$' as u8 && !last) {
        seq!['\\' as u8, c]
    } else {
        seq![c]
    }
}

/// The extended expression for the basic expression `pattern` from `i` on, where `previous`
/// is the byte before it (the backslash, if it is escaped).
pub open spec fn ere_from(pattern: Seq<u8>, i: int, previous: Option<u8>) -> Seq<u8>
    decreases pattern.len() - i,
{
    if i < 0 || i >= pattern.len() {
        Seq::empty()
    } else if pattern[i] == '\\' as u8 {
        if i + 1 < pattern.len() {
            escape_unit(pattern[i + 1]) + ere_from(pattern, i + 2, Some('\\' as u8))
        } else {
            seq!['\\' as u8]
        }
    } else {
        plain_unit(pattern[i], previous, i + 1 >= pattern.len()) + ere_from(
            pattern,
            i + 1,
            Some(pattern[i]),
        )
    }
}

/// The extended regular expression that says what the basic one `pattern` says.
pub open spec fn ere(pattern: Seq<u8>) -> Seq<u8> {
    ere_from(pattern, 0, None)
}

/// Whether the byte is special in extended regular expressions but not in basic ones.
fn is_extended_only(c: u8) -> (yes: bool)
    ensures
        yes == extended_only(c),
{
    c == '+' as u8 || c == '?' as u8 || c == '{' as u8 || c == '}' as u8 || c == '|' as u8 || c == '(' as u8 || c == ')' as u8
}

/// Converts a basic regular expression to an extended one.
/// - `\(`, `\)`, `\?`, `\+`, `\|`, `\{` and `\}` lose their backslash.
/// - Single-digit back-references are put in groups that capture nothing.
/// - `+`, `?`, `{`, `}`, `|`, `(` and `)` get a backslash.
/// - All other bytes stay.
pub fn bre_to_ere(pattern: &[u8]) -> (result: Vec<u8>)
    ensures
        result@ == ere(pattern@),
{
    let mut result: Vec<u8> = Vec::new();
    let mut pos: usize = 0;
    let mut previous: Option<u8> = None;
    while pos < pattern.len()
        invariant
            pos <= pattern.len(),
            result@ + ere_from(pattern@, pos as int, previous) == ere(pattern@),
        decreases pattern.len() - pos,
    {
        let ghost before = result@;
        let ghost rest = ere_from(pattern@, pos as int, previous);
        let c = pattern[pos];
        pos += 1;
        if c == '\\' as u8 {
            if pos < pattern.len() {
                let next = pattern[pos];
                pos += 1;
                if is_extended_only(next) {
                    result.push(next);
                } else if '0' as u8 <= next && next <= '9' as u8 {
                    result.push('(' as u8);
                    result.push('?' as u8);
                    result.push(':' as u8);
                    result.push('\\' as u8);
                    result.push(next);
                    result.push(')' as u8);
                } else {
                    result.push('\\' as u8);
                    result.push(next);
                }
                assert(result@ =~= before + escape_unit(next));
            } else {
                result.push('\\' as u8);
                assert(result@ =~= before + seq!['\\' as u8]);
                assert(ere_from(pattern@, pos as int, Some(c)) =~= Seq::empty());
            }
        } else {
            let negates_bracket = match previous {
                Some(p) => p == '[' as u8,
                None => true,
            };
            if is_extended_only(c) || (c == '^' as u8 && !negates_bracket) || (c == '$' as u8 && pos
                < pattern.len()) {
                result.push('\\' as u8);
            }
            result.push(c);
            assert(result@ =~= before + plain_unit(c, previous, pos >= pattern.len()));
        }
        previous = Some(c);
        assert(result@ + ere_from(pattern@, pos as int, previous) =~= before + rest);
    }
    assert(ere_from(pattern@, pos as int, previous) =~= Seq::empty());
    assert(result@ =~= ere(pattern@));
    result
}

/// The bytes, with a backslash before each one that only extended expressions give a meaning
/// to.
pub open spec fn with_literals_escaped(bytes: Seq<u8>) -> Seq<u8>
    decreases bytes.len(),
{
    if bytes.len() == 0 {
        Seq::empty()
    } else if extended_only(bytes[0]) {
        seq!['\\' as u8, bytes[0]] + with_literals_escaped(bytes.skip(1))
    } else {
        seq![bytes[0]] + with_literals_escaped(bytes.skip(1))
    }
}

/// Whether the byte is neither a backslash nor an anchor.
pub open spec fn is_ordinary_byte(b: u8) -> bool {
    b != '\\' as u8 && b != '^' as u8 && b != '$' as u8
}

/// A basic expression without backslashes and anchors becomes itself, with a backslash before
/// each byte that only extended expressions give a meaning to.
pub proof fn law_literals_are_escaped(pattern: Seq<u8>)
    requires
        forall|i: int| 0 <= i < pattern.len() ==> is_ordinary_byte(#[trigger] pattern[i]),
    ensures
        ere(pattern) == with_literals_escaped(pattern),
{
    lemma_literals_from(pattern, 0, None);
    assert(pattern.skip(0) =~= pattern);
}

/// The same from a position on.
proof fn lemma_literals_from(pattern: Seq<u8>, i: int, previous: Option<u8>)
    requires
        0 <= i <= pattern.len(),
        forall|j: int| 0 <= j < pattern.len() ==> is_ordinary_byte(#[trigger] pattern[j]),
    ensures
        ere_from(pattern, i, previous) == with_literals_escaped(pattern.skip(i)),
    decreases pattern.len() - i,
{
    if i < pattern.len() {
        assert(is_ordinary_byte(pattern[i]));
        lemma_literals_from(pattern, i + 1, Some(pattern[i]));
        assert(pattern.skip(i).skip(1) =~= pattern.skip(i + 1));
    }
}

/// A basic expression of bytes that no kind of expression treats differently stays as it is.
pub proof fn law_plain_pattern_stays(pattern: Seq<u8>)
    requires
        forall|i: int|
            0 <= i < pattern.len() ==> is_ordinary_byte(#[trigger] pattern[i]) && !extended_only(
                pattern[i],
            ),
    ensures
        ere(pattern) == pattern,
{
    law_literals_are_escaped(pattern);
    lemma_nothing_to_escape(pattern);
}

/// Bytes that need no backslash get none.
proof fn lemma_nothing_to_escape(bytes: Seq<u8>)
    requires
        forall|i: int| 0 <= i < bytes.len() ==> !extended_only(#[trigger] bytes[i]),
    ensures
        with_literals_escaped(bytes) == bytes,
    decreases bytes.len(),
{
    if bytes.len() > 0 {
        let rest = bytes.skip(1);
        assert forall|i: int| 0 <= i < rest.len() implies !extended_only(#[trigger] rest[i]) by {
            assert(!extended_only(bytes[i + 1]));
        }
        lemma_nothing_to_escape(rest);
        assert(!extended_only(bytes[0]));
        assert(seq![bytes[0]] + rest =~= bytes);
    } else {
        assert(bytes =~= Seq::empty());
    }
}

/// The bytes, each behind a backslash.
pub open spec fn backslashed(bytes: Seq<u8>) -> Seq<u8> {
    Seq::new(
        2 * bytes.len(),
        |i: int|
            if i % 2 == 0 {
                '\\' as u8
            } else {
                bytes[i / 2]
            },
    )
}

/// Operators that basic expressions write with a backslash are written without it in extended
/// ones.
pub proof fn law_operators_lose_backslash(operators: Seq<u8>)
    requires
        forall|i: int| 0 <= i < operators.len() ==> extended_only(#[trigger] operators[i]),
    ensures
        ere(backslashed(operators)) == operators,
{
    lemma_operators_from(operators, 0, None);
    assert(operators.skip(0) =~= operators);
}

/// The same from a position on.
proof fn lemma_operators_from(operators: Seq<u8>, i: int, previous: Option<u8>)
    requires
        0 <= i <= operators.len(),
        forall|j: int| 0 <= j < operators.len() ==> extended_only(#[trigger] operators[j]),
    ensures
        ere_from(backslashed(operators), 2 * i, previous) == operators.skip(i),
    decreases operators.len() - i,
{
    let pattern = backslashed(operators);
    if i < operators.len() {
        assert(pattern[2 * i] == '\\' as u8);
        assert(pattern[2 * i + 1] == operators[i]);
        assert(extended_only(operators[i]));
        lemma_operators_from(operators, i + 1, Some('\\' as u8));
        assert(2 * i + 2 == 2 * (i + 1));
        assert(seq![operators[i]] + operators.skip(i + 1) =~= operators.skip(i));
    } else {
        assert(operators.skip(i) =~= Seq::empty());
    }
}

/// The pattern behind the modifiers that make it ignore case or match at inner line ends.
pub open spec fn with_modifiers(pattern: Seq<u8>, icase: bool, multiline: bool) -> Seq<u8> {
    if icase && multiline {
        seq!['(' as u8, '?' as u8, 'i' as u8, 'm' as u8, ')' as u8] + pattern
    } else if icase {
        seq!['(' as u8, '?' as u8, 'i' as u8, ')' as u8] + pattern
    } else if multiline {
        seq!['(' as u8, '?' as u8, 'm' as u8, ')' as u8] + pattern
    } else {
        pattern
    }
}

/// The regular expression that the engine gets for `pattern`.
pub open spec fn regex_source(
    pattern: Seq<u8>,
    context: ContextView,
    icase: bool,
    multiline: bool,
) -> RegexView {
    let extended = if context.options.regex_extended {
        pattern
    } else {
        ere(pattern)
    };
    RegexView {
        pattern: with_modifiers(extended, icase, multiline),
        mode: context.options.character_mode,
    }
}

/// The error at `at` that the engine refuses the expression, in the words `reason`.
pub open spec fn regex_refused(at: Cursor, pattern: Seq<u8>, reason: Seq<char>) -> ErrorView {
    ErrorView {
        reason: Some(reason),
        ..at.error("invalid regex '"@ + lossy_text(pattern) + "': "@ + reason)
    }
}

/// What compiling `pattern` at `at` gives, if `reason` are the words of the engine should it
/// refuse. An empty pattern gives none, which stands for the last expression that was used.
#[verifier::opaque]
pub open spec fn regex_at(
    at: Cursor,
    pattern: Seq<u8>,
    context: ContextView,
    icase: bool,
    multiline: bool,
    reason: Seq<char>,
) -> Result<Option<RegexView>, ErrorView> {
    let regex = regex_source(pattern, context, icase, multiline);
    if pattern.len() == 0 {
        Ok(None)
    } else {
        match regex.groups() {
            Some(_) => Ok(Some(regex)),
            None => Err(regex_refused(at, regex.pattern, reason)),
        }
    }
}

/// The error that the engine refuses the expression `pattern` for the given reason.
pub fn invalid_regex(
    lines: &ScriptLineProvider,
    line: &ScriptCharProvider,
    pattern: &[u8],
    reason: String,
) -> (result: SedResult<Option<Regex>>)
    ensures
        viewed_option(result) == Err::<Option<RegexView>, ErrorView>(
            regex_refused(cursor(lines, line), pattern@, reason@),
        ),
{
    let mut message = String::from_str("invalid regex '");
    message.append(lossy(pattern).as_str());
    message.append("': ");
    message.append(reason.as_str());
    match compilation_error::<Option<Regex>>(lines, line, message.as_str()) {
        Ok(never) => Ok(never),
        Err(e) => Err(SedError { reason: Some(reason), ..e }),
    }
}

/// Compiles a regular expression. An empty pattern gives none, which stands for the last
/// expression that was used when the command runs.
pub fn compile_regex(
    lines: &ScriptLineProvider,
    line: &ScriptCharProvider,
    pattern: &[u8],
    context: &ProcessingContext,
    icase: bool,
    multiline: bool,
) -> (result: SedResult<Option<Regex>>)
    ensures
        forall|reason: Seq<char>|
            in_words(result, reason) ==> viewed_option(result) == #[trigger] regex_at(
                cursor(lines, line),
                pattern@,
                context@,
                icase,
                multiline,
                reason,
            ),
{
    reveal(regex_at);
    if pattern.len() == 0 {
        return Ok(None);
    }
    let extended = if context.regex_extended {
        copy_range(pattern, 0, pattern.len())
    } else {
        bre_to_ere(pattern)
    };
    let ghost plain = if context.regex_extended {
        pattern@
    } else {
        ere(pattern@)
    };
    assert(extended@ =~= plain);
    let mut source: Vec<u8> = Vec::new();
    if icase || multiline {
        source.push('(' as u8);
        source.push('?' as u8);
        if icase {
            source.push('i' as u8);
        }
        if multiline {
            source.push('m' as u8);
        }
        source.push(')' as u8);
    }
    source.extend_from_slice(&extended);
    assert(source@ =~= with_modifiers(plain, icase, multiline));
    match Regex::new(&source, context.character_mode) {
        Ok(regex) => Ok(Some(regex)),
        Err(reason) => invalid_regex(lines, line, &source, reason),
    }
}

} // verus!
