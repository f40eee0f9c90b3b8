//! Compiling the replacements of substitutions.

use crate::command::{
    CaseConversion, CharacterMode, PartView, ReplacementPart, ReplacementTemplate, TemplateView,
    max_group, parts_view, template_of,
};
use crate::compiler::cursor::{
    Cursor, Outcome, advance_line, ahead, cursor, done, fail, fail_with, viewed,
};
use crate::compiler::regex::is_digit;
use crate::delimited_parser::{
    digit_value, digits_end, digits_number, escape_at, escaped, lemma_escape_end, parse_char_escape,
};
use crate::error_handling::{ErrorView, SedResult, compilation_error};
use crate::script_char_provider::{LineView, ScriptCharProvider};
use crate::script_line_provider::ScriptLineProvider;
use vstd::prelude::*;

verus! {

/// The parts, with the literal text behind them if there is any.
pub open spec fn flushed(parts: Seq<PartView>, literal: Seq<u8>) -> Seq<PartView> {
    if literal.len() > 0 {
        parts.push(PartView::Literal(literal))
    } else {
        parts
    }
}

/// The part that a backslash and the digit `b` stand for.
pub open spec fn reference_part(b: u8) -> PartView {
    if b == '0' as u8 {
        PartView::WholeMatch
    } else {
        PartView::Group((b - '0' as u8) as u32)
    }
}

/// The case conversion that a backslash and the byte `b` stand for, if they stand for one.
pub open spec fn case_of(b: u8) -> Option<CaseConversion> {
    if b == 'U' as u8 {
        Some(CaseConversion::Upper)
    } else if b == 'L' as u8 {
        Some(CaseConversion::Lower)
    } else if b == 'u' as u8 {
        Some(CaseConversion::UpperNext)
    } else if b == 'l' as u8 {
        Some(CaseConversion::LowerNext)
    } else if b == 'E' as u8 {
        Some(CaseConversion::End)
    } else {
        None
    }
}

/// What a replacement gives from `at` on, when `parts` and then the literal text `literal` were
/// given before: all its parts, up to the delimiter. It may go on over several lines: behind a
/// backslash, a line end is part of it, else it is not.
pub open spec fn replacement_from(
    at: Cursor,
    parts: Seq<PartView>,
    literal: Seq<u8>,
    delimiter: u8,
) -> Outcome<TemplateView>
    decreases at.script.rest.lines.len(), at.line.text.len() - at.line.pos,
{
    let text = at.line.text;
    let pos = at.line.pos;
    if pos < 0 {
        arbitrary()
    } else if at.eol() {
        match at.read() {
            Ok(Some(_)) => replacement_from(at.after_read(), parts, literal, delimiter),
            Ok(None) => fail(at.after_read(), "unterminated `s' command"@),
            Err(e) => fail_with(at.after_read(), e),
        }
    } else if at.char() == '\\' {
        if pos + 1 >= text.len() {
            match at.next().read() {
                Ok(Some(_)) => replacement_from(
                    at.next().after_read(),
                    parts,
                    literal.push(10),
                    delimiter,
                ),
                Ok(None) => fail(at.next().after_read(), "unterminated `s' command"@),
                Err(e) => fail_with(at.next().after_read(), e),
            }
        } else {
            let b = text[pos + 1];
            let behind = at.at_pos(pos + 2);
            if is_digit(b) {
                replacement_from(
                    behind,
                    flushed(parts, literal).push(reference_part(b)),
                    Seq::empty(),
                    delimiter,
                )
            } else if b == '\\' as u8 || b == '&' as u8 {
                replacement_from(behind, parts, literal.push(b), delimiter)
            } else if case_of(b) is Some {
                replacement_from(
                    behind,
                    flushed(parts, literal).push(PartView::Case(case_of(b)->0)),
                    Seq::empty(),
                    delimiter,
                )
            } else if b == delimiter {
                replacement_from(behind, parts, literal.push(b), delimiter)
            } else {
                match escape_at(text, pos + 1) {
                    Some((d, end)) => if pos < end <= text.len() {
                        replacement_from(at.at_pos(end), parts, literal.push(d), delimiter)
                    } else {
                        arbitrary()
                    },
                    None => replacement_from(behind, parts, literal + escaped(b), delimiter),
                }
            }
        }
    } else if at.char() == '&' {
        replacement_from(
            at.next(),
            flushed(parts, literal).push(PartView::WholeMatch),
            Seq::empty(),
            delimiter,
        )
    } else if at.byte() == 10 {
        fail(at, "unescaped newline inside substitute replacement"@)
    } else if at.byte() == delimiter {
        done(at.next(), template_of(flushed(parts, literal)))
    } else {
        replacement_from(at.next(), parts, literal.push(at.byte()), delimiter)
    }
}

/// What a replacement gives at its opening delimiter. The place reached is behind the closing
/// one.
#[verifier::opaque]
pub open spec fn replacement_at(at: Cursor) -> Outcome<TemplateView> {
    replacement_from(at.next(), Seq::empty(), Seq::empty(), at.byte())
}

/// Whether the part is what a replacement can hold at all: literal text is not empty, and
/// groups are numbered from 1 to 9.
pub open spec fn part_sound(part: PartView) -> bool {
    match part {
        PartView::Literal(bytes) => bytes.len() > 0,
        PartView::Group(n) => 1 <= n <= 9,
        _ => true,
    }
}

/// Whether the parts are those of a replacement: each is sound, and no literal text comes right
/// behind other literal text.
pub open spec fn parts_sound(parts: Seq<PartView>) -> bool {
    &&& forall|k: int| 0 <= k < parts.len() ==> part_sound(#[trigger] parts[k])
    &&& forall|j: int, k: int|
        0 <= j < parts.len() && 0 <= k < parts.len() && k == j + 1 && #[trigger] parts[j] is Literal
            ==> !(#[trigger] parts[k] is Literal)
}

/// Whether literal text can come behind the parts.
spec fn parts_open(parts: Seq<PartView>) -> bool {
    parts_sound(parts) && (parts.len() > 0 ==> !(parts.last() is Literal))
}

/// Parts that are not literal text can always come next.
proof fn lemma_part_pushed(parts: Seq<PartView>, literal: Seq<u8>, part: PartView)
    requires
        parts_open(parts),
        part_sound(part),
        !(part is Literal),
    ensures
        parts_sound(flushed(parts, literal)),
        parts_open(flushed(parts, literal).push(part)),
{
}

/// Sound parts refer to groups up to 9.
proof fn lemma_groups_small(parts: Seq<PartView>)
    requires
        forall|k: int| 0 <= k < parts.len() ==> part_sound(#[trigger] parts[k]),
    ensures
        max_group(parts) <= 9,
    decreases parts.len(),
{
    if parts.len() > 0 {
        let before = parts.drop_last();
        assert forall|k: int| 0 <= k < before.len() implies part_sound(#[trigger] before[k]) by {
            assert(part_sound(parts[k]));
        }
        lemma_groups_small(before);
        assert(part_sound(parts[parts.len() - 1]));
    }
}

/// What a replacement gives from some place on is sound if what came before is.
proof fn lemma_replacement_sound(
    at: Cursor,
    parts: Seq<PartView>,
    literal: Seq<u8>,
    delimiter: u8,
)
    requires
        at.line.pos >= 0,
        parts_open(parts),
    ensures
        replacement_from(at, parts, literal, delimiter).result matches Ok(template)
            ==> parts_sound(template.parts) && template == template_of(template.parts),
    decreases at.script.rest.lines.len(), at.line.text.len() - at.line.pos,
{
    let text = at.line.text;
    let pos = at.line.pos;
    if at.eol() {
        if at.read() matches Ok(Some(_)) {
            lemma_replacement_sound(at.after_read(), parts, literal, delimiter);
        }
    } else if at.char() == '\\' {
        if pos + 1 >= text.len() {
            if at.next().read() matches Ok(Some(_)) {
                lemma_replacement_sound(at.next().after_read(), parts, literal.push(10), delimiter);
            }
        } else {
            let b = text[pos + 1];
            let behind = at.at_pos(pos + 2);
            if is_digit(b) {
                let part = reference_part(b);
                lemma_part_pushed(parts, literal, part);
                lemma_replacement_sound(
                    behind,
                    flushed(parts, literal).push(part),
                    Seq::empty(),
                    delimiter,
                );
            } else if b == '\\' as u8 || b == '&' as u8 {
                lemma_replacement_sound(behind, parts, literal.push(b), delimiter);
            } else if case_of(b) is Some {
                let part = PartView::Case(case_of(b)->0);
                lemma_part_pushed(parts, literal, part);
                lemma_replacement_sound(
                    behind,
                    flushed(parts, literal).push(part),
                    Seq::empty(),
                    delimiter,
                );
            } else if b == delimiter {
                lemma_replacement_sound(behind, parts, literal.push(b), delimiter);
            } else {
                lemma_escape_end(text, pos + 1);
                match escape_at(text, pos + 1) {
                    Some((d, end)) => {
                        lemma_replacement_sound(at.at_pos(end), parts, literal.push(d), delimiter);
                    },
                    None => {
                        lemma_replacement_sound(behind, parts, literal + escaped(b), delimiter);
                    },
                }
            }
        }
    } else if at.char() == '&' {
        lemma_part_pushed(parts, literal, PartView::WholeMatch);
        lemma_replacement_sound(
            at.next(),
            flushed(parts, literal).push(PartView::WholeMatch),
            Seq::empty(),
            delimiter,
        );
    } else if at.byte() == 10 {
    } else if at.byte() == delimiter {
        lemma_part_pushed(parts, literal, PartView::WholeMatch);
    } else {
        lemma_replacement_sound(at.next(), parts, literal.push(at.byte()), delimiter);
    }
}

/// A replacement holds no empty literal text, nor any right behind other, and refers to groups
/// from 1 to 9. The largest of their numbers is kept with it.
pub proof fn law_replacement_is_sound(at: Cursor)
    requires
        at.line.pos >= 0,
    ensures
        replacement_at(at).result matches Ok(template) ==> {
            &&& parts_sound(template.parts)
            &&& template == template_of(template.parts)
            &&& template.max_group_number <= 9
        },
{
    reveal(replacement_at);
    lemma_replacement_sound(at.next(), Seq::empty(), Seq::empty(), at.byte());
    if let Ok(template) = replacement_at(at).result {
        lemma_groups_small(template.parts);
    }
}

/// Whether the byte stands for itself in a replacement.
pub open spec fn is_plain(b: u8, delimiter: u8) -> bool {
    b != '\\' as u8 && b != '&' as u8 && b != 10 && b != delimiter
}

/// A replacement of bytes that stand for themselves is their text: all of it in one part, or no
/// part if there is none.
pub proof fn law_plain_replacement_is_literal(at: Cursor, end: int)
    requires
        0 <= at.line.pos < end < at.line.text.len(),
        at.line.text[end] == at.byte(),
        at.byte() != '\\' as u8 && at.byte() != '&' as u8 && at.byte() != 10,
        forall|i: int|
            at.line.pos < i < end ==> is_plain(#[trigger] at.line.text[i], at.byte()),
    ensures
        replacement_at(at) == done(
            at.at_pos(end + 1),
            template_of(flushed(Seq::empty(), at.line.text.subrange(at.line.pos + 1, end))),
        ),
{
    reveal(replacement_at);
    let text = at.line.text;
    lemma_plain_from(at.next(), Seq::empty(), end, at.byte());
    assert(Seq::<u8>::empty() + text.subrange(at.line.pos + 1, end) =~= text.subrange(
        at.line.pos + 1,
        end,
    ));
    assert(at.next().at_pos(end + 1) == at.at_pos(end + 1));
}

/// The same from a position on, when `literal` was given before.
proof fn lemma_plain_from(at: Cursor, literal: Seq<u8>, end: int, delimiter: u8)
    requires
        0 <= at.line.pos <= end < at.line.text.len(),
        at.line.text[end] == delimiter,
        delimiter != '\\' as u8 && delimiter != '&' as u8 && delimiter != 10,
        forall|i: int| at.line.pos <= i < end ==> is_plain(#[trigger] at.line.text[i], delimiter),
    ensures
        replacement_from(at, Seq::empty(), literal, delimiter) == done(
            at.at_pos(end + 1),
            template_of(
                flushed(Seq::empty(), literal + at.line.text.subrange(at.line.pos, end)),
            ),
        ),
    decreases end - at.line.pos,
{
    let text = at.line.text;
    let pos = at.line.pos;
    if pos < end {
        assert(is_plain(text[pos], delimiter));
        lemma_plain_from(at.next(), literal.push(text[pos]), end, delimiter);
        assert(literal.push(text[pos]) + text.subrange(pos + 1, end) =~= literal + text.subrange(
            pos,
            end,
        ));
        assert(at.next().at_pos(end + 1) == at.at_pos(end + 1));
    } else {
        assert(literal + text.subrange(pos, end) =~= literal);
        assert(at.next() == at.at_pos(end + 1));
    }
}

/// The text from `pos` on, with `\0` for every `&`.
pub open spec fn respelled(text: Seq<u8>, pos: int) -> Seq<u8>
    decreases text.len() - pos,
{
    if pos < 0 || pos >= text.len() {
        Seq::empty()
    } else if text[pos] == '&' as u8 {
        seq!['\\' as u8, '0' as u8] + respelled(text, pos + 1)
    } else {
        seq![text[pos]] + respelled(text, pos + 1)
    }
}

/// The position behind the escape sequence whose backslash is at `pos`.
pub open spec fn escape_end(text: Seq<u8>, pos: int, delimiter: u8) -> int {
    let b = text[pos + 1];
    if is_digit(b) || b == '\\' as u8 || b == '&' as u8 || case_of(b) is Some || b == delimiter {
        pos + 2
    } else {
        match escape_at(text, pos + 1) {
            Some((_, end)) => end,
            None => pos + 2,
        }
    }
}

/// Whether from `pos` on no `&` belongs to an escape sequence.
pub open spec fn no_escaped_ampersand(text: Seq<u8>, pos: int, delimiter: u8) -> bool
    decreases text.len() - pos,
{
    if pos < 0 || pos >= text.len() {
        true
    } else if text[pos] == '\\' as u8 && pos + 1 < text.len() {
        let end = escape_end(text, pos, delimiter);
        &&& forall|i: int| pos < i < end ==> #[trigger] text[i] != '&' as u8
        &&& pos < end <= text.len() && no_escaped_ampersand(text, end, delimiter)
    } else {
        no_escaped_ampersand(text, pos + 1, delimiter)
    }
}

/// Whether both replacements have the same parts, or both are in error.
pub open spec fn same_replacement(
    a: Result<TemplateView, ErrorView>,
    b: Result<TemplateView, ErrorView>,
) -> bool {
    match (a, b) {
        (Ok(s), Ok(t)) => s == t,
        (Err(_), Err(_)) => true,
        _ => false,
    }
}

/// `&` and `\0` stand for the same part: a replacement that has the one in place of the other
/// has the same parts, or is in error just as well.
pub proof fn law_ampersand_is_group_zero(at: Cursor)
    requires
        0 <= at.line.pos < at.line.text.len(),
        no_escaped_ampersand(at.line.text, at.line.pos + 1, at.byte()),
    ensures
        ({
            let text = at.line.text;
            let pos = at.line.pos;
            let other = Cursor {
                line: LineView { text: text.take(pos + 1) + respelled(text, pos + 1), pos },
                ..at
            };
            same_replacement(replacement_at(at).result, replacement_at(other).result)
        }),
{
    reveal(replacement_at);
    let text = at.line.text;
    let pos = at.line.pos;
    let other = Cursor {
        line: LineView { text: text.take(pos + 1) + respelled(text, pos + 1), pos },
        ..at
    };
    assert(other.byte() == at.byte());
    assert(other.line.text.skip(pos + 1) =~= respelled(text, pos + 1));
    lemma_respelled(at.next(), other.next(), Seq::empty(), Seq::empty(), at.byte());
}

/// What follows is spelled alike, up to the first `&`.
proof fn lemma_respelled_step(a: Seq<u8>, i: int, b: Seq<u8>, j: int)
    requires
        0 <= i < a.len(),
        0 <= j <= b.len(),
        b.skip(j) == respelled(a, i),
    ensures
        j < b.len(),
        a[i] != '&' as u8 ==> b[j] == a[i] && b.skip(j + 1) == respelled(a, i + 1),
        a[i] == '&' as u8 ==> {
            &&& j + 1 < b.len()
            &&& b[j] == '\\' as u8
            &&& b[j + 1] == '0' as u8
            &&& b.skip(j + 2) == respelled(a, i + 1)
        },
{
    let rest = b.skip(j);
    assert(rest.len() == b.len() - j);
    assert(rest[0] == b[j]);
    if a[i] == '&' as u8 {
        assert(rest[1] == b[j + 1]);
        assert(b.skip(j + 2) =~= rest.skip(2));
        assert(rest.skip(2) =~= respelled(a, i + 1));
    } else {
        assert(b.skip(j + 1) =~= rest.skip(1));
        assert(rest.skip(1) =~= respelled(a, i + 1));
    }
}

/// Numbers in escape sequences are spelled alike.
proof fn lemma_respelled_digits(
    a: Seq<u8>,
    i: int,
    b: Seq<u8>,
    j: int,
    base: int,
    most: nat,
)
    requires
        0 <= i <= a.len(),
        0 <= j <= b.len(),
        b.skip(j) == respelled(a, i),
        base <= 16,
    ensures
        ({
            let count = digits_end(a, i, base, most) - i;
            &&& digits_end(b, j, base, most) == j + count
            &&& 0 <= count <= a.len() - i
            &&& 0 <= count <= b.len() - j
            &&& b.skip(j + count) == respelled(a, i + count)
            &&& forall|k: int| 0 <= k < count ==> #[trigger] a[i + k] == b[j + k]
            &&& forall|k: int| i <= k < i + count ==> #[trigger] a[k] != '&' as u8
        }),
    decreases most,
{
    if i < a.len() {
        lemma_respelled_step(a, i, b, j);
        if most > 0 && digit_value(a[i]) < base {
            lemma_respelled_digits(a, i + 1, b, j + 1, base, (most - 1) as nat);
            let count = digits_end(a, i, base, most) - i;
            assert forall|k: int| 0 <= k < count implies #[trigger] a[i + k] == b[j + k] by {
                if k > 0 {
                    assert(a[(i + 1) + (k - 1)] == b[(j + 1) + (k - 1)]);
                }
            }
        }
    } else {
        assert(b.skip(j).len() == 0);
    }
}

/// Digits that are the same make the same number.
proof fn lemma_same_number(a: Seq<u8>, i: int, b: Seq<u8>, j: int, count: int, base: int)
    requires
        forall|k: int| 0 <= k < count ==> #[trigger] a[i + k] == b[j + k],
    ensures
        digits_number(a, i, i + count, base) == digits_number(b, j, j + count, base),
    decreases count,
{
    if count > 0 {
        lemma_same_number(a, i, b, j, count - 1, base);
        assert(a[i + (count - 1)] == b[j + (count - 1)]);
    }
}

/// Escape sequences without `&` are spelled alike.
proof fn lemma_respelled_escape(a: Seq<u8>, i: int, b: Seq<u8>, j: int)
    requires
        0 <= i < a.len(),
        0 <= j <= b.len(),
        b.skip(j) == respelled(a, i),
        a[i] != '&' as u8,
        escape_at(a, i) matches Some((_, end)) ==> forall|k: int|
            i <= k < end ==> #[trigger] a[k] != '&' as u8,
    ensures
        j < b.len(),
        b[j] == a[i],
        match (escape_at(a, i), escape_at(b, j)) {
            (Some((c, e)), Some((d, f))) => {
                &&& c == d
                &&& f - j == e - i
                &&& i < e <= a.len()
                &&& j < f <= b.len()
                &&& b.skip(f) == respelled(a, e)
            },
            (None, None) => true,
            _ => false,
        },
{
    lemma_respelled_step(a, i, b, j);
    lemma_escape_end(a, i);
    lemma_respelled_digits(a, i + 1, b, j + 1, 10, 3);
    lemma_respelled_digits(a, i + 1, b, j + 1, 8, 3);
    lemma_respelled_digits(a, i + 1, b, j + 1, 16, 2);
    lemma_same_number(a, i + 1, b, j + 1, digits_end(a, i + 1, 10, 3) - (i + 1), 10);
    lemma_same_number(a, i + 1, b, j + 1, digits_end(a, i + 1, 8, 3) - (i + 1), 8);
    lemma_same_number(a, i + 1, b, j + 1, digits_end(a, i + 1, 16, 2) - (i + 1), 16);
    if i + 1 < a.len() {
        if a[i] as char == 'c' {
            assert(a[i + 1] != '&' as u8);
        }
        lemma_respelled_step(a, i + 1, b, j + 1);
    } else {
        assert(b.skip(j + 1).len() == 0);
    }
}

/// What a replacement gives from some place on is the same as if it were spelled with `\0`.
proof fn lemma_respelled(
    at: Cursor,
    other: Cursor,
    parts: Seq<PartView>,
    literal: Seq<u8>,
    delimiter: u8,
)
    requires
        0 <= at.line.pos <= at.line.text.len(),
        0 <= other.line.pos <= other.line.text.len(),
        other.script == at.script,
        other.line.text.skip(other.line.pos) == respelled(at.line.text, at.line.pos),
        no_escaped_ampersand(at.line.text, at.line.pos, delimiter),
    ensures
        same_replacement(
            replacement_from(at, parts, literal, delimiter).result,
            replacement_from(other, parts, literal, delimiter).result,
        ),
    decreases at.script.rest.lines.len(), at.line.text.len() - at.line.pos,
{
    let a = at.line.text;
    let i = at.line.pos;
    let b = other.line.text;
    let j = other.line.pos;
    if at.eol() {
        assert(b.skip(j).len() == 0);
        assert(other.eol());
        if at.read() matches Ok(Some(_)) {
            assert(other.after_read() == at.after_read());
        }
    } else {
        lemma_respelled_step(a, i, b, j);
        if a[i] == '&' as u8 {
            let found = flushed(parts, literal).push(PartView::WholeMatch);
            assert(reference_part('0' as u8) == PartView::WholeMatch);
            lemma_respelled(at.next(), other.at_pos(j + 2), found, Seq::empty(), delimiter);
        } else if a[i] == '\\' as u8 {
            if i + 1 >= a.len() {
                assert(b.skip(j + 1).len() == 0);
                if at.next().read() matches Ok(Some(_)) {
                    assert(other.next().after_read() == at.next().after_read());
                }
            } else {
                let c = a[i + 1];
                assert(no_escaped_ampersand(a, escape_end(a, i, delimiter), delimiter));
                lemma_escape_end(a, i + 1);
                assert(a[i + 1] != '&' as u8);
                lemma_respelled_step(a, i + 1, b, j + 1);
                let behind = at.at_pos(i + 2);
                let beyond = other.at_pos(j + 2);
                let whole = flushed(parts, literal);
                if is_digit(c) {
                    let found = whole.push(reference_part(c));
                    lemma_respelled(behind, beyond, found, Seq::empty(), delimiter);
                } else if c == '\\' as u8 {
                    lemma_respelled(behind, beyond, parts, literal.push(c), delimiter);
                } else if case_of(c) is Some {
                    let found = whole.push(PartView::Case(case_of(c)->0));
                    lemma_respelled(behind, beyond, found, Seq::empty(), delimiter);
                } else if c == delimiter {
                    lemma_respelled(behind, beyond, parts, literal.push(c), delimiter);
                } else {
                    lemma_respelled_escape(a, i + 1, b, j + 1);
                    match escape_at(a, i + 1) {
                        Some((d, end)) => {
                            let (_, stop) = escape_at(b, j + 1)->0;
                            lemma_respelled(
                                at.at_pos(end),
                                other.at_pos(stop),
                                parts,
                                literal.push(d),
                                delimiter,
                            );
                        },
                        None => {
                            lemma_respelled(
                                behind,
                                beyond,
                                parts,
                                literal + escaped(c),
                                delimiter,
                            );
                        },
                    }
                }
            }
        } else if a[i] != 10 && a[i] != delimiter {
            lemma_respelled(at.next(), other.next(), parts, literal.push(a[i]), delimiter);
        }
    }
}

/// Moves the literal text to the end of the parts, if there is any.
fn flush_literal(parts: &mut Vec<ReplacementPart>, literal: &mut Vec<u8>)
    ensures
        parts_view(final(parts)@) == flushed(parts_view(old(parts)@), old(literal)@),
        final(literal)@ == Seq::<u8>::empty(),
{
    if literal.len() > 0 {
        let mut taken: Vec<u8> = Vec::new();
        std::mem::swap(&mut taken, literal);
        parts.push(ReplacementPart::Literal(taken));
        assert(parts_view(parts@) =~= flushed(parts_view(old(parts)@), old(literal)@));
    }
    assert(literal@ =~= Seq::<u8>::empty());
}

/// Appends a part behind the literal text, if there is any.
fn push_part(parts: &mut Vec<ReplacementPart>, literal: &mut Vec<u8>, part: ReplacementPart)
    ensures
        parts_view(final(parts)@) == flushed(parts_view(old(parts)@), old(literal)@).push(part@),
        final(literal)@ == Seq::<u8>::empty(),
{
    flush_literal(parts, literal);
    let ghost before = parts@;
    parts.push(part);
    assert(parts_view(parts@) =~= parts_view(before).push(part@));
}

/// The case conversion that a backslash and the byte `b` stand for, if they stand for one.
fn case_conversion(b: u8) -> (case: Option<CaseConversion>)
    ensures
        case == case_of(b),
{
    let c = b as char;
    if c == 'U' {
        Some(CaseConversion::Upper)
    } else if c == 'L' {
        Some(CaseConversion::Lower)
    } else if c == 'u' {
        Some(CaseConversion::UpperNext)
    } else if c == 'l' {
        Some(CaseConversion::LowerNext)
    } else if c == 'E' {
        Some(CaseConversion::End)
    } else {
        None
    }
}

/// Compiles the replacement of a substitution, at whose opening delimiter the line is. An
/// escape sequence gives the same byte in either mode.
pub fn compile_replacement(
    lines: &mut ScriptLineProvider,
    line: &mut ScriptCharProvider,
    _character_mode: CharacterMode,
) -> (result: SedResult<ReplacementTemplate>)
    requires
        old(line)@.pos < old(line)@.text.len(),
    ensures
        viewed(result) == replacement_at(cursor(old(lines), old(line))).result,
        cursor(final(lines), final(line)) == replacement_at(cursor(old(lines), old(line))).at,
        ahead(cursor(old(lines), old(line)), cursor(final(lines), final(line))),
{
    reveal(replacement_at);
    let ghost start = cursor(lines, line);
    let ghost spec = replacement_at(start);
    let mut parts: Vec<ReplacementPart> = Vec::new();
    let mut literal: Vec<u8> = Vec::new();
    let delimiter = line.current_byte();
    line.advance();
    assert(parts_view(parts@) =~= Seq::empty());
    loop
        invariant
            start == cursor(old(lines), old(line)),
            spec == replacement_at(start),
            spec == replacement_from(
                cursor(lines, line),
                parts_view(parts@),
                literal@,
                delimiter,
            ),
            ahead(start, cursor(lines, line)),
            0 <= line@.pos,
        decreases lines@.rest.lines.len(), line@.text.len() - line@.pos,
    {
        let ghost here = cursor(lines, line);
        let ghost before = literal@;
        if line.eol() {
            // Fetch next line for continued replacement string
            match advance_line(lines, line) {
                Ok(true) => (),
                Ok(false) => {
                    return compilation_error(lines, line, "unterminated `s' command");
                },
                Err(e) => {
                    return Err(e);
                },
            }
            continue ;
        }
        let c = line.current();
        let b = line.current_byte();
        if c == '\\' {
            line.advance();
            if line.eol() {
                match advance_line(lines, line) {
                    Ok(true) => {
                        literal.push(10);
                    },
                    Ok(false) => {
                        return compilation_error(lines, line, "unterminated `s' command");
                    },
                    Err(e) => {
                        return Err(e);
                    },
                }
                continue ;
            }
            let d = line.current_byte();
            if '0' as u8 <= d && d <= '9' as u8 {
                // \0 - \9
                let part = if d == '0' as u8 {
                    ReplacementPart::WholeMatch
                } else {
                    ReplacementPart::Group((d - '0' as u8) as u32)
                };
                push_part(&mut parts, &mut literal, part);
                line.advance();
            } else if d == '\\' as u8 || d == '&' as u8 {
                // Literal \ and &
                literal.push(d);
                line.advance();
            } else if let Some(case) = case_conversion(d) {
                // GNU case conversion
                push_part(&mut parts, &mut literal, ReplacementPart::Case(case));
                line.advance();
            } else if d == delimiter {
                // Literal delimiter
                literal.push(d);
                line.advance();
            } else {
                // Other escape sequences
                proof {
                    lemma_escape_end(here.line.text, here.line.pos + 1);
                }
                match parse_char_escape(line) {
                    Some(decoded) => {
                        literal.push(decoded);
                    },
                    None => {
                        literal.push('\\' as u8);
                        literal.push(d);
                        line.advance();
                        assert(literal@ =~= before + escaped(d));
                    },
                }
            }
        } else if c == '&' {
            push_part(&mut parts, &mut literal, ReplacementPart::WholeMatch);
            line.advance();
        } else if b == 10 {
            return compilation_error(
                lines,
                line,
                "unescaped newline inside substitute replacement",
            );
        } else if b == delimiter {
            line.advance();
            flush_literal(&mut parts, &mut literal);
            return Ok(ReplacementTemplate::new(parts));
        } else {
            literal.push(b);
            line.advance();
        }
    }
}

} // verus!
