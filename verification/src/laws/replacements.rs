//! Replacements: how their parts are written.

use crate::command::{CaseConversion, PartView, TemplateView, max_group, template_of};
use crate::compiler::cursor::{Cursor, done};
use crate::compiler::replacement::{flushed, replacement_at, replacement_from};
use crate::delimited_parser::escape_at;
use crate::error_handling::ErrorView;
use crate::laws::writing::{end_of, lemma_pieces, stands_at};
use vstd::prelude::*;

verus! {

/// The letter that a case conversion is written with.
pub open spec fn case_letter(case: CaseConversion) -> u8 {
    match case {
        CaseConversion::Upper => 85,
        CaseConversion::Lower => 76,
        CaseConversion::UpperNext => 117,
        CaseConversion::LowerNext => 108,
        CaseConversion::End => 69,
    }
}

/// How a byte is written that is to stand for itself.
pub open spec fn written_byte(b: u8, delimiter: u8) -> Seq<u8> {
    if b == 10 {
        seq![92u8, 110]
    } else if b == 92 || b == 38 || b == delimiter {
        seq![92u8, b]
    } else {
        seq![b]
    }
}

/// How literal text is written.
pub open spec fn written_text(bytes: Seq<u8>, delimiter: u8) -> Seq<u8>
    decreases bytes.len(),
{
    if bytes.len() == 0 {
        Seq::empty()
    } else {
        written_byte(bytes[0], delimiter) + written_text(bytes.skip(1), delimiter)
    }
}

/// How a part is written.
pub open spec fn written_part(part: PartView, delimiter: u8) -> Seq<u8> {
    match part {
        PartView::Literal(bytes) => written_text(bytes, delimiter),
        PartView::WholeMatch => seq![38u8],
        PartView::Group(n) => seq![92u8, (48 + n) as u8],
        PartView::Case(case) => seq![92u8, case_letter(case)],
    }
}

/// How parts are written.
pub open spec fn written_parts(parts: Seq<PartView>, delimiter: u8) -> Seq<u8>
    decreases parts.len(),
{
    if parts.len() == 0 {
        Seq::empty()
    } else {
        written_part(parts[0], delimiter) + written_parts(parts.skip(1), delimiter)
    }
}

/// Whether the parts can make up a replacement: literal text is not empty and stands in one
/// part, and groups are numbered from 1 to 9.
pub open spec fn can_be_parts(parts: Seq<PartView>) -> bool {
    &&& forall|k: int|
        0 <= k < parts.len() ==> match #[trigger] parts[k] {
            PartView::Literal(bytes) => bytes.len() > 0,
            PartView::Group(n) => 1 <= n <= 9,
            _ => true,
        }
    &&& forall|j: int, k: int|
        0 <= j < parts.len() && 0 <= k < parts.len() && k == j + 1 ==> !(
        #[trigger] parts[j] is Literal && #[trigger] parts[k] is Literal)
}

/// Whether the byte delimits the parts of a command without being a letter, a digit, or a byte
/// that has a meaning of its own.
pub open spec fn is_delimiter(b: u8) -> bool {
    &&& !(48 <= b <= 57) && !(65 <= b <= 90) && !(97 <= b <= 122)
    &&& b != 92 && b != 38 && b != 10 && b != 0
}

/// Literal text is read as it was written.
proof fn lemma_text_read(
    at: Cursor,
    parts: Seq<PartView>,
    literal: Seq<u8>,
    bytes: Seq<u8>,
    delimiter: u8,
)
    requires
        is_delimiter(delimiter),
        stands_at(at.line.text, at.line.pos, written_text(bytes, delimiter)),
    ensures
        replacement_from(at, parts, literal, delimiter) == replacement_from(
            at.at_pos(at.line.pos + written_text(bytes, delimiter).len()),
            parts,
            literal + bytes,
            delimiter,
        ),
    decreases bytes.len(),
{
    let text = at.line.text;
    let pos = at.line.pos;
    if bytes.len() == 0 {
        assert(literal + bytes =~= literal);
        assert(at.at_pos(pos) == at);
    } else {
        let b = bytes[0];
        let unit = written_byte(b, delimiter);
        let later = written_text(bytes.skip(1), delimiter);
        lemma_pieces(text, pos, unit, later);
        assert(text[pos] == unit[0]);
        if unit.len() == 2 {
            assert(text[pos + 1] == unit[1]);
        }
        let behind = at.at_pos(pos + unit.len());
        assert(replacement_from(at, parts, literal, delimiter) == replacement_from(
            behind,
            parts,
            literal.push(b),
            delimiter,
        ));
        lemma_text_read(behind, parts, literal.push(b), bytes.skip(1), delimiter);
        assert(literal.push(b) + bytes.skip(1) =~= literal + bytes);
        assert(behind.at_pos(pos + unit.len() + later.len()) == at.at_pos(
            pos + written_text(bytes, delimiter).len(),
        ));
    }
}

/// Parts are read as they were written, when `read` and then `literal` were read before.
proof fn lemma_parts_read(
    at: Cursor,
    read: Seq<PartView>,
    literal: Seq<u8>,
    parts: Seq<PartView>,
    delimiter: u8,
)
    requires
        is_delimiter(delimiter),
        can_be_parts(parts),
        literal.len() > 0 && parts.len() > 0 ==> !(parts[0] is Literal),
        stands_at(at.line.text, at.line.pos, written_parts(parts, delimiter) + seq![delimiter]),
    ensures
        replacement_from(at, read, literal, delimiter) == done(
            at.at_pos(at.line.pos + written_parts(parts, delimiter).len() + 1),
            template_of(flushed(read, literal) + parts),
        ),
    decreases parts.len(),
{
    let text = at.line.text;
    let pos = at.line.pos;
    let whole = flushed(read, literal);
    if parts.len() == 0 {
        lemma_pieces(text, pos, Seq::empty(), seq![delimiter]);
        assert(written_parts(parts, delimiter) + seq![delimiter] =~= seq![delimiter]);
        assert(text[pos] == seq![delimiter][0]);
        assert(whole + parts =~= whole);
        assert(at.next() == at.at_pos(pos + 1));
    } else {
        let part = parts[0];
        let later = parts.skip(1);
        let unit = written_part(part, delimiter);
        let rest = written_parts(later, delimiter) + seq![delimiter];
        assert(written_parts(parts, delimiter) + seq![delimiter] =~= unit + rest);
        lemma_pieces(text, pos, unit, rest);
        assert forall|k: int| 0 <= k < later.len() implies match #[trigger] later[k] {
            PartView::Literal(bytes) => bytes.len() > 0,
            PartView::Group(n) => 1 <= n <= 9,
            _ => true,
        } by {
            let same = parts[k + 1];
        }
        assert forall|j: int, k: int|
            0 <= j < later.len() && 0 <= k < later.len() && k == j + 1 implies !(
        #[trigger] later[j] is Literal && #[trigger] later[k] is Literal) by {
            assert(!(parts[j + 1] is Literal && parts[k + 1] is Literal));
        }
        let behind = at.at_pos(pos + unit.len());
        match part {
            PartView::Literal(bytes) => {
                assert(literal.len() == 0);
                lemma_text_read(at, read, literal, bytes, delimiter);
                assert(literal + bytes =~= bytes);
                if later.len() > 0 {
                    assert(!(parts[0] is Literal && parts[1] is Literal));
                }
                lemma_parts_read(behind, read, bytes, later, delimiter);
                assert(flushed(read, bytes) + later =~= whole + parts);
            },
            _ => {
                assert(text[pos] == unit[0]);
                if unit.len() == 2 {
                    assert(text[pos + 1] == unit[1]);
                }
                lemma_parts_read(behind, whole.push(part), Seq::empty(), later, delimiter);
                assert(replacement_from(at, read, literal, delimiter) == replacement_from(
                    behind,
                    whole.push(part),
                    Seq::empty(),
                    delimiter,
                ));
                assert(whole.push(part) + later =~= whole + parts);
            },
        }
        assert(behind.at_pos(pos + unit.len() + written_parts(later, delimiter).len() + 1)
            == at.at_pos(pos + written_parts(parts, delimiter).len() + 1));
    }
}

/// A replacement has exactly the parts that are written in it: `&` for the whole match, a
/// backslash and a digit for a group, a backslash and a letter for a change of case, and any
/// other text for itself.
pub proof fn law_written_parts_are_read(at: Cursor, parts: Seq<PartView>, delimiter: u8)
    requires
        is_delimiter(delimiter),
        can_be_parts(parts),
        stands_at(
            at.line.text,
            at.line.pos,
            seq![delimiter] + (written_parts(parts, delimiter) + seq![delimiter]),
        ),
    ensures
        replacement_at(at).result is Ok,
        replacement_at(at).result->Ok_0.parts == parts,
        replacement_at(at).at == at.at_pos(
            at.line.pos + written_parts(parts, delimiter).len() + 2,
        ),
{
    reveal(replacement_at);
    let text = at.line.text;
    let rest = written_parts(parts, delimiter) + seq![delimiter];
    lemma_pieces(text, at.line.pos, seq![delimiter], rest);
    assert(text[at.line.pos] == seq![delimiter][0]);
    lemma_parts_read(at.next(), Seq::empty(), Seq::empty(), parts, delimiter);
    assert(flushed(Seq::empty(), Seq::empty()) + parts =~= parts);
    assert(at.next().at_pos(at.line.pos + 1 + written_parts(parts, delimiter).len() + 1)
        == at.at_pos(at.line.pos + written_parts(parts, delimiter).len() + 2));
}

/// A backslash and one of the letters of a change of case, alone between delimiters, is that
/// change of case and nothing else.
pub proof fn law_case_letter_alone(at: Cursor, case: CaseConversion, delimiter: u8)
    requires
        is_delimiter(delimiter),
        stands_at(
            at.line.text,
            at.line.pos,
            seq![delimiter, 92u8, case_letter(case), delimiter],
        ),
    ensures
        replacement_at(at).result is Ok,
        replacement_at(at).result->Ok_0.parts == seq![PartView::Case(case)],
        replacement_at(at).at == at.at_pos(at.line.pos + 4),
{
    let parts = seq![PartView::Case(case)];
    assert(parts.skip(1) =~= Seq::empty());
    assert(written_parts(parts.skip(1), delimiter) =~= Seq::empty());
    assert(written_parts(parts, delimiter) =~= seq![92u8, case_letter(case)]);
    assert(seq![delimiter] + (written_parts(parts, delimiter) + seq![delimiter]) =~= seq![
        delimiter,
        92u8,
        case_letter(case),
        delimiter,
    ]);
    law_written_parts_are_read(at, parts, delimiter);
}

/// The number that goes with a replacement is that of the largest group in it, or 0 if there is
/// none.
pub proof fn law_largest_group_is_kept(parts: Seq<PartView>)
    ensures
        template_of(parts).parts == parts,
        forall|k: int|
            0 <= k < parts.len() ==> (#[trigger] parts[k] matches PartView::Group(n) ==> n
                <= template_of(parts).max_group_number),
        template_of(parts).max_group_number > 0 ==> exists|k: int|
            0 <= k < parts.len() && #[trigger] parts[k] == PartView::Group(
                template_of(parts).max_group_number as u32,
            ),
    decreases parts.len(),
{
    if parts.len() > 0 {
        let before = parts.drop_last();
        law_largest_group_is_kept(before);
        assert forall|k: int| 0 <= k < parts.len() implies (
        #[trigger] parts[k] matches PartView::Group(n) ==> n <= template_of(
            parts,
        ).max_group_number) by {
            if k < before.len() {
                assert(before[k] == parts[k]);
            }
        }
        if template_of(parts).max_group_number > 0 {
            if max_group(parts) == max_group(before) {
                let k = choose|k: int|
                    0 <= k < before.len() && #[trigger] before[k] == PartView::Group(
                        template_of(before).max_group_number as u32,
                    );
                assert(parts[k] == before[k]);
            } else {
                assert(parts[parts.len() - 1] == PartView::Group(max_group(parts)));
            }
        }
    }
}

/// What is left of a replacement that ends at the next byte.
proof fn lemma_replacement_ends(at: Cursor, parts: Seq<PartView>, literal: Seq<u8>, delimiter: u8)
    requires
        is_delimiter(delimiter),
        0 <= at.line.pos < at.line.text.len(),
        at.line.text[at.line.pos] == delimiter,
    ensures
        replacement_from(at, parts, literal, delimiter) == done(
            at.at_pos(at.line.pos + 1),
            template_of(flushed(parts, literal)),
        ),
{
    assert(at.next() == at.at_pos(at.line.pos + 1));
}

/// An escape sequence that names a byte gives that byte, and one that names none stays as it
/// is, if neither the replacement nor the delimiter gives it another meaning.
pub proof fn law_escapes_in_replacement(at: Cursor, end: int, delimiter: u8)
    requires
        is_delimiter(delimiter),
        0 <= at.line.pos,
        at.line.pos + 3 < at.line.text.len(),
        at.line.text[at.line.pos] == delimiter,
        at.line.text[at.line.pos + 1] == 92,
        ({
            let c = at.line.text[at.line.pos + 2];
            &&& !(48 <= c <= 57) && c != 92 && c != 38 && c != delimiter
            &&& c != 85 && c != 76 && c != 117 && c != 108 && c != 69
        }),
        at.line.pos + 2 < end < at.line.text.len(),
        at.line.text[end] == delimiter,
        match escape_at(at.line.text, at.line.pos + 2) {
            Some((_, stop)) => end == stop,
            None => end == at.line.pos + 3,
        },
    ensures
        replacement_at(at).result is Ok,
        replacement_at(at).result->Ok_0.parts == seq![
            PartView::Literal(
                match escape_at(at.line.text, at.line.pos + 2) {
                    Some((b, _)) => seq![b],
                    None => seq![92u8, at.line.text[at.line.pos + 2]],
                },
            ),
        ],
{
    reveal(replacement_at);
    let here = at.at_pos(end);
    let literal: Seq<u8> = match escape_at(at.line.text, at.line.pos + 2) {
        Some((b, _)) => seq![b],
        None => seq![92u8, at.line.text[at.line.pos + 2]],
    };
    lemma_replacement_ends(here, Seq::empty(), literal, delimiter);
    assert(Seq::<u8>::empty().push(literal[0]) =~= seq![literal[0]]);
    assert(Seq::<u8>::empty() + seq![92u8, at.line.text[at.line.pos + 2]] =~= seq![
        92u8,
        at.line.text[at.line.pos + 2],
    ]);
    assert(replacement_from(at.next(), Seq::empty(), Seq::empty(), delimiter)
        == replacement_from(here, Seq::empty(), literal, delimiter));
    assert(flushed(Seq::empty(), literal) =~= seq![PartView::Literal(literal)]);
}

/// A replacement goes on in the next line: behind a backslash the line end is part of it, else
/// it is not.
pub proof fn law_replacement_over_lines(
    at: Cursor,
    first: Seq<u8>,
    second: Seq<u8>,
    escaped: bool,
    delimiter: u8,
)
    requires
        is_delimiter(delimiter),
        first.len() > 0,
        second.len() > 0,
        stands_at(
            at.line.text,
            at.line.pos,
            seq![delimiter] + written_text(first, delimiter) + if escaped {
                seq![92u8]
            } else {
                Seq::empty()
            },
        ),
        at.line.text.len() == at.line.pos + 1 + written_text(first, delimiter).len() + if escaped {
            1int
        } else {
            0
        },
        at.script.rest.lines.len() > 0,
        at.script.rest.lines[0].text == written_text(second, delimiter) + seq![delimiter],
    ensures
        replacement_at(at).result is Ok,
        replacement_at(at).result->Ok_0.parts == seq![
            PartView::Literal(
                if escaped {
                    first + seq![10u8] + second
                } else {
                    first + second
                },
            ),
        ],
{
    reveal(replacement_at);
    let text = at.line.text;
    let pos = at.line.pos;
    let body = written_text(first, delimiter);
    let tail: Seq<u8> = if escaped {
        seq![92u8]
    } else {
        Seq::empty()
    };
    assert(seq![delimiter] + body + tail =~= seq![delimiter] + (body + tail));
    lemma_pieces(text, pos, seq![delimiter], body + tail);
    lemma_pieces(text, pos + 1, body, tail);
    assert(text[pos] == seq![delimiter][0]);
    let none = Seq::<PartView>::empty();
    lemma_text_read(at.next(), none, Seq::empty(), first, delimiter);
    assert(Seq::<u8>::empty() + first =~= first);
    let stop = at.at_pos(pos + 1 + body.len());
    let read = if escaped {
        first.push(10)
    } else {
        first
    };
    if escaped {
        assert(text[pos + 1 + body.len()] == tail[0]);
    }
    let next = if escaped {
        stop.next().after_read()
    } else {
        stop.after_read()
    };
    let line = written_text(second, delimiter) + seq![delimiter];
    assert(next.line.text == line && next.line.pos == 0);
    assert(replacement_from(stop, none, first, delimiter) == replacement_from(
        next,
        none,
        read,
        delimiter,
    ));
    assert forall|j: int| 0 <= j < written_text(second, delimiter).len() implies #[trigger] line[j]
        == written_text(second, delimiter)[j] by {}
    lemma_text_read(next, none, read, second, delimiter);
    let last = next.at_pos(written_text(second, delimiter).len() as int);
    lemma_replacement_ends(last, none, read + second, delimiter);
    assert(flushed(none, read + second) =~= seq![PartView::Literal(read + second)]);
    assert(first.push(10) =~= first + seq![10u8]);
}

/// The parts with the literal text behind them, if there is any, and then the given part.
pub open spec fn then_part(parts: Seq<PartView>, literal: Seq<u8>, part: PartView) -> Seq<PartView> {
    if literal.len() > 0 {
        parts + seq![PartView::Literal(literal), part]
    } else {
        parts + seq![part]
    }
}

/// Behind a backslash, a digit refers to a group, a letter that names a change of case makes
/// that change, and a backslash or an `&` stands for itself, whatever the delimiter is.
pub proof fn law_backslash_in_replacement(
    at: Cursor,
    parts: Seq<PartView>,
    literal: Seq<u8>,
    delimiter: u8,
)
    requires
        0 <= at.line.pos,
        at.line.pos + 1 < at.line.text.len(),
        at.line.text[at.line.pos] == 92,
    ensures
        ({
            let b = at.line.text[at.line.pos + 1];
            let behind = at.at_pos(at.line.pos + 2);
            let read = replacement_from(at, parts, literal, delimiter);
            let none = Seq::<u8>::empty();
            &&& b == 48 ==> read == replacement_from(
                behind,
                then_part(parts, literal, PartView::WholeMatch),
                none,
                delimiter,
            )
            &&& 49 <= b <= 57 ==> read == replacement_from(
                behind,
                then_part(parts, literal, PartView::Group((b - 48) as u32)),
                none,
                delimiter,
            )
            &&& b == 85 ==> read == replacement_from(
                behind,
                then_part(parts, literal, PartView::Case(CaseConversion::Upper)),
                none,
                delimiter,
            )
            &&& b == 76 ==> read == replacement_from(
                behind,
                then_part(parts, literal, PartView::Case(CaseConversion::Lower)),
                none,
                delimiter,
            )
            &&& b == 117 ==> read == replacement_from(
                behind,
                then_part(parts, literal, PartView::Case(CaseConversion::UpperNext)),
                none,
                delimiter,
            )
            &&& b == 108 ==> read == replacement_from(
                behind,
                then_part(parts, literal, PartView::Case(CaseConversion::LowerNext)),
                none,
                delimiter,
            )
            &&& b == 69 ==> read == replacement_from(
                behind,
                then_part(parts, literal, PartView::Case(CaseConversion::End)),
                none,
                delimiter,
            )
            &&& b == 92 || b == 38 ==> read == replacement_from(
                behind,
                parts,
                literal + seq![b],
                delimiter,
            )
        }),
{
    let b = at.line.text[at.line.pos + 1];
    assert(literal.push(b) =~= literal + seq![b]);
    let part = if b == 48 {
        PartView::WholeMatch
    } else if 49 <= b <= 57 {
        PartView::Group((b - 48) as u32)
    } else if b == 85 {
        PartView::Case(CaseConversion::Upper)
    } else if b == 76 {
        PartView::Case(CaseConversion::Lower)
    } else if b == 117 {
        PartView::Case(CaseConversion::UpperNext)
    } else if b == 108 {
        PartView::Case(CaseConversion::LowerNext)
    } else {
        PartView::Case(CaseConversion::End)
    };
    assert(flushed(parts, literal).push(part) =~= then_part(parts, literal, part));
}

/// The end of the script before the closing delimiter is an error.
pub proof fn law_replacement_must_end(at: Cursor, delimiter: u8)
    requires
        0 <= at.line.pos < at.line.text.len(),
        at.line.text[at.line.pos] == delimiter,
        forall|j: int|
            at.line.pos < j < at.line.text.len() ==> {
                let b = #[trigger] at.line.text[j];
                b != delimiter && b != 92 && b != 38 && b != 10
            },
        at.script.rest.lines.len() == 0,
        at.script.rest.failure is None,
    ensures
        replacement_at(at).result == Err::<TemplateView, ErrorView>(
            end_of(at).after_read().error("unterminated `s' command"@),
        ),
{
    reveal(replacement_at);
    lemma_runs_out(at.next(), Seq::empty(), Seq::empty(), delimiter);
}

/// The same from a position on.
proof fn lemma_runs_out(at: Cursor, parts: Seq<PartView>, literal: Seq<u8>, delimiter: u8)
    requires
        0 <= at.line.pos <= at.line.text.len(),
        forall|j: int|
            at.line.pos <= j < at.line.text.len() ==> {
                let b = #[trigger] at.line.text[j];
                b != delimiter && b != 92 && b != 38 && b != 10
            },
        at.script.rest.lines.len() == 0,
        at.script.rest.failure is None,
    ensures
        replacement_from(at, parts, literal, delimiter).result == Err::<TemplateView, ErrorView>(
            end_of(at).after_read().error("unterminated `s' command"@),
        ),
    decreases at.line.text.len() - at.line.pos,
{
    if at.eol() {
        assert(at == end_of(at));
    } else {
        let b = at.line.text[at.line.pos];
        assert(b != delimiter && b != 92 && b != 38 && b != 10);
        lemma_runs_out(at.next(), parts, literal.push(b), delimiter);
    }
}

} // verus!
