//! Numbers, and the commands that take one.

use crate::command::{ContextView, DataView};
use crate::compiler::address::{number_at, number_end};
use crate::compiler::cursor::Cursor;
use crate::compiler::sequence::command_at;
use crate::compiler::simple::number_command;
use crate::compiler::table::{CommandHandler, handle};
use crate::delimited_parser::digits_number;
use crate::laws::writing::{
    all_blank, all_decimal, end_of, gave, is_white, lemma_bare, lemma_blanks, lemma_pieces,
    plain_command, rest_is, stands_at, value_of,
};
use crate::text::decimal;
use vstd::prelude::*;

verus! {

/// Digits that stand in a line make the number that they write.
pub proof fn lemma_value(text: Seq<u8>, pos: int, digits: Seq<u8>)
    requires
        stands_at(text, pos, digits),
        all_decimal(digits),
    ensures
        digits_number(text, pos, pos + digits.len(), 10) == value_of(digits),
    decreases digits.len(),
{
    if digits.len() > 0 {
        let before = digits.drop_last();
        assert forall|j: int| pos <= j < pos + before.len() implies #[trigger] text[j]
            == before[j - pos] by {
            assert(text[j] == digits[j - pos]);
        }
        assert forall|i: int| 0 <= i < before.len() implies 48 <= #[trigger] before[i] <= 57 by {
            assert(48 <= digits[i] <= 57);
        }
        lemma_value(text, pos, before);
        let last = pos + digits.len() - 1;
        assert(text[last] == digits[digits.len() - 1]);
        assert(48 <= digits[digits.len() - 1] <= 57);
    }
}

/// Digits end at the first byte that is none.
pub proof fn lemma_digits_stop(text: Seq<u8>, pos: int, digits: Seq<u8>)
    requires
        stands_at(text, pos, digits),
        all_decimal(digits),
        pos + digits.len() < text.len() ==> !(48 <= text[pos + digits.len()] <= 57),
    ensures
        number_end(text, pos) == pos + digits.len(),
    decreases digits.len(),
{
    if digits.len() > 0 {
        assert(text[pos] == digits[0]);
        assert(48 <= digits[0] <= 57);
        let later = digits.skip(1);
        assert forall|j: int| pos + 1 <= j < pos + 1 + later.len() implies #[trigger] text[j]
            == later[j - (pos + 1)] by {
            assert(text[j] == digits[j - pos]);
        }
        assert forall|i: int| 0 <= i < later.len() implies 48 <= #[trigger] later[i] <= 57 by {
            assert(48 <= digits[i + 1] <= 57);
        }
        lemma_digits_stop(text, pos + 1, later);
    }
}

/// A numeral is read as the number that it writes, up to its end, if that number is not too
/// large; if it is, it is an error. Where there is no numeral, there is no number.
pub proof fn law_numeral_is_read(at: Cursor, digits: Seq<u8>, required: bool)
    requires
        stands_at(at.line.text, at.line.pos, digits),
        all_decimal(digits),
        at.line.pos + digits.len() < at.line.text.len() ==> !(48 <= at.line.text[at.line.pos
            + digits.len()] <= 57),
    ensures
        ({
            let number = number_at(at, required);
            &&& digits.len() > 0 && value_of(digits) <= usize::MAX ==> {
                &&& number.result is Ok
                &&& number.result->Ok_0 == Some(value_of(digits) as usize)
                &&& number.at == at.at_pos(at.line.pos + digits.len())
            }
            &&& digits.len() > 0 && value_of(digits) > usize::MAX ==> number.result is Err
            &&& digits.len() == 0 && required ==> number.result is Err
            &&& digits.len() == 0 && !required ==> {
                &&& number.result is Ok
                &&& number.result->Ok_0 is None
                &&& number.at == at
            }
        }),
{
    lemma_value(at.line.text, at.line.pos, digits);
    lemma_digits_stop(at.line.text, at.line.pos, digits);
}

/// `l`, `q` and `Q` take the number that stands behind them, after blanks if there are any. The
/// command ends with the line, behind a `;` or before a `}`, with blanks before those; anything
/// else is in error.
pub proof fn law_number_is_kept(
    at: Cursor,
    code: char,
    gap: Seq<u8>,
    digits: Seq<u8>,
    last_gap: Seq<u8>,
    context: ContextView,
    reason: Seq<char>,
)
    requires
        code == 'l' || code == 'q' || code == 'Q',
        stands_at(
            at.line.text,
            at.line.pos,
            seq![code as u8] + (gap + (digits + last_gap)),
        ),
        all_blank(gap) && all_blank(last_gap),
        all_decimal(digits),
        digits.len() > 0,
        value_of(digits) <= usize::MAX,
        ({
            let behind = at.line.pos + 1 + gap.len() + digits.len() + last_gap.len();
            behind < at.line.text.len() ==> {
                &&& !is_white(at.line.text[behind])
                &&& !(48 <= at.line.text[behind] <= 57)
            }
        }),
    ensures
        ({
            let after = command_at(at, context, reason);
            let behind = at.at_pos(
                at.line.pos + 1 + gap.len() + digits.len() + last_gap.len(),
            );
            if behind.eol() || behind.byte() == 59 || behind.byte() == 125 {
                gave(
                    after,
                    if behind.sees(';') {
                        behind.next()
                    } else {
                        behind
                    },
                    plain_command(
                        code,
                        at.location(),
                        DataView::Number(value_of(digits) as usize),
                    ),
                    context,
                )
            } else {
                after.result is Err
            }
        }),
{
    let text = at.line.text;
    let pos = at.line.pos;
    lemma_pieces(text, pos, seq![code as u8], gap + (digits + last_gap));
    lemma_pieces(text, pos + 1, gap, digits + last_gap);
    let from = pos + 1 + gap.len();
    lemma_pieces(text, from, digits, last_gap);
    assert(text[pos] == seq![code as u8][0]);
    assert(text[from] == digits[0]);
    assert(48 <= digits[0] <= 57);
    if last_gap.len() > 0 {
        assert(text[from + digits.len()] == last_gap[0]);
    }
    lemma_blanks(text, pos + 1, gap);
    lemma_blanks(text, from + digits.len(), last_gap);
    let here = at.at_pos(from);
    law_numeral_is_read(here, digits, false);
    lemma_bare(at, context, reason, CommandHandler::Number);
    reveal(handle);
    reveal(number_command);
    assert(at.next().past_spaces() == here);
}

/// Without a number, `l` takes the length that the options give, and `q` and `Q` take 0.
pub proof fn law_number_by_default(
    at: Cursor,
    code: char,
    gap: Seq<u8>,
    context: ContextView,
    reason: Seq<char>,
)
    requires
        code == 'l' || code == 'q' || code == 'Q',
        rest_is(at, seq![code as u8] + gap),
        all_blank(gap),
    ensures
        gave(
            command_at(at, context, reason),
            end_of(at),
            plain_command(
                code,
                at.location(),
                DataView::Number(
                    if code == 'l' {
                        context.options.length
                    } else {
                        0
                    },
                ),
            ),
            context,
        ),
{
    let text = at.line.text;
    let pos = at.line.pos;
    lemma_pieces(text, pos, seq![code as u8], gap);
    assert(text[pos] == seq![code as u8][0]);
    lemma_blanks(text, pos + 1, gap);
    let here = end_of(at);
    law_numeral_is_read(here, Seq::empty(), false);
    lemma_bare(at, context, reason, CommandHandler::Number);
    reveal(handle);
    reveal(number_command);
    assert(at.next().past_spaces() == here);
    assert(here.past_spaces() == here);
}

/// The characters as bytes.
pub open spec fn as_bytes(chars: Seq<char>) -> Seq<u8> {
    Seq::new(chars.len(), |i: int| chars[i] as u8)
}

/// The decimal numeral of a number consists of digits, writes that number, and does not start
/// with 0 unless it is 0.
pub proof fn law_decimal_writes_number(n: nat)
    ensures
        decimal(n).len() > 0,
        all_decimal(as_bytes(decimal(n))),
        value_of(as_bytes(decimal(n))) == n,
        n > 0 ==> decimal(n)[0] != '0',
    decreases n,
{
    let numeral = as_bytes(decimal(n));
    if n >= 10 {
        law_decimal_writes_number(n / 10);
        let before = as_bytes(decimal(n / 10));
        assert(numeral.drop_last() =~= before);
        assert forall|i: int| 0 <= i < numeral.len() implies 48 <= #[trigger] numeral[i] <= 57 by {
            if i < before.len() {
                assert(numeral[i] == before[i]);
            }
        }
        assert(decimal(n)[0] == decimal(n / 10)[0]);
    } else {
        assert(numeral.drop_last() =~= Seq::empty());
        assert(value_of(numeral.drop_last()) == 0);
    }
}

} // verus!
