//! Escape sequences: the bytes that they stand for.

use crate::delimited_parser::{digits_end, digits_number, escape_at};
use crate::laws::writing::stands_at;
use vstd::prelude::*;

verus! {

/// The letters of the escape sequences that stand for the control characters from BEL to CR, in
/// their order.
pub open spec fn control_letters() -> Seq<u8> {
    seq![97u8, 98, 116, 110, 118, 102, 114]
}

/// A backslash and one of seven letters stand for BEL, BS, TAB, LF, VT, FF and CR.
pub proof fn law_named_escapes(text: Seq<u8>, pos: int, k: int)
    requires
        0 <= pos < text.len(),
        0 <= k < 7,
        text[pos] == control_letters()[k],
    ensures
        escape_at(text, pos) == Some(((7 + k) as u8, pos + 1)),
{
}

/// The value of a digit of a base up to 16, or 16 if the byte is none.
pub open spec fn figure(b: u8) -> int {
    if 48 <= b <= 57 {
        b - 48
    } else if 97 <= b <= 102 {
        b - 87
    } else if 65 <= b <= 70 {
        b - 55
    } else {
        16
    }
}

/// Whether the bytes are digits of the base.
pub open spec fn all_figures(digits: Seq<u8>, base: int) -> bool {
    forall|i: int| 0 <= i < digits.len() ==> figure(#[trigger] digits[i]) < base
}

/// The number that digits of a base write.
pub open spec fn number_in(digits: Seq<u8>, base: int) -> int
    decreases digits.len(),
{
    if digits.len() == 0 {
        0
    } else {
        base * number_in(digits.drop_last(), base) + figure(digits.last())
    }
}

/// The base of the number that names a byte in an escape sequence: 10 behind `d`, 8 behind `o`
/// and 16 behind `x`. It is 0 for any other letter.
pub open spec fn base_named(letter: u8) -> int {
    if letter == 100 {
        10
    } else if letter == 111 {
        8
    } else if letter == 120 {
        16
    } else {
        0
    }
}

/// The number of digits that such a number has at most.
pub open spec fn most_digits(letter: u8) -> nat {
    if letter == 120 {
        2
    } else {
        3
    }
}

/// Digits that stand in a line are read up to the first byte that is none.
proof fn lemma_digits_read(text: Seq<u8>, pos: int, digits: Seq<u8>, base: int, most: nat)
    requires
        2 <= base <= 16,
        stands_at(text, pos, digits),
        all_figures(digits, base),
        digits.len() <= most,
        digits.len() < most && pos + digits.len() < text.len() ==> figure(
            text[pos + digits.len()],
        ) >= base,
    ensures
        digits_end(text, pos, base, most) == pos + digits.len(),
    decreases digits.len(),
{
    if digits.len() > 0 {
        assert(text[pos] == digits[0]);
        assert(figure(digits[0]) < base);
        let later = digits.skip(1);
        assert forall|j: int| pos + 1 <= j < pos + 1 + later.len() implies #[trigger] text[j]
            == later[j - (pos + 1)] by {
            assert(text[j] == digits[j - pos]);
        }
        assert forall|i: int| 0 <= i < later.len() implies figure(#[trigger] later[i]) < base by {
            assert(figure(digits[i + 1]) < base);
        }
        lemma_digits_read(text, pos + 1, later, base, (most - 1) as nat);
    }
}

/// Digits that stand in a line make the number that they write.
proof fn lemma_digits_value(text: Seq<u8>, pos: int, digits: Seq<u8>, base: int)
    requires
        2 <= base <= 16,
        stands_at(text, pos, digits),
        all_figures(digits, base),
    ensures
        digits_number(text, pos, pos + digits.len(), base) == number_in(digits, base),
    decreases digits.len(),
{
    if digits.len() > 0 {
        let before = digits.drop_last();
        assert forall|j: int| pos <= j < pos + before.len() implies #[trigger] text[j]
            == before[j - pos] by {
            assert(text[j] == digits[j - pos]);
        }
        assert forall|i: int| 0 <= i < before.len() implies figure(#[trigger] before[i]) < base by {
            assert(figure(digits[i]) < base);
        }
        lemma_digits_value(text, pos, before, base);
        let last = pos + digits.len() - 1;
        assert(text[last] == digits[digits.len() - 1]);
        assert(figure(digits[digits.len() - 1]) < base);
        let n = number_in(before, base);
        assert(n * base == base * n) by (nonlinear_arith);
    }
}

/// A backslash, `d`, `o` or `x`, and digits stand for the byte of that number, counted from 0
/// again behind 255. Without digits they stand for nothing.
pub proof fn law_numeric_escapes(text: Seq<u8>, pos: int, digits: Seq<u8>)
    requires
        0 <= pos < text.len(),
        base_named(text[pos]) > 0,
        stands_at(text, pos + 1, digits),
        all_figures(digits, base_named(text[pos])),
        digits.len() <= most_digits(text[pos]),
        digits.len() < most_digits(text[pos]) && pos + 1 + digits.len() < text.len() ==> figure(
            text[pos + 1 + digits.len()],
        ) >= base_named(text[pos]),
    ensures
        digits.len() > 0 ==> escape_at(text, pos) == Some(
            ((number_in(digits, base_named(text[pos])) % 256) as u8, pos + 1 + digits.len()),
        ),
        digits.len() == 0 ==> escape_at(text, pos) is None,
{
    let base = base_named(text[pos]);
    let most = most_digits(text[pos]);
    lemma_digits_read(text, pos + 1, digits, base, most);
    lemma_digits_value(text, pos + 1, digits, base);
}

/// A backslash, `c` and another byte stand for a control character: the letters from `A` on, in
/// either case, for those from 1 on, and the other bytes from `@` to `_` for the one with their
/// place behind `@`; a byte before `@` stands for the one 64 places behind it. A `c` at the end
/// of the line stands for nothing.
pub proof fn law_control_escapes(text: Seq<u8>, pos: int)
    requires
        0 <= pos < text.len(),
        text[pos] == 99,
    ensures
        pos + 1 >= text.len() ==> escape_at(text, pos) is None,
        pos + 1 < text.len() ==> {
            let b = text[pos + 1];
            &&& 64 <= b <= 95 ==> escape_at(text, pos) == Some(((b - 64) as u8, pos + 2))
            &&& 97 <= b <= 122 ==> escape_at(text, pos) == Some(((b - 96) as u8, pos + 2))
            &&& b < 64 ==> escape_at(text, pos) == Some(((b + 64) as u8, pos + 2))
            &&& b == 96 || 123 <= b <= 127 ==> escape_at(text, pos) == Some(
                ((b - 64) as u8, pos + 2),
            )
        },
{
    if pos + 1 < text.len() {
        let b = text[pos + 1];
        assert(64 <= b <= 127 ==> (b ^ 64u8) == b - 64) by (bit_vector);
        assert(b < 64 ==> (b ^ 64u8) == b + 64) by (bit_vector);
        if 97 <= b <= 122 {
            let upper = (b - 32) as u8;
            assert(64 <= upper <= 127 ==> (upper ^ 64u8) == upper - 64) by (bit_vector);
        }
    }
}

/// A backslash and any other byte stand for nothing.
pub proof fn law_no_other_escapes(text: Seq<u8>, pos: int)
    requires
        0 <= pos < text.len(),
        !control_letters().contains(text[pos]),
        base_named(text[pos]) == 0,
        text[pos] != 99,
    ensures
        escape_at(text, pos) is None,
{
    let letters = control_letters();
    assert(letters.contains(letters[0]) && letters.contains(letters[1]) && letters.contains(
        letters[2],
    ) && letters.contains(letters[3]) && letters.contains(letters[4]) && letters.contains(
        letters[5],
    ) && letters.contains(letters[6]));
}

} // verus!
