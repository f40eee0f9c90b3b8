//! The flags of a substitution.

use crate::command::SubstitutionView;
use crate::compiler::arguments::path_at;
use crate::compiler::cursor::Cursor;
use crate::compiler::flags::{
    FlagStep, Flags, counted, flag_at, flags_at, flags_from, letter_at, number_at, without_flags,
    writer_at,
};
use crate::laws::commands::law_white_space_is_skipped;
use crate::laws::numbers::lemma_value;
use crate::laws::writing::{
    all_blank, all_decimal, is_white, lemma_blanks, lemma_pieces, rest_is, stands_at, value_of,
};
use crate::named_writer::WriterView;
use vstd::prelude::*;

verus! {

/// Whether the byte is one of the flags that are a letter alone: `g`, `p`, `i`, `I`, `m`, `M`
/// and `e`.
pub open spec fn is_flag(b: u8) -> bool {
    b == 103 || b == 112 || b == 105 || b == 73 || b == 109 || b == 77 || b == 101
}

/// Whether the bytes are flags that can stand together: letters, and not more than one `g`.
pub open spec fn can_be_flags(letters: Seq<u8>) -> bool {
    &&& forall|i: int| 0 <= i < letters.len() ==> is_flag(#[trigger] letters[i])
    &&& forall|i: int, j: int|
        0 <= i < j < letters.len() ==> !(#[trigger] letters[i] == 103 && #[trigger] letters[j]
            == 103)
}

/// Whether the flags are such as POSIX mode has: `g` and `p`.
pub open spec fn in_posix(letters: Seq<u8>) -> bool {
    forall|i: int| 0 <= i < letters.len() ==> #[trigger] letters[i] == 103 || letters[i] == 112
}

/// Whether every `p` comes before every `e`.
pub open spec fn prints_before_running(letters: Seq<u8>) -> bool {
    forall|i: int, j: int|
        0 <= i < letters.len() && 0 <= j < letters.len() && #[trigger] letters[i] == 112
            && #[trigger] letters[j] == 101 ==> i < j
}

/// Whether the substitution has exactly the flags that are written as letters, on top of those
/// of `before`.
pub open spec fn has_flags(after: SubstitutionView, before: SubstitutionView, letters: Seq<u8>) -> bool {
    &&& after.print_flag == (before.print_flag || letters.contains(112))
    &&& after.ignore_case == (before.ignore_case || letters.contains(105) || letters.contains(73))
    &&& after.multiline == (before.multiline || letters.contains(109) || letters.contains(77))
    &&& after.execute == (before.execute || letters.contains(101))
    &&& after.write_file == before.write_file
    &&& after.replacement == before.replacement
    &&& after.regex == before.regex
    &&& letters.contains(112) && before.execute ==> !after.p_before_e
    &&& letters.contains(112) && !before.execute ==> after.p_before_e == prints_before_running(
        letters,
    )
    &&& !letters.contains(112) ==> after.p_before_e == before.p_before_e
}

/// A byte is among others if it is the first of them or among the rest.
proof fn lemma_contains(bytes: Seq<u8>, b: u8)
    requires
        bytes.len() > 0,
    ensures
        bytes.contains(b) == (bytes[0] == b || bytes.skip(1).contains(b)),
{
    let later = bytes.skip(1);
    if bytes.contains(b) {
        let k = choose|k: int| 0 <= k < bytes.len() && bytes[k] == b;
        if k > 0 {
            assert(later[k - 1] == b);
        }
    }
    if later.contains(b) {
        let k = choose|k: int| 0 <= k < later.len() && later[k] == b;
        assert(bytes[k + 1] == b);
    }
}

/// The substitution with the flag that the letter `b` stands for.
spec fn with_letter(subst: SubstitutionView, b: u8) -> SubstitutionView {
    if b == 112 {
        SubstitutionView { print_flag: true, p_before_e: !subst.execute, ..subst }
    } else if b == 101 {
        SubstitutionView { execute: true, ..subst }
    } else if b == 105 || b == 73 {
        SubstitutionView { ignore_case: true, ..subst }
    } else if b == 109 || b == 77 {
        SubstitutionView { multiline: true, ..subst }
    } else {
        subst
    }
}

/// What one letter gives.
proof fn lemma_letter(flags: Flags, b: u8, posix: bool, sandbox: bool)
    requires
        0 <= flags.at.line.pos < flags.at.line.text.len(),
        flags.at.line.text[flags.at.line.pos] == b,
        is_flag(b),
        b == 103 ==> !flags.seen_g,
        b == 101 ==> !sandbox,
        posix ==> b == 103 || b == 112,
    ensures
        flag_at(flags, posix, sandbox) == FlagStep::More(
            Flags {
                at: flags.at.at_pos(flags.at.line.pos + 1),
                subst: with_letter(flags.subst, b),
                seen_g: flags.seen_g || b == 103,
                seen_n: flags.seen_n,
            },
        ),
{
    reveal(flag_at);
    reveal(letter_at);
    assert(flags.at.past_spaces() == flags.at);
    assert(flags.at.next() == flags.at.at_pos(flags.at.line.pos + 1));
}

/// The flags of the first letter and those of the others are the flags of all.
proof fn lemma_flags_added(after: SubstitutionView, before: SubstitutionView, letters: Seq<u8>)
    requires
        letters.len() > 0,
        is_flag(letters[0]),
        has_flags(after, with_letter(before, letters[0]), letters.skip(1)),
    ensures
        has_flags(after, before, letters),
{
    let later = letters.skip(1);
    lemma_contains(letters, 112);
    lemma_contains(letters, 105);
    lemma_contains(letters, 73);
    lemma_contains(letters, 109);
    lemma_contains(letters, 77);
    lemma_contains(letters, 101);
    if letters.contains(112) && !before.execute && !prints_before_running(letters) {
        let (i, j) = choose|i: int, j: int|
            0 <= i < letters.len() && 0 <= j < letters.len() && #[trigger] letters[i] == 112
                && #[trigger] letters[j] == 101 && i >= j;
        assert(i > j);
        assert(later[i - 1] == 112);
        if j > 0 {
            assert(later[j - 1] == 101);
        }
    }
    if prints_before_running(letters) {
        assert forall|i: int, j: int|
            0 <= i < later.len() && 0 <= j < later.len() && #[trigger] later[i] == 112
                && #[trigger] later[j] == 101 implies i < j by {
            assert(letters[i + 1] == 112 && letters[j + 1] == 101);
        }
        if letters[0] == 101 && later.contains(112) {
            let k = choose|k: int| 0 <= k < later.len() && later[k] == 112;
            assert(letters[k + 1] == 112);
        }
    }
}

/// The letters behind the first one are flags that can stand together, beside the first.
proof fn lemma_later_flags(letters: Seq<u8>)
    requires
        letters.len() > 0,
        can_be_flags(letters),
    ensures
        can_be_flags(letters.skip(1)),
        letters[0] == 103 ==> !letters.skip(1).contains(103),
{
    let later = letters.skip(1);
    assert forall|i: int| 0 <= i < later.len() implies is_flag(#[trigger] later[i]) by {
        assert(is_flag(letters[i + 1]));
    }
    assert forall|i: int, j: int| 0 <= i < j < later.len() implies !(#[trigger] later[i] == 103
        && #[trigger] later[j] == 103) by {
        assert(!(letters[i + 1] == 103 && letters[j + 1] == 103));
    }
    if letters[0] == 103 && later.contains(103) {
        let k = choose|k: int| 0 <= k < later.len() && later[k] == 103;
        assert(letters[k + 1] == 103);
    }
}

/// What the flags give from some letter on.
proof fn lemma_letters(flags: Flags, letters: Seq<u8>, posix: bool, sandbox: bool)
    requires
        stands_at(flags.at.line.text, flags.at.line.pos, letters),
        can_be_flags(letters),
        flags.seen_g ==> !letters.contains(103),
        letters.contains(101) ==> !sandbox,
        posix ==> in_posix(letters),
        ({
            let end = flags.at.line.pos + letters.len();
            end < flags.at.line.text.len() ==> flags.at.line.text[end] == 59
        }),
    ensures
        ({
            let after = flags_from(flags, posix, sandbox);
            let global = flags.seen_g || letters.contains(103);
            &&& after.result is Ok
            &&& after.at == flags.at.at_pos(flags.at.line.pos + letters.len())
            &&& has_flags(after.subst, flags.subst, letters)
            &&& after.subst.occurrence == if global && flags.subst.occurrence <= 1 {
                0
            } else {
                flags.subst.occurrence
            }
            &&& after.subst.global == (flags.subst.global || global && flags.subst.occurrence > 1)
        }),
    decreases letters.len(),
{
    let text = flags.at.line.text;
    let pos = flags.at.line.pos;
    if letters.len() == 0 {
        reveal(flag_at);
        assert(flags.at.past_spaces() == flags.at);
        assert(flags.at.at_pos(pos) == flags.at);
        assert(has_flags(flags.subst, flags.subst, letters));
    } else {
        let later = letters.skip(1);
        assert(text[pos] == letters[0]);
        assert(is_flag(letters[0]));
        lemma_contains(letters, 103);
        lemma_contains(letters, 101);
        lemma_later_flags(letters);
        lemma_letter(flags, letters[0], posix, sandbox);
        assert forall|j: int| pos + 1 <= j < pos + 1 + later.len() implies #[trigger] text[j]
            == later[j - (pos + 1)] by {
            assert(text[j] == letters[j - pos]);
        }
        let more = flag_at(flags, posix, sandbox)->More_0;
        assert(posix ==> in_posix(later)) by {
            assert forall|i: int| 0 <= i < later.len() && posix implies #[trigger] later[i] == 103
                || later[i] == 112 by {
                assert(letters[i + 1] == 103 || letters[i + 1] == 112);
            }
        }
        lemma_letters(more, later, posix, sandbox);
        lemma_flags_added(flags_from(more, posix, sandbox).subst, flags.subst, letters);
        assert(more.at.at_pos(pos + 1 + later.len()) == flags.at.at_pos(pos + letters.len()));
    }
}

/// Flags that are letters set what they stand for and nothing else: `p` prints, `i` and `I`
/// ignore case, `m` and `M` match at inner line ends, `e` runs the result, and `g` replaces
/// every match. Without `g`, the first match is replaced. Printing comes before running if
/// every `p` is written before every `e`.
pub proof fn law_letters_are_flags(
    at: Cursor,
    subst: SubstitutionView,
    letters: Seq<u8>,
    posix: bool,
    sandbox: bool,
)
    requires
        stands_at(at.line.text, at.line.pos, letters),
        can_be_flags(letters),
        letters.contains(101) ==> !sandbox,
        posix ==> in_posix(letters),
        at.line.pos + letters.len() < at.line.text.len() ==> at.line.text[at.line.pos
            + letters.len()] == 59,
    ensures
        ({
            let after = flags_at(at, subst, posix, sandbox);
            &&& after.result is Ok
            &&& after.at == at.at_pos(at.line.pos + letters.len())
            &&& after.subst.print_flag == letters.contains(112)
            &&& after.subst.ignore_case == (letters.contains(105) || letters.contains(73))
            &&& after.subst.multiline == (letters.contains(109) || letters.contains(77))
            &&& after.subst.execute == letters.contains(101)
            &&& after.subst.occurrence == if letters.contains(103) {
                0usize
            } else {
                1
            }
            &&& !after.subst.global
            &&& after.subst.write_file is None
            &&& after.subst.replacement == subst.replacement
            &&& after.subst.regex == subst.regex
            &&& after.subst.p_before_e == (letters.contains(112) && prints_before_running(letters))
        }),
{
    reveal(flags_at);
    let flags = Flags { at, subst: without_flags(subst), seen_g: false, seen_n: false };
    lemma_letters(flags, letters, posix, sandbox);
}

/// White space before flags does not matter.
pub proof fn law_space_before_flags(
    at: Cursor,
    subst: SubstitutionView,
    posix: bool,
    sandbox: bool,
)
    requires
        0 <= at.line.pos <= at.line.text.len(),
    ensures
        flags_at(at, subst, posix, sandbox) == flags_at(at.past_spaces(), subst, posix, sandbox),
{
    reveal(flags_at);
    reveal(flag_at);
    reveal(letter_at);
    reveal(number_at);
    reveal(writer_at);
    let here = at.past_spaces();
    law_white_space_is_skipped(at);
    assert(here.past_spaces() == here);
    let a = Flags { at, subst: without_flags(subst), seen_g: false, seen_n: false };
    let b = Flags { at: here, ..a };
    assert(flag_at(a, posix, sandbox) == flag_at(b, posix, sandbox));
    if !here.eol() && 48 <= here.byte() <= 57 {
        lemma_counted_range(here.line.text, here.line.pos, here.line.pos);
    }
}

/// Digits end within the line, behind where they start.
pub proof fn lemma_counted_range(text: Seq<u8>, from: int, pos: int)
    requires
        0 <= pos <= text.len(),
    ensures
        counted(text, from, pos) matches Ok(end) ==> pos <= end <= text.len() && (pos < text.len()
            && 48 <= text[pos] <= 57 ==> pos < end),
    decreases text.len() - pos,
{
    if pos < text.len() && 48 <= text[pos] <= 57 {
        lemma_counted_range(text, from, pos + 1);
    }
}

/// More digits make no smaller number.
proof fn lemma_value_grows(digits: Seq<u8>, k: int)
    requires
        all_decimal(digits),
        0 <= k <= digits.len(),
    ensures
        0 <= value_of(digits.take(k)) <= value_of(digits),
    decreases digits.len(),
{
    if k == digits.len() {
        assert(digits.take(k) =~= digits);
        if digits.len() > 0 {
            let before = digits.drop_last();
            assert forall|i: int| 0 <= i < before.len() implies 48 <= #[trigger] before[i]
                <= 57 by {
                assert(48 <= digits[i] <= 57);
            }
            lemma_value_grows(before, before.len() as int);
            assert(before.take(before.len() as int) =~= before);
            assert(48 <= digits[digits.len() - 1] <= 57);
        }
    } else {
        let before = digits.drop_last();
        assert forall|i: int| 0 <= i < before.len() implies 48 <= #[trigger] before[i] <= 57 by {
            assert(48 <= digits[i] <= 57);
        }
        lemma_value_grows(before, k);
        assert(before.take(k) =~= digits.take(k));
        assert(48 <= digits[digits.len() - 1] <= 57);
    }
}

/// The digits of a number that is not too large are all read.
proof fn lemma_counted(text: Seq<u8>, pos: int, digits: Seq<u8>, k: int)
    requires
        stands_at(text, pos, digits),
        all_decimal(digits),
        value_of(digits) <= usize::MAX,
        0 <= k <= digits.len(),
        pos + digits.len() < text.len() ==> !(48 <= text[pos + digits.len()] <= 57),
    ensures
        counted(text, pos, pos + k) == Ok::<int, int>(pos + digits.len()),
    decreases digits.len() - k,
{
    if k < digits.len() {
        assert(text[pos + k] == digits[k]);
        assert(48 <= digits[k] <= 57);
        let some = digits.take(k + 1);
        assert forall|j: int| pos <= j < pos + some.len() implies #[trigger] text[j] == some[j
            - pos] by {
            assert(text[j] == digits[j - pos]);
        }
        assert forall|i: int| 0 <= i < some.len() implies 48 <= #[trigger] some[i] <= 57 by {
            assert(48 <= digits[i] <= 57);
        }
        lemma_value(text, pos, some);
        lemma_value_grows(digits, k + 1);
        lemma_counted(text, pos, digits, k + 1);
    }
}

/// A number names the match that is replaced. With a `g` before or behind it, every later match
/// is replaced as well; if it is 1, that is every match.
pub proof fn law_number_is_occurrence(
    at: Cursor,
    subst: SubstitutionView,
    before: bool,
    digits: Seq<u8>,
    behind: bool,
    posix: bool,
    sandbox: bool,
)
    requires
        !(before && behind),
        all_decimal(digits),
        digits.len() > 0,
        digits[0] != 48,
        value_of(digits) <= usize::MAX,
        rest_is(
            at,
            if before {
                seq![103u8] + digits
            } else if behind {
                digits + seq![103u8]
            } else {
                digits
            },
        ),
    ensures
        ({
            let after = flags_at(at, subst, posix, sandbox);
            let n = value_of(digits) as usize;
            let global = before || behind;
            &&& after.result is Ok
            &&& after.at == at.at_pos(at.line.text.len() as int)
            &&& after.subst.occurrence == if global && n <= 1 {
                0
            } else {
                n
            }
            &&& after.subst.global == (global && n > 1)
            &&& !after.subst.print_flag && !after.subst.ignore_case && !after.subst.multiline
            &&& !after.subst.execute && after.subst.write_file is None
            &&& after.subst.replacement == subst.replacement
        }),
{
    reveal(flags_at);
    reveal(flag_at);
    reveal(letter_at);
    reveal(number_at);
    let text = at.line.text;
    let pos = at.line.pos;
    let flags = Flags {
        at,
        subst: without_flags(subst),
        seen_g: false,
        seen_n: false,
    };
    if before {
        lemma_pieces(text, pos, seq![103u8], digits);
        assert(text[pos] == seq![103u8][0]);
    } else if behind {
        lemma_pieces(text, pos, digits, seq![103u8]);
        assert(text[pos + digits.len()] == seq![103u8][0]);
    }
    let from = if before {
        pos + 1
    } else {
        pos
    };
    assert(text[from] == digits[0]);
    assert(48 <= digits[0] <= 57);
    lemma_counted(text, from, digits, 0);
    lemma_value(text, from, digits);
    assert(at.past_spaces() == at);
    let start = if before {
        flag_at(flags, posix, sandbox)->More_0
    } else {
        flags
    };
    assert(start.at == at.at_pos(from));
    assert(start.at.past_spaces() == start.at);
    let counted_flags = flag_at(start, posix, sandbox)->More_0;
    assert(counted_flags.at == at.at_pos(from + digits.len()));
    assert(counted_flags.at.past_spaces() == counted_flags.at);
    let last = if behind {
        flag_at(counted_flags, posix, sandbox)->More_0
    } else {
        counted_flags
    };
    assert(last.at == at.at_pos(text.len() as int));
    assert(last.at.past_spaces() == last.at);
    assert(flags_from(last, posix, sandbox).result is Ok);
    assert(flags_from(counted_flags, posix, sandbox) == flags_from(last, posix, sandbox));
    assert(flags_from(start, posix, sandbox) == flags_from(counted_flags, posix, sandbox));
    assert(flags_from(flags, posix, sandbox) == flags_from(start, posix, sandbox));
}

/// The digits of a number that is too large are not all read.
proof fn lemma_too_large(text: Seq<u8>, pos: int, digits: Seq<u8>, k: int)
    requires
        stands_at(text, pos, digits),
        all_decimal(digits),
        value_of(digits) > usize::MAX,
        0 <= k < digits.len(),
    ensures
        counted(text, pos, pos + k) is Err,
    decreases digits.len() - k,
{
    assert(text[pos + k] == digits[k]);
    assert(48 <= digits[k] <= 57);
    let some = digits.take(k + 1);
    assert forall|j: int| pos <= j < pos + some.len() implies #[trigger] text[j] == some[j
        - pos] by {
        assert(text[j] == digits[j - pos]);
    }
    assert forall|i: int| 0 <= i < some.len() implies 48 <= #[trigger] some[i] <= 57 by {
        assert(48 <= digits[i] <= 57);
    }
    lemma_value(text, pos, some);
    if k + 1 < digits.len() {
        lemma_too_large(text, pos, digits, k + 1);
    } else {
        assert(some =~= digits);
    }
}

/// A number that is too large is in error, and so is a second number.
pub proof fn law_numbers_are_refused(
    at: Cursor,
    subst: SubstitutionView,
    digits: Seq<u8>,
    second: Seq<u8>,
    posix: bool,
    sandbox: bool,
)
    requires
        all_decimal(digits) && all_decimal(second),
        digits.len() > 0,
        digits[0] != 48,
        second.len() > 0 ==> second[0] != 48,
        second.len() > 0 || value_of(digits) > usize::MAX,
        stands_at(
            at.line.text,
            at.line.pos,
            digits + (if second.len() > 0 {
                seq![103u8] + second
            } else {
                Seq::empty()
            }),
        ),
    ensures
        flags_at(at, subst, posix, sandbox).result is Err,
{
    reveal(flags_at);
    reveal(flag_at);
    reveal(letter_at);
    reveal(number_at);
    let text = at.line.text;
    let pos = at.line.pos;
    let flags = Flags { at, subst: without_flags(subst), seen_g: false, seen_n: false };
    let rest = if second.len() > 0 {
        seq![103u8] + second
    } else {
        Seq::<u8>::empty()
    };
    lemma_pieces(text, pos, digits, rest);
    assert(text[pos] == digits[0]);
    assert(48 <= digits[0] <= 57);
    assert(at.past_spaces() == at);
    if value_of(digits) > usize::MAX {
        lemma_too_large(text, pos, digits, 0);
        assert(flag_at(flags, posix, sandbox) is Wrong);
    } else {
        let end = pos + digits.len();
        lemma_pieces(text, end, seq![103u8], second);
        assert(text[end] == seq![103u8][0]);
        assert(text[end + 1] == second[0]);
        assert(48 <= second[0] <= 57);
        lemma_counted(text, pos, digits, 0);
        let one = flag_at(flags, posix, sandbox)->More_0;
        assert(one.at == at.at_pos(end));
        assert(one.at.past_spaces() == one.at);
        let two = flag_at(one, posix, sandbox)->More_0;
        assert(two.at == at.at_pos(end + 1));
        assert(two.at.past_spaces() == two.at);
        assert(flag_at(two, posix, sandbox) is Wrong);
        assert(flags_from(two, posix, sandbox).result is Err);
        assert(flags_from(one, posix, sandbox) == flags_from(two, posix, sandbox));
        assert(flags_from(flags, posix, sandbox) == flags_from(one, posix, sandbox));
    }
}

/// `w` names the file that the result is written to: all that is left of the line, without
/// blanks before it. The file is noted with the place of the `w`.
pub proof fn law_writer_flag(
    at: Cursor,
    subst: SubstitutionView,
    gap: Seq<u8>,
    path: Seq<u8>,
    posix: bool,
    sandbox: bool,
)
    requires
        rest_is(at, seq![119u8] + (gap + path)),
        all_blank(gap),
        path.len() > 0,
        !is_white(path[0]),
    ensures
        ({
            let after = flags_at(at, subst, posix, sandbox);
            &&& sandbox ==> after.result is Err
            &&& !sandbox ==> {
                &&& after.result is Ok
                &&& after.at == at.at_pos(at.line.text.len() as int)
                &&& after.subst.write_file == Some(WriterView { path, location: at.location() })
                &&& after.subst.occurrence == 1 && !after.subst.global
                &&& !after.subst.print_flag && !after.subst.ignore_case
                &&& !after.subst.multiline && !after.subst.execute
                &&& after.subst.replacement == subst.replacement
            }
        }),
{
    reveal(flags_at);
    reveal(flag_at);
    reveal(writer_at);
    let text = at.line.text;
    let pos = at.line.pos;
    lemma_pieces(text, pos, seq![119u8], gap + path);
    lemma_pieces(text, pos + 1, gap, path);
    assert(text[pos] == seq![119u8][0]);
    assert(text[pos + 1 + gap.len()] == path[0]);
    lemma_blanks(text, pos + 1, gap);
    assert(at.past_spaces() == at);
    let here = at.next().past_spaces();
    assert(here == at.at_pos(pos + 1 + gap.len()));
    assert(here.remaining() =~= path);
    assert(path_at(at).result == Ok::<Seq<u8>, crate::error_handling::ErrorView>(path));
}

/// What is no flag is an error: an unknown letter, a second `g`, and in POSIX mode or
/// in a sandbox the flags that these do not have.
pub proof fn law_other_flags_are_refused(
    at: Cursor,
    subst: SubstitutionView,
    posix: bool,
    sandbox: bool,
)
    requires
        0 <= at.line.pos < at.line.text.len(),
        ({
            let b = at.line.text[at.line.pos];
            let next = at.line.text[at.line.pos + 1];
            ||| !is_flag(b) && !(49 <= b <= 57) && b != 119 && b != 59 && !is_white(b)
            ||| posix && (b == 105 || b == 73 || b == 109 || b == 77 || b == 101)
            ||| sandbox && (b == 101 || b == 119)
            ||| at.line.pos + 1 < at.line.text.len() && b == 103 && next == 103
        }),
    ensures
        flags_at(at, subst, posix, sandbox).result is Err,
{
    reveal(flags_at);
    reveal(flag_at);
    reveal(letter_at);
    reveal(writer_at);
    let flags = Flags {
        at,
        subst: without_flags(subst),
        seen_g: false,
        seen_n: false,
    };
    assert(at.past_spaces() == at);
    if at.line.text[at.line.pos] == 103 {
        let more = flag_at(flags, posix, sandbox)->More_0;
        assert(more.at == at.at_pos(at.line.pos + 1));
        assert(more.at.past_spaces() == more.at);
        assert(flag_at(more, posix, sandbox) is Wrong);
        assert(flags_from(more, posix, sandbox).result is Err);
    }
}

} // verus!
