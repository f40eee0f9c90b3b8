//! The addresses before a command.

use crate::command::{AddressView, ContextView, RegexMode};
use crate::compiler::address::{address_at, range_at, regex_address, second_address};
use crate::compiler::cursor::Cursor;
use crate::compiler::regex::{regex_at, regex_source};
use crate::laws::commands::law_white_space_is_skipped;
use crate::laws::delimited::{
    is_plain_regex, is_special, law_regex_between_delimiters, written_regex,
};
use crate::laws::numbers::law_numeral_is_read;
use crate::laws::replacements::is_delimiter;
use crate::laws::substitutions::{engine_regex, in_engine_syntax};
use crate::laws::writing::{
    all_blank, all_decimal, is_white, lemma_blanks, lemma_pieces, stands_at, value_of,
};
use vstd::prelude::*;

verus! {

/// An address as a script has it.
pub enum Written {
    /// The line whose number the digits write.
    Numeral(Seq<u8>),
    /// The last line: `$`.
    Last,
    /// The lines that an expression matches, which stands between two delimiters: case is
    /// ignored if an `I` stands behind them.
    Matching(Seq<u8>, u8, bool),
}

/// Whether such an address can be written: the number is not too large, and the delimiter does
/// not stand for itself.
pub open spec fn can_be_written(address: Written) -> bool {
    match address {
        Written::Numeral(digits) => all_decimal(digits) && digits.len() > 0 && value_of(digits)
            <= usize::MAX,
        Written::Last => true,
        Written::Matching(pattern, delimiter, _) => is_delimiter(delimiter) && !is_special(
            delimiter,
            RegexMode::Extended,
        ) && is_plain_regex(pattern, delimiter),
    }
}

/// How the address is written. A delimiter other than `/` has a backslash before it.
pub open spec fn written_address(address: Written) -> Seq<u8> {
    match address {
        Written::Numeral(digits) => digits,
        Written::Last => seq![36u8],
        Written::Matching(pattern, delimiter, icase) => (if delimiter == 47 {
            seq![]
        } else {
            seq![92u8]
        }) + ((seq![delimiter] + (written_regex(pattern, delimiter) + seq![delimiter])) + (
        if icase {
            seq![73u8]
        } else {
            seq![]
        })),
    }
}

/// The lines that the address stands for. An empty expression stands for the last one that was
/// used.
pub open spec fn meant(address: Written, context: ContextView) -> AddressView {
    match address {
        Written::Numeral(digits) => AddressView::Line(value_of(digits) as usize),
        Written::Last => AddressView::Last,
        Written::Matching(pattern, _, icase) => AddressView::Re(
            if pattern.len() == 0 {
                None
            } else {
                Some(
                    engine_regex(
                        pattern,
                        if icase {
                            seq![73u8]
                        } else {
                            seq![]
                        },
                        context,
                    ),
                )
            },
        ),
    }
}

/// Whether the engine takes the expression of the address, if it has one.
pub open spec fn is_accepted(address: Written, context: ContextView) -> bool {
    meant(address, context) matches AddressView::Re(Some(re)) ==> re.groups() is Some
}

/// Whether the address ends before what stands at `pos`: a numeral does not end before another
/// digit, and an expression not before an `I`.
pub open spec fn ends_before(address: Written, text: Seq<u8>, pos: int) -> bool {
    pos < text.len() ==> match address {
        Written::Numeral(_) => !(48 <= text[pos] <= 57),
        Written::Last => true,
        Written::Matching(_, _, icase) => icase || text[pos] != 73,
    }
}

/// The pieces of an address with an expression.
proof fn lemma_matching(
    at: Cursor,
    pattern: Seq<u8>,
    delimiter: u8,
    icase: bool,
    gap: Seq<u8>,
    context: ContextView,
    reason: Seq<char>,
)
    requires
        can_be_written(Written::Matching(pattern, delimiter, icase)),
        all_blank(gap),
        stands_at(
            at.line.text,
            at.line.pos,
            ((seq![delimiter] + (written_regex(pattern, delimiter) + seq![delimiter])) + (
            if icase {
                seq![73u8]
            } else {
                seq![]
            })) + gap,
        ),
        ({
            let end = at.line.pos + written_regex(pattern, delimiter).len() + 2 + gap.len()
                + if icase {
                1int
            } else {
                0
            };
            end < at.line.text.len() ==> {
                &&& !is_white(at.line.text[end])
                &&& icase || at.line.text[end] != 73
            }
        }),
    ensures
        ({
            let address = Written::Matching(pattern, delimiter, icase);
            let end = at.line.pos + written_regex(pattern, delimiter).len() + 2 + gap.len()
                + if icase {
                1int
            } else {
                0
            };
            let read = regex_address(at, context, reason);
            if is_accepted(address, context) {
                &&& read.result is Ok
                &&& read.result->Ok_0 == meant(address, context)
                &&& read.at.past_spaces() == at.at_pos(end)
            } else {
                read.result is Err
            }
        }),
{
    let text = at.line.text;
    let pos = at.line.pos;
    let whole = seq![delimiter] + (written_regex(pattern, delimiter) + seq![delimiter]);
    let mark: Seq<u8> = if icase {
        seq![73u8]
    } else {
        seq![]
    };
    lemma_pieces(text, pos, whole + mark, gap);
    lemma_pieces(text, pos, whole, mark);
    let mode = if context.options.regex_extended {
        RegexMode::Extended
    } else {
        RegexMode::Basic
    };
    law_regex_between_delimiters(at, pattern, delimiter, mode, context.options.posix);
    let behind = at.at_pos(pos + whole.len());
    if icase {
        assert(text[pos + whole.len()] == mark[0]);
        assert(behind.past_spaces() == behind);
        lemma_blanks(text, pos + whole.len() + 1, gap);
    } else {
        lemma_blanks(text, pos + whole.len(), gap);
        let end = at.at_pos(pos + whole.len() + gap.len());
        assert(behind.past_spaces() == end);
        assert(end.past_spaces() == end);
    }
    reveal(regex_at);
    let expression = in_engine_syntax(pattern, context.options.regex_extended);
    let none = Seq::<u8>::empty();
    assert(none + expression =~= expression);
    if icase {
        assert(mark[0] == 73);
        assert(mark.contains(73));
    }
    assert(regex_source(pattern, context, icase, false) =~= engine_regex(pattern, mark, context));
}

/// An address is read as it was written. It is in error if the engine refuses its expression.
pub proof fn law_address_is_read(
    at: Cursor,
    address: Written,
    gap: Seq<u8>,
    context: ContextView,
    reason: Seq<char>,
)
    requires
        can_be_written(address),
        all_blank(gap),
        stands_at(at.line.text, at.line.pos, written_address(address) + gap),
        ({
            let behind = at.line.pos + written_address(address).len() + gap.len();
            &&& ends_before(address, at.line.text, behind)
            &&& behind < at.line.text.len() ==> !is_white(at.line.text[behind])
        }),
    ensures
        ({
            let read = address_at(at, context, reason);
            if is_accepted(address, context) {
                &&& read.result is Ok
                &&& read.result->Ok_0 == meant(address, context)
                &&& read.at.past_spaces() == at.at_pos(
                    at.line.pos + written_address(address).len() + gap.len(),
                )
            } else {
                read.result is Err
            }
        }),
{
    let text = at.line.text;
    let pos = at.line.pos;
    let piece = written_address(address);
    lemma_pieces(text, pos, piece, gap);
    lemma_blanks(text, pos + piece.len(), gap);
    reveal(address_at);
    match address {
        Written::Numeral(digits) => {
            assert(text[pos] == digits[0]);
            assert(48 <= digits[0] <= 57);
            if gap.len() > 0 {
                assert(text[pos + piece.len()] == gap[0]);
            }
            law_numeral_is_read(at, digits, true);
        },
        Written::Last => {
            assert(text[pos] == piece[0]);
        },
        Written::Matching(pattern, delimiter, icase) => {
            let whole = seq![delimiter] + (written_regex(pattern, delimiter) + seq![delimiter]);
            let mark: Seq<u8> = if icase {
                seq![73u8]
            } else {
                seq![]
            };
            if delimiter == 47 {
                let none: Seq<u8> = seq![];
                assert(none + (whole + mark) =~= whole + mark);
                assert(text[pos] == piece[0]);
                lemma_matching(at, pattern, delimiter, icase, gap, context, reason);
            } else {
                assert(text[pos] == piece[0]);
                assert(piece + gap =~= seq![92u8] + ((whole + mark) + gap));
                lemma_pieces(text, pos, seq![92u8], (whole + mark) + gap);
                lemma_matching(at.next(), pattern, delimiter, icase, gap, context, reason);
            }
        },
    }
}

/// There may be blanks between an expression and the `I` behind it.
pub proof fn law_blanks_before_modifier(
    at: Cursor,
    pattern: Seq<u8>,
    gap: Seq<u8>,
    context: ContextView,
    reason: Seq<char>,
)
    requires
        is_plain_regex(pattern, 47),
        all_blank(gap),
        stands_at(
            at.line.text,
            at.line.pos,
            (seq![47u8] + (written_regex(pattern, 47) + seq![47u8])) + (gap + seq![73u8]),
        ),
    ensures
        ({
            let address = Written::Matching(pattern, 47, true);
            let read = address_at(at, context, reason);
            if is_accepted(address, context) {
                &&& read.result is Ok
                &&& read.result->Ok_0 == meant(address, context)
                &&& read.at == at.at_pos(
                    at.line.pos + 3 + written_regex(pattern, 47).len() + gap.len(),
                )
            } else {
                read.result is Err
            }
        }),
{
    let text = at.line.text;
    let pos = at.line.pos;
    let whole = seq![47u8] + (written_regex(pattern, 47) + seq![47u8]);
    lemma_pieces(text, pos, whole, gap + seq![73u8]);
    lemma_pieces(text, pos + whole.len(), gap, seq![73u8]);
    assert(text[pos] == whole[0]);
    let from = pos + whole.len() + gap.len();
    assert(text[from] == seq![73u8][0]);
    let mode = if context.options.regex_extended {
        RegexMode::Extended
    } else {
        RegexMode::Basic
    };
    law_regex_between_delimiters(at, pattern, 47, mode, context.options.posix);
    lemma_blanks(text, pos + whole.len(), gap);
    reveal(address_at);
    reveal(regex_at);
    let expression = in_engine_syntax(pattern, context.options.regex_extended);
    let none = Seq::<u8>::empty();
    assert(none + expression =~= expression);
    let mark = seq![73u8];
    assert(mark[0] == 73);
    assert(mark.contains(73));
    assert(regex_source(pattern, context, true, false) =~= engine_regex(pattern, mark, context));
}

/// Where no address stands, there is none.
pub proof fn law_no_address(at: Cursor, context: ContextView, reason: Seq<char>)
    requires
        0 <= at.line.pos <= at.line.text.len(),
        !at.eol() ==> {
            &&& !is_white(at.byte())
            &&& !(48 <= at.byte() <= 57)
            &&& at.byte() != 47 && at.byte() != 92 && at.byte() != 36
        },
    ensures
        ({
            let range = range_at(at, context, reason);
            &&& range.result is Ok && range.result->Ok_0 == 0
            &&& range.addr1 is None
            &&& range.addr2 is None
            &&& range.at == at
        }),
{
}

/// White space before addresses does not matter.
pub proof fn law_space_before_addresses(at: Cursor, context: ContextView, reason: Seq<char>)
    requires
        0 <= at.line.pos <= at.line.text.len(),
    ensures
        range_at(at, context, reason) == range_at(at.past_spaces(), context, reason),
{
    law_white_space_is_skipped(at);
    assert(at.past_spaces().past_spaces() == at.past_spaces());
}

/// Whether the address is line 0.
pub open spec fn is_zero(address: Written) -> bool {
    address matches Written::Numeral(digits) && value_of(digits) == 0
}

/// Digits write no negative number.
proof fn lemma_value_is_natural(digits: Seq<u8>)
    requires
        all_decimal(digits),
    ensures
        value_of(digits) >= 0,
    decreases digits.len(),
{
    if digits.len() > 0 {
        let before = digits.drop_last();
        assert forall|i: int| 0 <= i < before.len() implies 48 <= #[trigger] before[i] <= 57 by {
            assert(48 <= digits[i] <= 57);
        }
        lemma_value_is_natural(before);
        assert(48 <= digits[digits.len() - 1] <= 57);
    }
}

/// An address starts with a byte that no white space is. Only line 0 is line 0.
proof fn lemma_starts(address: Written)
    requires
        can_be_written(address),
    ensures
        ({
            let piece = written_address(address);
            &&& piece.len() > 0
            &&& 48 <= piece[0] <= 57 || piece[0] == 36 || piece[0] == 47 || piece[0] == 92
        }),
        forall|context: ContextView|
            #[trigger] meant(address, context) == AddressView::Line(0) <==> is_zero(address),
{
    if let Written::Numeral(digits) = address {
        lemma_value_is_natural(digits);
        assert(48 <= digits[0] <= 57);
    }
}

/// A lone address is the first one, and there is no second one. Line 0 is only for `r`, and not
/// in POSIX mode.
pub proof fn law_one_address(
    at: Cursor,
    address: Written,
    gap: Seq<u8>,
    context: ContextView,
    reason: Seq<char>,
)
    requires
        can_be_written(address),
        all_blank(gap),
        stands_at(at.line.text, at.line.pos, written_address(address) + gap),
        ({
            let behind = at.line.pos + written_address(address).len() + gap.len();
            &&& ends_before(address, at.line.text, behind)
            &&& behind < at.line.text.len() ==> {
                &&& !is_white(at.line.text[behind])
                &&& at.line.text[behind] != 44
                &&& at.line.text[behind] != 126
            }
        }),
    ensures
        ({
            let behind = at.at_pos(at.line.pos + written_address(address).len() + gap.len());
            let range = range_at(at, context, reason);
            let misplaced = is_zero(address) && (context.options.posix || behind.eol()
                || behind.byte() != 114);
            if is_accepted(address, context) && !misplaced {
                &&& range.result is Ok && range.result->Ok_0 == 1
                &&& range.addr1 == Some(meant(address, context))
                &&& range.addr2 is None
                &&& range.at == behind
            } else {
                range.result is Err
            }
        }),
{
    let text = at.line.text;
    let pos = at.line.pos;
    lemma_starts(address);
    lemma_pieces(text, pos, written_address(address), gap);
    assert(text[pos] == written_address(address)[0]);
    assert(at.past_spaces() == at);
    law_address_is_read(at, address, gap, context, reason);
}

/// What may follow the first address.
pub enum Second {
    /// `,` and an address: up to it.
    To(Written),
    /// `,+` and a number: so many lines more.
    More(Seq<u8>),
    /// `,~` and a number: up to a multiple of it.
    Multiple(Seq<u8>),
    /// `~` and a number: every so many lines.
    Every(Seq<u8>),
}

/// The address that a second address is written with.
pub open spec fn address_of(second: Second) -> Written {
    match second {
        Second::To(address) => address,
        Second::More(digits) => Written::Numeral(digits),
        Second::Multiple(digits) => Written::Numeral(digits),
        Second::Every(digits) => Written::Numeral(digits),
    }
}

/// What stands between the first address and the numeral or expression of the second one.
pub open spec fn separator(second: Second, gap: Seq<u8>) -> Seq<u8> {
    match second {
        Second::To(_) => seq![44u8] + gap,
        Second::More(_) => seq![44u8] + (gap + seq![43u8]),
        Second::Multiple(_) => seq![44u8] + (gap + seq![126u8]),
        Second::Every(_) => seq![126u8] + gap,
    }
}

/// The lines that the second address stands for.
pub open spec fn second_meant(second: Second, context: ContextView) -> AddressView {
    match second {
        Second::To(address) => meant(address, context),
        Second::More(digits) => AddressView::RelLine(value_of(digits) as usize),
        Second::Multiple(digits) => AddressView::StepEnd(value_of(digits) as usize),
        Second::Every(digits) => AddressView::StepMatch(value_of(digits) as usize),
    }
}

/// Whether the second address can be behind the first one: steps are not for POSIX mode, and
/// neither is line 0, which is for an expression or a step behind it only.
pub open spec fn go_together(first: Written, second: Second, posix: bool) -> bool {
    &&& posix ==> !(second is Multiple) && !(second is Every) && !is_zero(first)
    &&& is_zero(first) ==> second is Every || (second matches Second::To(address) && address
        is Matching)
}

/// The second address behind its separator.
proof fn lemma_second(
    at: Cursor,
    first: AddressView,
    gap: Seq<u8>,
    second: Second,
    last_gap: Seq<u8>,
    context: ContextView,
    reason: Seq<char>,
)
    requires
        can_be_written(address_of(second)),
        all_blank(gap) && all_blank(last_gap),
        stands_at(
            at.line.text,
            at.line.pos,
            separator(second, gap) + (written_address(address_of(second)) + last_gap),
        ),
        ({
            let behind = at.line.pos + separator(second, gap).len() + written_address(
                address_of(second),
            ).len() + last_gap.len();
            &&& ends_before(address_of(second), at.line.text, behind)
            &&& behind < at.line.text.len() ==> !is_white(at.line.text[behind])
        }),
    ensures
        ({
            let behind = at.at_pos(
                at.line.pos + separator(second, gap).len() + written_address(
                    address_of(second),
                ).len() + last_gap.len(),
            );
            let range = second_address(at, context, first, reason);
            let zero = first == AddressView::Line(0);
            let fits = (context.options.posix ==> !(second is Multiple) && !(second is Every)) && (
            zero ==> second is Every || (second matches Second::To(address) && address
                is Matching));
            if is_accepted(address_of(second), context) && fits {
                &&& range.result is Ok && range.result->Ok_0 == 2
                &&& range.addr1 == Some(first)
                &&& range.addr2 == Some(second_meant(second, context))
                &&& range.at.past_spaces() == behind
            } else {
                range.result is Err
            }
        }),
{
    let text = at.line.text;
    let pos = at.line.pos;
    let address = address_of(second);
    let mark = separator(second, gap);
    let piece = written_address(address);
    lemma_starts(address);
    lemma_pieces(text, pos, mark, piece + last_gap);
    lemma_pieces(text, pos + mark.len(), piece, last_gap);
    assert(text[pos] == mark[0]);
    assert(text[pos + mark.len()] == piece[0]);
    assert(at.past_spaces() == at);
    let start = at.at_pos(pos + mark.len());
    match second {
        Second::To(_) => {
            lemma_pieces(text, pos, seq![44u8], gap);
            lemma_blanks(text, pos + 1, gap);
            law_address_is_read(start, address, last_gap, context, reason);
        },
        Second::Every(_) => {
            lemma_pieces(text, pos, seq![126u8], gap);
            lemma_blanks(text, pos + 1, gap);
            law_address_is_read(start, address, last_gap, context, reason);
        },
        Second::More(digits) => {
            lemma_pieces(text, pos, seq![44u8], gap + seq![43u8]);
            lemma_pieces(text, pos + 1, gap, seq![43u8]);
            assert(text[pos + 1 + gap.len()] == seq![43u8][0]);
            lemma_blanks(text, pos + 1, gap);
            reveal(address_at);
            lemma_blanks(text, pos + mark.len() + piece.len(), last_gap);
            if last_gap.len() > 0 {
                assert(text[pos + mark.len() + piece.len()] == last_gap[0]);
            }
            law_numeral_is_read(start, digits, true);
        },
        Second::Multiple(_) => {
            lemma_pieces(text, pos, seq![44u8], gap + seq![126u8]);
            lemma_pieces(text, pos + 1, gap, seq![126u8]);
            assert(text[pos + 1 + gap.len()] == seq![126u8][0]);
            lemma_blanks(text, pos + 1, gap);
            assert(start.past_spaces() == start);
            law_address_is_read(start, address, last_gap, context, reason);
        },
    }
}

/// Two addresses are read as they were written.
pub proof fn law_two_addresses(
    at: Cursor,
    first: Written,
    first_gap: Seq<u8>,
    gap: Seq<u8>,
    second: Second,
    last_gap: Seq<u8>,
    context: ContextView,
    reason: Seq<char>,
)
    requires
        can_be_written(first) && can_be_written(address_of(second)),
        all_blank(first_gap) && all_blank(gap) && all_blank(last_gap),
        stands_at(
            at.line.text,
            at.line.pos,
            (written_address(first) + first_gap) + (separator(second, gap) + (written_address(
                address_of(second),
            ) + last_gap)),
        ),
        ({
            let behind = at.line.pos + written_address(first).len() + first_gap.len() + separator(
                second,
                gap,
            ).len() + written_address(address_of(second)).len() + last_gap.len();
            &&& ends_before(address_of(second), at.line.text, behind)
            &&& behind < at.line.text.len() ==> !is_white(at.line.text[behind])
        }),
    ensures
        ({
            let behind = at.at_pos(
                at.line.pos + written_address(first).len() + first_gap.len() + separator(
                    second,
                    gap,
                ).len() + written_address(address_of(second)).len() + last_gap.len(),
            );
            let range = range_at(at, context, reason);
            if is_accepted(first, context) && is_accepted(address_of(second), context)
                && go_together(first, second, context.options.posix) {
                &&& range.result is Ok && range.result->Ok_0 == 2
                &&& range.addr1 == Some(meant(first, context))
                &&& range.addr2 == Some(second_meant(second, context))
                &&& range.at.past_spaces() == behind
            } else {
                range.result is Err
            }
        }),
{
    let text = at.line.text;
    let pos = at.line.pos;
    let before = written_address(first) + first_gap;
    let mark = separator(second, gap);
    let rest = mark + (written_address(address_of(second)) + last_gap);
    lemma_starts(first);
    lemma_pieces(text, pos, before, rest);
    lemma_pieces(text, pos, written_address(first), first_gap);
    assert(text[pos] == written_address(first)[0]);
    assert(text[pos + before.len()] == rest[0]);
    assert(rest[0] == 44 || rest[0] == 126);
    assert(at.past_spaces() == at);
    law_address_is_read(at, first, first_gap, context, reason);
    let here = at.at_pos(pos + before.len());
    lemma_second(here, meant(first, context), gap, second, last_gap, context, reason);
    let read = address_at(at, context, reason);
    if read.result is Ok {
        assert(here.past_spaces() == here);
        assert(second_address(read.at, context, meant(first, context), reason) == second_address(
            here,
            context,
            meant(first, context),
            reason,
        ));
    }
}

/// A step is a number: `~`, and `,~`, before another kind of address are in error.
pub proof fn law_step_is_number(
    at: Cursor,
    first: Written,
    first_gap: Seq<u8>,
    multiple: bool,
    gap: Seq<u8>,
    second: Written,
    last_gap: Seq<u8>,
    context: ContextView,
    reason: Seq<char>,
)
    requires
        can_be_written(first) && can_be_written(second),
        !(second is Numeral),
        all_blank(first_gap) && all_blank(gap) && all_blank(last_gap),
        stands_at(
            at.line.text,
            at.line.pos,
            (written_address(first) + first_gap) + ((if multiple {
                seq![44u8] + (gap + seq![126u8])
            } else {
                seq![126u8] + gap
            }) + (written_address(second) + last_gap)),
        ),
        ({
            let behind = at.line.pos + written_address(first).len() + first_gap.len() + gap.len()
                + written_address(second).len() + last_gap.len() + if multiple {
                2int
            } else {
                1
            };
            &&& ends_before(second, at.line.text, behind)
            &&& behind < at.line.text.len() ==> !is_white(at.line.text[behind])
        }),
    ensures
        range_at(at, context, reason).result is Err,
{
    let text = at.line.text;
    let pos = at.line.pos;
    let before = written_address(first) + first_gap;
    let mark = if multiple {
        seq![44u8] + (gap + seq![126u8])
    } else {
        seq![126u8] + gap
    };
    let piece = written_address(second);
    let rest = mark + (piece + last_gap);
    lemma_starts(first);
    lemma_starts(second);
    lemma_pieces(text, pos, before, rest);
    lemma_pieces(text, pos, written_address(first), first_gap);
    assert(text[pos] == written_address(first)[0]);
    let here = at.at_pos(pos + before.len());
    let from = pos + before.len();
    lemma_pieces(text, from, mark, piece + last_gap);
    assert(text[from] == mark[0]);
    assert(at.past_spaces() == at);
    law_address_is_read(at, first, first_gap, context, reason);
    let start = at.at_pos(from + mark.len());
    lemma_pieces(text, from + mark.len(), piece, last_gap);
    assert(text[from + mark.len()] == piece[0]);
    if multiple {
        lemma_pieces(text, from, seq![44u8], gap + seq![126u8]);
        lemma_pieces(text, from + 1, gap, seq![126u8]);
        assert(text[from + 1 + gap.len()] == seq![126u8][0]);
    } else {
        lemma_pieces(text, from, seq![126u8], gap);
    }
    lemma_blanks(text, from + 1, gap);
    assert(here.past_spaces() == here);
    assert(start.past_spaces() == start);
    law_address_is_read(start, second, last_gap, context, reason);
}

/// Behind a `,` or a `~`, something that is no address is in error.
pub proof fn law_second_address_must_follow(
    at: Cursor,
    first: Written,
    first_gap: Seq<u8>,
    separator: u8,
    gap: Seq<u8>,
    context: ContextView,
    reason: Seq<char>,
)
    requires
        can_be_written(first),
        separator == 44 || separator == 126,
        all_blank(first_gap) && all_blank(gap),
        stands_at(
            at.line.text,
            at.line.pos,
            (written_address(first) + first_gap) + (seq![separator] + gap),
        ),
        ({
            let behind = at.line.pos + written_address(first).len() + first_gap.len() + 1
                + gap.len();
            &&& behind < at.line.text.len()
            &&& {
                let b = at.line.text[behind];
                !is_white(b) && !(48 <= b <= 57) && b != 47 && b != 92 && b != 36 && b != 43 && b
                    != 126
            }
        }),
    ensures
        range_at(at, context, reason).result is Err,
{
    let text = at.line.text;
    let pos = at.line.pos;
    let before = written_address(first) + first_gap;
    let rest = seq![separator] + gap;
    lemma_starts(first);
    lemma_pieces(text, pos, before, rest);
    lemma_pieces(text, pos, written_address(first), first_gap);
    assert(text[pos] == written_address(first)[0]);
    let from = pos + before.len();
    let here = at.at_pos(from);
    lemma_pieces(text, from, seq![separator], gap);
    assert(text[from] == seq![separator][0]);
    lemma_blanks(text, from + 1, gap);
    assert(at.past_spaces() == at);
    assert(here.past_spaces() == here);
    law_address_is_read(at, first, first_gap, context, reason);
}

} // verus!
