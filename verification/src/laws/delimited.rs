//! Regular expressions and strings between delimiters.

use crate::command::{CharacterMode, ContextView, DataView, RegexMode, TransliterationView, image};
use crate::compiler::cursor::{Cursor, done, fail};
use crate::compiler::sequence::command_at;
use crate::compiler::table::{CommandHandler, handle};
use crate::compiler::transliterate::trans_command;
use crate::delimited_parser::{
    bracket_at, bracket_from, class_end, delimited_regex, escape_at, escaped, lemma_escape_end,
    regex_from, transliteration_from,
};
use crate::laws::escapes::{base_named, control_letters, law_named_escapes, law_no_other_escapes};
use crate::laws::replacements::is_delimiter;
use crate::laws::writing::{
    end_of, gave, lemma_bare, lemma_pieces, plain_command, rest_is, stands_at,
};
use vstd::prelude::*;
use vstd::utf8::{decode_utf8, valid_utf8};

verus! {

/// Whether the byte is special in a regular expression: one of `.`, `*`, `[`, `]`, `^` and `$`,
/// and in an extended one also `+`, `?`, `(`, `)`, `{`, `}` and `|`.
pub open spec fn is_special(b: u8, mode: RegexMode) -> bool {
    ||| b == 46 || b == 42 || b == 91 || b == 93 || b == 94 || b == 36
    ||| mode == RegexMode::Extended && (b == 43 || b == 63 || b == 40 || b == 41 || b == 123 || b
        == 125 || b == 124)
}

/// How a regular expression without bracket expressions is written between delimiters: with a
/// backslash before the delimiter, and with `\n` for a line feed.
pub open spec fn written_regex(pattern: Seq<u8>, delimiter: u8) -> Seq<u8>
    decreases pattern.len(),
{
    if pattern.len() == 0 {
        Seq::empty()
    } else if pattern[0] == 92 && pattern.len() >= 2 {
        seq![92u8, pattern[1]] + written_regex(pattern.skip(2), delimiter)
    } else if pattern[0] == delimiter {
        seq![92u8, delimiter] + written_regex(pattern.skip(1), delimiter)
    } else if pattern[0] == 10 {
        seq![92u8, 110] + written_regex(pattern.skip(1), delimiter)
    } else {
        seq![pattern[0]] + written_regex(pattern.skip(1), delimiter)
    }
}

/// Whether the expression has no bracket expression, does not break off behind a backslash, and
/// has no backslash before the delimiter or an `n`.
pub open spec fn is_plain_regex(pattern: Seq<u8>, delimiter: u8) -> bool
    decreases pattern.len(),
{
    if pattern.len() == 0 {
        true
    } else if pattern[0] == 92 {
        &&& pattern.len() >= 2
        &&& pattern[1] != delimiter && pattern[1] != 110
        &&& is_plain_regex(pattern.skip(2), delimiter)
    } else {
        pattern[0] != 91 && is_plain_regex(pattern.skip(1), delimiter)
    }
}

/// An expression is read as it was written.
proof fn lemma_regex_read(
    at: Cursor,
    out: Seq<u8>,
    pattern: Seq<u8>,
    delimiter: u8,
    mode: RegexMode,
    posix: bool,
)
    requires
        is_delimiter(delimiter),
        !is_special(delimiter, mode),
        is_plain_regex(pattern, delimiter),
        stands_at(at.line.text, at.line.pos, written_regex(pattern, delimiter) + seq![delimiter]),
    ensures
        regex_from(at, out, delimiter, mode, posix) == done(
            at.at_pos(at.line.pos + written_regex(pattern, delimiter).len()),
            out + pattern,
        ),
    decreases pattern.len(),
{
    let text = at.line.text;
    let pos = at.line.pos;
    if pattern.len() == 0 {
        assert(written_regex(pattern, delimiter) + seq![delimiter] =~= seq![delimiter]);
        assert(text[pos] == seq![delimiter][0]);
        assert(out + pattern =~= out);
        assert(at.at_pos(pos) == at);
    } else {
        let count: int = if pattern[0] == 92 {
            2
        } else {
            1
        };
        let unit: Seq<u8> = if pattern[0] == 92 {
            seq![92u8, pattern[1]]
        } else if pattern[0] == delimiter {
            seq![92u8, delimiter]
        } else if pattern[0] == 10 {
            seq![92u8, 110]
        } else {
            seq![pattern[0]]
        };
        let later = pattern.skip(count);
        let rest = written_regex(later, delimiter) + seq![delimiter];
        assert(written_regex(pattern, delimiter) + seq![delimiter] =~= unit + rest);
        lemma_pieces(text, pos, unit, rest);
        assert(text[pos] == unit[0]);
        if unit.len() == 2 {
            assert(text[pos + 1] == unit[1]);
        }
        let behind = at.at_pos(pos + unit.len());
        let longer = out + pattern.take(count);
        assert(regex_from(at, out, delimiter, mode, posix) == regex_from(
            behind,
            longer,
            delimiter,
            mode,
            posix,
        )) by {
            if count == 2 {
                assert(out + seq![92u8, pattern[1]] =~= longer);
            } else {
                assert(out.push(pattern[0]) =~= longer);
                assert(out + seq![pattern[0]] =~= longer);
            }
        }
        lemma_regex_read(behind, longer, later, delimiter, mode, posix);
        assert(longer + later =~= out + pattern);
        assert(behind.at_pos(pos + unit.len() + written_regex(later, delimiter).len())
            == at.at_pos(pos + written_regex(pattern, delimiter).len()));
    }
}

/// Between delimiters, an expression stands as it is, but for a backslash before the delimiter,
/// which is left out, and `\n`, which is a line feed. All other backslashes stay.
pub proof fn law_regex_between_delimiters(
    at: Cursor,
    pattern: Seq<u8>,
    delimiter: u8,
    mode: RegexMode,
    posix: bool,
)
    requires
        is_delimiter(delimiter),
        !is_special(delimiter, mode),
        is_plain_regex(pattern, delimiter),
        stands_at(
            at.line.text,
            at.line.pos,
            seq![delimiter] + (written_regex(pattern, delimiter) + seq![delimiter]),
        ),
    ensures
        delimited_regex(at, mode, posix) == done(
            at.at_pos(at.line.pos + 1 + written_regex(pattern, delimiter).len()),
            pattern,
        ),
{
    reveal(delimited_regex);
    let rest = written_regex(pattern, delimiter) + seq![delimiter];
    lemma_pieces(at.line.text, at.line.pos, seq![delimiter], rest);
    assert(at.line.text[at.line.pos] == seq![delimiter][0]);
    lemma_regex_read(at.next(), Seq::empty(), pattern, delimiter, mode, posix);
    assert(Seq::<u8>::empty() + pattern =~= pattern);
}

/// A delimiter that is special in the expression keeps the backslash that stands before it: it
/// stands for the character, not for what that means in an expression.
pub proof fn law_special_delimiter_is_literal(
    at: Cursor,
    delimiter: u8,
    mode: RegexMode,
    posix: bool,
)
    requires
        is_delimiter(delimiter),
        is_special(delimiter, mode),
        stands_at(at.line.text, at.line.pos, seq![delimiter, 92u8, delimiter, delimiter]),
    ensures
        delimited_regex(at, mode, posix) == done(
            at.at_pos(at.line.pos + 3),
            seq![92u8, delimiter],
        ),
{
    reveal(delimited_regex);
    let text = at.line.text;
    let pos = at.line.pos;
    let piece = seq![delimiter, 92u8, delimiter, delimiter];
    assert(text[pos] == piece[0] && text[pos + 1] == piece[1] && text[pos + 2] == piece[2]
        && text[pos + 3] == piece[3]);
    assert(Seq::<u8>::empty() + seq![92u8, delimiter] =~= seq![92u8, delimiter]);
    let stop = at.at_pos(pos + 3);
    assert(regex_from(stop, seq![92u8, delimiter], delimiter, mode, posix) == done(
        stop,
        seq![92u8, delimiter],
    ));
}

/// The end of the line before the closing delimiter is an error.
pub proof fn law_regex_must_end(
    at: Cursor,
    pattern: Seq<u8>,
    slash: bool,
    delimiter: u8,
    mode: RegexMode,
    posix: bool,
)
    requires
        is_delimiter(delimiter),
        rest_is(at, seq![delimiter] + (pattern + backslash_if(slash))),
        forall|i: int|
            0 <= i < pattern.len() ==> #[trigger] pattern[i] != 92 && pattern[i] != 91
                && pattern[i] != delimiter,
    ensures
        delimited_regex(at, mode, posix) == fail::<Seq<u8>>(
            end_of(at),
            "unterminated regular expression"@,
        ),
{
    reveal(delimited_regex);
    lemma_pieces(at.line.text, at.line.pos, seq![delimiter], pattern + backslash_if(slash));
    assert(at.line.text[at.line.pos] == seq![delimiter][0]);
    lemma_no_end(at.next(), Seq::empty(), pattern, slash, delimiter, mode, posix);
}

/// A backslash, or nothing.
pub open spec fn backslash_if(slash: bool) -> Seq<u8> {
    if slash {
        seq![92u8]
    } else {
        seq![]
    }
}

/// The same from a position on.
proof fn lemma_no_end(
    at: Cursor,
    out: Seq<u8>,
    pattern: Seq<u8>,
    slash: bool,
    delimiter: u8,
    mode: RegexMode,
    posix: bool,
)
    requires
        delimiter != 92,
        rest_is(at, pattern + backslash_if(slash)),
        forall|i: int|
            0 <= i < pattern.len() ==> #[trigger] pattern[i] != 92 && pattern[i] != 91
                && pattern[i] != delimiter,
    ensures
        regex_from(at, out, delimiter, mode, posix) == fail::<Seq<u8>>(
            end_of(at),
            "unterminated regular expression"@,
        ),
    decreases pattern.len(),
{
    lemma_pieces(at.line.text, at.line.pos, pattern, backslash_if(slash));
    if pattern.len() == 0 {
        if slash {
            assert(at.line.text[at.line.pos] == backslash_if(slash)[0]);
            assert(at.next() == end_of(at));
        } else {
            assert(at == end_of(at));
        }
    }
    if pattern.len() > 0 {
        assert(at.line.text[at.line.pos] == pattern[0]);
        let later = pattern.skip(1);
        assert forall|i: int| 0 <= i < later.len() implies #[trigger] later[i] != 92 && later[i]
            != 91 && later[i] != delimiter by {
            assert(pattern[i + 1] != 92);
        }
        let rest = later + backslash_if(slash);
        assert forall|j: int| at.line.pos + 1 <= j < at.line.pos + 1 + rest.len() implies
            #[trigger] at.line.text[j] == rest[j - (at.line.pos + 1)] by {
            assert(at.line.text[j] == (pattern + backslash_if(slash))[j - at.line.pos]);
        }
        lemma_no_end(at.next(), out.push(pattern[0]), later, slash, delimiter, mode, posix);
    }
}

/// The members of a bracket expression are read as they stand.
proof fn lemma_members_read(at: Cursor, out: Seq<u8>, members: Seq<u8>, posix: bool)
    requires
        stands_at(at.line.text, at.line.pos, members + seq![93u8]),
        forall|i: int|
            0 <= i < members.len() ==> #[trigger] members[i] != 93 && members[i] != 91
                && members[i] != 92,
    ensures
        bracket_from(at, out, posix) == done(
            at.at_pos(at.line.pos + members.len() + 1),
            out + members + seq![93u8],
        ),
    decreases members.len(),
{
    let text = at.line.text;
    let pos = at.line.pos;
    lemma_pieces(text, pos, members, seq![93u8]);
    if members.len() == 0 {
        assert(text[pos] == seq![93u8][0]);
        assert(out.push(93) =~= out + members + seq![93u8]);
        assert(at.next() == at.at_pos(pos + 1));
    } else {
        assert(text[pos] == members[0]);
        let later = members.skip(1);
        assert(members + seq![93u8] =~= seq![members[0]] + (later + seq![93u8]));
        lemma_pieces(text, pos, seq![members[0]], later + seq![93u8]);
        assert forall|i: int| 0 <= i < later.len() implies #[trigger] later[i] != 93 && later[i]
            != 91 && later[i] != 92 by {
            assert(members[i + 1] != 93);
        }
        lemma_members_read(at.next(), out + seq![members[0]], later, posix);
        assert(out + seq![members[0]] + later + seq![93u8] =~= out + members + seq![93u8]);
        assert(at.next().at_pos(pos + 1 + later.len() + 1) == at.at_pos(
            pos + members.len() + 1,
        ));
    }
}

/// A bracket expression stands for itself, the delimiter in it included. A `]` that comes first
/// in it is a member, and gets a backslash.
#[verifier::spinoff_prover]
#[verifier::rlimit(30)]
pub proof fn law_bracket_expression(
    at: Cursor,
    negated: bool,
    closing: bool,
    members: Seq<u8>,
    delimiter: u8,
    mode: RegexMode,
    posix: bool,
)
    requires
        is_delimiter(delimiter),
        delimiter != 91,
        forall|i: int|
            0 <= i < members.len() ==> #[trigger] members[i] != 93 && members[i] != 91
                && members[i] != 92,
        members.len() > 0 || closing,
        !negated && !closing ==> members[0] != 94,
        stands_at(
            at.line.text,
            at.line.pos,
            seq![delimiter, 91u8] + (if negated {
                seq![94u8]
            } else {
                Seq::empty()
            } + (if closing {
                seq![93u8]
            } else {
                Seq::empty()
            } + (members + seq![93u8] + seq![delimiter]))),
        ),
    ensures
        delimited_regex(at, mode, posix).result is Ok,
        delimited_regex(at, mode, posix).result->Ok_0 == seq![91u8] + if negated {
            seq![94u8]
        } else {
            Seq::empty()
        } + if closing {
            seq![92u8, 93u8]
        } else {
            Seq::empty()
        } + members + seq![93u8],
{
    reveal(delimited_regex);
    let text = at.line.text;
    let pos = at.line.pos;
    let a: Seq<u8> = if negated {
        seq![94u8]
    } else {
        Seq::empty()
    };
    let b: Seq<u8> = if closing {
        seq![93u8]
    } else {
        Seq::empty()
    };
    let rest = members + seq![93u8] + seq![delimiter];
    let open = seq![delimiter, 91u8];
    lemma_pieces(text, pos, open, a + (b + rest));
    lemma_pieces(text, pos + 2, a, b + rest);
    lemma_pieces(text, pos + 2 + a.len(), b, rest);
    lemma_pieces(text, pos + 2 + a.len() + b.len(), members + seq![93u8], seq![delimiter]);
    lemma_pieces(text, pos + 2 + a.len() + b.len(), members, seq![93u8]);
    assert(text[pos] == open[0] && text[pos + 1] == open[1]);
    let start = at.at_pos(pos + 2);
    let head = seq![91u8];
    assert(Seq::<u8>::empty().push(91) =~= head);
    if negated {
        assert(text[pos + 2] == a[0]);
        assert(head.push(94) =~= head + a);
    } else {
        assert(head + a =~= head);
    }
    let second = start.at_pos(pos + 2 + a.len());
    if closing {
        assert(text[pos + 2 + a.len()] == b[0]);
    } else {
        assert(text[pos + 2 + a.len()] == members[0]);
    }
    let third = start.at_pos(pos + 2 + a.len() + b.len());
    let spelled: Seq<u8> = if closing {
        head + a + seq![92u8, 93u8]
    } else {
        head + a
    };
    lemma_members_read(third, spelled, members, posix);
    assert(bracket_at(start, head, posix) == bracket_from(third, spelled, posix));
    let stop = third.at_pos(third.line.pos + members.len() + 1);
    assert(text[stop.line.pos] == seq![delimiter][0]);
    let whole = spelled + members + seq![93u8];
    assert(regex_from(stop, whole, delimiter, mode, posix) == done(stop, whole));
    assert(regex_from(at.next(), Seq::empty(), delimiter, mode, posix) == regex_from(
        stop,
        whole,
        delimiter,
        mode,
        posix,
    ));
    assert(whole =~= seq![91u8] + a + if closing {
        seq![92u8, 93u8]
    } else {
        Seq::empty()
    } + members + seq![93u8]);
}

/// In a bracket expression, a backslash and a letter that names a control character stand for
/// that character, except in POSIX mode, where a backslash is an ordinary member.
pub proof fn law_escapes_in_bracket(
    at: Cursor,
    k: int,
    delimiter: u8,
    mode: RegexMode,
    posix: bool,
)
    requires
        is_delimiter(delimiter),
        delimiter != 91,
        0 <= k < 7,
        stands_at(
            at.line.text,
            at.line.pos,
            seq![delimiter, 91u8, 92u8, control_letters()[k], 93u8, delimiter],
        ),
    ensures
        delimited_regex(at, mode, posix).result is Ok,
        delimited_regex(at, mode, posix).result->Ok_0 == if posix {
            seq![91u8, 92u8, 92u8, control_letters()[k], 93u8]
        } else {
            seq![91u8, (7 + k) as u8, 93u8]
        },
{
    let text = at.line.text;
    let pos = at.line.pos;
    let c = control_letters()[k];
    let piece = seq![delimiter, 91u8, 92u8, c, 93u8, delimiter];
    assert(text[pos] == piece[0] && text[pos + 1] == piece[1] && text[pos + 2] == piece[2]
        && text[pos + 3] == piece[3] && text[pos + 4] == piece[4] && text[pos + 5] == piece[5]);
    let head = seq![91u8];
    let start = at.at_pos(pos + 2);
    let last = at.at_pos(pos + 4);
    law_named_escapes(text, pos + 3, k);
    let members: Seq<u8> = if posix {
        seq![92u8, 92u8, c]
    } else {
        seq![(7 + k) as u8]
    };
    if posix {
        let middle = at.at_pos(pos + 3);
        assert(bracket_from(start, head, posix) == bracket_from(
            middle,
            head + seq![92u8, 92u8],
            posix,
        ));
        assert(bracket_from(middle, head + seq![92u8, 92u8], posix) == bracket_from(
            last,
            head + seq![92u8, 92u8] + seq![c],
            posix,
        ));
        assert(head + seq![92u8, 92u8] + seq![c] =~= head + members);
    } else {
        assert(bracket_from(start, head, posix) == bracket_from(last, head + members, posix));
    }
    lemma_bracket_closes(at, head + members, delimiter, mode, posix);
    assert((head + members).push(93) =~= if posix {
        seq![91u8, 92u8, 92u8, c, 93u8]
    } else {
        seq![91u8, (7 + k) as u8, 93u8]
    });
}

/// In a bracket expression, a backslash before a byte with which it names none is an ordinary
/// member, and so is the byte.
pub proof fn law_backslash_in_bracket(
    at: Cursor,
    c: u8,
    delimiter: u8,
    mode: RegexMode,
    posix: bool,
)
    requires
        is_delimiter(delimiter),
        delimiter != 91,
        c != 91 && c != 92 && c != 93 && c != 99,
        !control_letters().contains(c),
        base_named(c) == 0,
        stands_at(
            at.line.text,
            at.line.pos,
            seq![delimiter, 91u8, 92u8, c, 93u8, delimiter],
        ),
    ensures
        delimited_regex(at, mode, posix).result is Ok,
        delimited_regex(at, mode, posix).result->Ok_0 == seq![91u8, 92u8, 92u8, c, 93u8],
{
    let text = at.line.text;
    let pos = at.line.pos;
    let piece = seq![delimiter, 91u8, 92u8, c, 93u8, delimiter];
    assert(text[pos] == piece[0] && text[pos + 1] == piece[1] && text[pos + 2] == piece[2]
        && text[pos + 3] == piece[3] && text[pos + 4] == piece[4] && text[pos + 5] == piece[5]);
    let head = seq![91u8];
    let start = at.at_pos(pos + 2);
    let middle = at.at_pos(pos + 3);
    let last = at.at_pos(pos + 4);
    law_no_other_escapes(text, pos + 3);
    assert(bracket_from(start, head, posix) == bracket_from(
        middle,
        head + seq![92u8, 92u8],
        posix,
    ));
    assert(bracket_from(middle, head + seq![92u8, 92u8], posix) == bracket_from(
        last,
        head + seq![92u8, 92u8] + seq![c],
        posix,
    ));
    lemma_bracket_closes(at, head + seq![92u8, 92u8] + seq![c], delimiter, mode, posix);
    assert((head + seq![92u8, 92u8] + seq![c]).push(93) =~= seq![91u8, 92u8, 92u8, c, 93u8]);
}

/// What an expression gives that is one bracket expression of two bytes, which gave `spelled`.
proof fn lemma_bracket_closes(
    at: Cursor,
    spelled: Seq<u8>,
    delimiter: u8,
    mode: RegexMode,
    posix: bool,
)
    requires
        is_delimiter(delimiter),
        delimiter != 91,
        0 <= at.line.pos,
        at.line.pos + 5 < at.line.text.len(),
        at.line.text[at.line.pos] == delimiter,
        at.line.text[at.line.pos + 1] == 91,
        at.line.text[at.line.pos + 2] == 92,
        at.line.text[at.line.pos + 4] == 93,
        at.line.text[at.line.pos + 5] == delimiter,
        bracket_from(at.at_pos(at.line.pos + 2), seq![91u8], posix) == bracket_from(
            at.at_pos(at.line.pos + 4),
            spelled,
            posix,
        ),
    ensures
        delimited_regex(at, mode, posix) == done(at.at_pos(at.line.pos + 5), spelled.push(93)),
{
    reveal(delimited_regex);
    let pos = at.line.pos;
    let start = at.at_pos(pos + 2);
    let stop = at.at_pos(pos + 5);
    let whole = spelled.push(93);
    assert(Seq::<u8>::empty().push(91) =~= seq![91u8]);
    assert(bracket_from(at.at_pos(pos + 4), spelled, posix) == done(stop, whole));
    assert(bracket_at(start, seq![91u8], posix) == done(stop, whole));
    assert(regex_from(stop, whole, delimiter, mode, posix) == done(stop, whole));
    assert(regex_from(at.next(), Seq::empty(), delimiter, mode, posix) == regex_from(
        stop,
        whole,
        delimiter,
        mode,
        posix,
    ));
}

/// The name of a character class ends where it is closed.
proof fn lemma_class_read(text: Seq<u8>, pos: int, name: Seq<u8>, kind: u8)
    requires
        stands_at(text, pos, name + seq![kind, 93u8]),
        forall|i: int| 0 <= i < name.len() ==> #[trigger] name[i] != kind,
    ensures
        class_end(text, pos, kind) == Some(pos + name.len() + 2),
    decreases name.len(),
{
    let close = seq![kind, 93u8];
    lemma_pieces(text, pos, name, close);
    if name.len() == 0 {
        assert(text[pos] == close[0] && text[pos + 1] == close[1]);
    } else {
        assert(text[pos] == name[0]);
        assert(text[pos + name.len() + 1] == close[1]);
        let later = name.skip(1);
        assert(name + close =~= seq![name[0]] + (later + close));
        lemma_pieces(text, pos, seq![name[0]], later + close);
        assert forall|i: int| 0 <= i < later.len() implies #[trigger] later[i] != kind by {
            assert(name[i + 1] != kind);
        }
        lemma_class_read(text, pos + 1, later, kind);
    }
}

/// A character class, an equivalence class or a collating symbol in a bracket expression stands
/// for itself.
pub proof fn law_class_in_bracket(
    at: Cursor,
    kind: u8,
    name: Seq<u8>,
    delimiter: u8,
    mode: RegexMode,
    posix: bool,
)
    requires
        is_delimiter(delimiter),
        delimiter != 91,
        kind == 58 || kind == 46 || kind == 61,
        forall|i: int| 0 <= i < name.len() ==> #[trigger] name[i] != kind,
        stands_at(
            at.line.text,
            at.line.pos,
            seq![delimiter, 91u8, 91u8, kind] + ((name + seq![kind, 93u8]) + seq![93u8, delimiter]),
        ),
    ensures
        delimited_regex(at, mode, posix).result is Ok,
        delimited_regex(at, mode, posix).result->Ok_0 == seq![91u8, 91u8, kind] + name + seq![
            kind,
            93u8,
            93u8,
        ],
{
    let text = at.line.text;
    let pos = at.line.pos;
    let open = seq![delimiter, 91u8, 91u8, kind];
    let close = seq![93u8, delimiter];
    let body = name + seq![kind, 93u8];
    lemma_pieces(text, pos, open, body + close);
    lemma_pieces(text, pos + 4, body, close);
    assert(text[pos] == open[0] && text[pos + 1] == open[1] && text[pos + 2] == open[2]
        && text[pos + 3] == open[3]);
    let last = pos + 4 + body.len();
    assert(text[last] == close[0] && text[last + 1] == close[1]);
    lemma_class_read(text, pos + 4, name, kind);
    let head = Seq::<u8>::empty().push(91);
    let out = head + text.subrange(pos + 2, last);
    lemma_class_text(text, pos, kind, name);
    lemma_class_steps(at.at_pos(pos + 2), kind, last, head, posix);
    let stop = at.at_pos(last + 1);
    assert(bracket_at(at.at_pos(pos + 2), head, posix) == done(stop, out.push(93)));
    assert(regex_from(stop, out.push(93), delimiter, mode, posix) == done(stop, out.push(93)));
    assert(regex_from(at.next(), Seq::empty(), delimiter, mode, posix) == regex_from(
        stop,
        out.push(93),
        delimiter,
        mode,
        posix,
    ));
    reveal(delimited_regex);
}

/// The text of a bracket expression that holds one class.
proof fn lemma_class_text(text: Seq<u8>, pos: int, kind: u8, name: Seq<u8>)
    requires
        stands_at(text, pos + 4, name + seq![kind, 93u8]),
        0 <= pos,
        text[pos + 2] == 91,
        text[pos + 3] == kind,
    ensures
        (Seq::<u8>::empty().push(91) + text.subrange(pos + 2, pos + 6 + name.len())).push(93)
            == seq![91u8, 91u8, kind] + name + seq![kind, 93u8, 93u8],
{
    let body = name + seq![kind, 93u8];
    let head = Seq::<u8>::empty().push(91);
    let last = pos + 6 + name.len();
    let whole = seq![91u8, 91u8, kind] + name + seq![kind, 93u8, 93u8];
    let read = (head + text.subrange(pos + 2, last)).push(93);
    assert forall|j: int| 0 <= j < whole.len() implies #[trigger] read[j] == whole[j] by {
        if 3 <= j < whole.len() - 1 {
            assert(text[pos + 1 + j] == body[j - 3]);
        }
    }
    assert(read =~= whole);
}

/// A class is read up to its end, where the bracket expression ends, too.
proof fn lemma_class_steps(at: Cursor, kind: u8, last: int, head: Seq<u8>, posix: bool)
    requires
        0 <= at.line.pos,
        at.line.pos + 2 < last < at.line.text.len(),
        at.line.text[at.line.pos] == 91,
        at.line.text[at.line.pos + 1] == kind,
        kind == 58 || kind == 46 || kind == 61,
        class_end(at.line.text, at.line.pos + 2, kind) == Some(last),
        at.line.text[last] == 93,
    ensures
        bracket_at(at, head, posix) == done(
            at.at_pos(last + 1),
            (head + at.line.text.subrange(at.line.pos, last)).push(93),
        ),
{
    let mid = at.at_pos(last);
    let out = head + at.line.text.subrange(at.line.pos, last);
    assert(bracket_at(at, head, posix) == bracket_from(at, head, posix));
    assert(bracket_from(at, head, posix) == bracket_from(mid, out, posix));
    assert(bracket_from(mid, out, posix) == done(mid.next(), out.push(93)));
}

/// How a string of `y` is written: with a backslash before a backslash and the delimiter, and
/// with `\n` for a line feed.
pub open spec fn written_string(bytes: Seq<u8>, delimiter: u8) -> Seq<u8>
    decreases bytes.len(),
{
    if bytes.len() == 0 {
        Seq::empty()
    } else if bytes[0] == 92 || bytes[0] == delimiter {
        seq![92u8, bytes[0]] + written_string(bytes.skip(1), delimiter)
    } else if bytes[0] == 10 {
        seq![92u8, 110] + written_string(bytes.skip(1), delimiter)
    } else {
        seq![bytes[0]] + written_string(bytes.skip(1), delimiter)
    }
}

/// A string of `y` is read as it was written.
proof fn lemma_string_read(at: Cursor, out: Seq<u8>, bytes: Seq<u8>, delimiter: u8)
    requires
        is_delimiter(delimiter),
        stands_at(at.line.text, at.line.pos, written_string(bytes, delimiter) + seq![delimiter]),
    ensures
        transliteration_from(at, out, delimiter) == done(
            at.at_pos(at.line.pos + written_string(bytes, delimiter).len()),
            out + bytes,
        ),
    decreases bytes.len(),
{
    let text = at.line.text;
    let pos = at.line.pos;
    if bytes.len() == 0 {
        assert(written_string(bytes, delimiter) + seq![delimiter] =~= seq![delimiter]);
        assert(text[pos] == seq![delimiter][0]);
        assert(out + bytes =~= out);
        assert(at.at_pos(pos) == at);
    } else {
        let unit: Seq<u8> = if bytes[0] == 92 || bytes[0] == delimiter {
            seq![92u8, bytes[0]]
        } else if bytes[0] == 10 {
            seq![92u8, 110]
        } else {
            seq![bytes[0]]
        };
        let later = bytes.skip(1);
        let rest = written_string(later, delimiter) + seq![delimiter];
        assert(written_string(bytes, delimiter) + seq![delimiter] =~= unit + rest);
        lemma_pieces(text, pos, unit, rest);
        assert(text[pos] == unit[0]);
        if unit.len() == 2 {
            assert(text[pos + 1] == unit[1]);
        }
        let behind = at.at_pos(pos + unit.len());
        assert(transliteration_from(at, out, delimiter) == transliteration_from(
            behind,
            out.push(bytes[0]),
            delimiter,
        ));
        lemma_string_read(behind, out.push(bytes[0]), later, delimiter);
        assert(out.push(bytes[0]) + later =~= out + bytes);
        assert(behind.at_pos(pos + unit.len() + written_string(later, delimiter).len())
            == at.at_pos(pos + written_string(bytes, delimiter).len()));
    }
}

/// `y` maps the units of the string that is written first to those of the second, by bytes or
/// by characters, if there are as many and the command ends behind them; else it is an error.
pub proof fn law_strings_are_mapped(
    at: Cursor,
    source: Seq<u8>,
    target: Seq<u8>,
    delimiter: u8,
    context: ContextView,
    reason: Seq<char>,
)
    requires
        is_delimiter(delimiter),
        stands_at(
            at.line.text,
            at.line.pos,
            seq![121u8, delimiter] + ((written_string(source, delimiter) + seq![delimiter]) + (
            written_string(target, delimiter) + seq![delimiter])),
        ),
        context.options.character_mode == CharacterMode::Utf8 ==> valid_utf8(source)
            && valid_utf8(target),
    ensures
        ({
            let after = command_at(at, context, reason);
            let behind = at.at_pos(
                at.line.pos + 4 + written_string(source, delimiter).len() + written_string(
                    target,
                    delimiter,
                ).len(),
            );
            let bytes = context.options.character_mode == CharacterMode::Byte;
            let paired = if bytes {
                source.len() == target.len()
            } else {
                decode_utf8(source).len() == decode_utf8(target).len()
            };
            let ends = behind.eol() || behind.byte() == 59 || behind.byte() == 125;
            if paired && ends {
                gave(
                    after,
                    if behind.sees(';') {
                        behind.next()
                    } else {
                        behind
                    },
                    plain_command(
                        'y',
                        at.location(),
                        DataView::Transliteration(
                            if bytes {
                                TransliterationView::Bytes(source, target)
                            } else {
                                TransliterationView::Text(decode_utf8(source), decode_utf8(target))
                            },
                        ),
                    ),
                    context,
                )
            } else {
                after.result is Err
            }
        }),
{
    let text = at.line.text;
    let pos = at.line.pos;
    let open = seq![121u8, delimiter];
    let first = written_string(source, delimiter) + seq![delimiter];
    let second = written_string(target, delimiter) + seq![delimiter];
    lemma_pieces(text, pos, open, first + second);
    lemma_pieces(text, pos + 2, first, second);
    assert(text[pos] == open[0] && text[pos + 1] == open[1]);
    let start = at.next();
    lemma_string_read(start.next(), Seq::empty(), source, delimiter);
    assert(Seq::<u8>::empty() + source =~= source);
    let middle = start.next().at_pos(pos + 2 + first.len() - 1);
    assert(text[pos + 2 + first.len() - 1] == first[first.len() - 1]);
    lemma_string_read(middle.next(), Seq::empty(), target, delimiter);
    assert(Seq::<u8>::empty() + target =~= target);
    lemma_bare(at, context, reason, CommandHandler::Trans);
    reveal(handle);
    reveal(trans_command);
    let last = middle.next().at_pos(pos + 1 + first.len() + second.len());
    assert(last.next() == at.at_pos(pos + 2 + first.len() + second.len()));
    assert(text[pos + 1 + first.len() + second.len()] == second[second.len() - 1]);
}

/// A transliteration turns a unit of the first string into the one at the same place in the
/// second, the last such place if there are several.
pub proof fn law_unit_is_mapped<T>(source: Seq<T>, target: Seq<T>, i: int)
    requires
        source.len() <= target.len(),
        0 <= i < source.len(),
        forall|j: int| i < j < source.len() ==> #[trigger] source[j] != source[i],
    ensures
        image(source, target, source[i]) == target[i],
    decreases source.len(),
{
    let before = source.drop_last();
    if i < source.len() - 1 {
        assert(source[source.len() - 1] != source[i]);
        assert(before[i] == source[i]);
        assert forall|j: int| i < j < before.len() implies #[trigger] before[j] != before[i] by {
            assert(source[j] != source[i]);
        }
        law_unit_is_mapped(before, target, i);
    }
}

/// A transliteration leaves what is not in the first string as it is.
pub proof fn law_other_units_stay<T>(source: Seq<T>, target: Seq<T>, item: T)
    requires
        forall|j: int| 0 <= j < source.len() ==> #[trigger] source[j] != item,
    ensures
        image(source, target, item) == item,
    decreases source.len(),
{
    if source.len() > 0 {
        let before = source.drop_last();
        assert(source[source.len() - 1] != item);
        assert forall|j: int| 0 <= j < before.len() implies #[trigger] before[j] != item by {
            assert(source[j] != item);
        }
        law_other_units_stay(before, target, item);
    }
}

/// In a string of `y`, a backslash before anything that it has no meaning with stays, and an
/// escape sequence stands for its byte.
pub proof fn law_escapes_in_strings(at: Cursor, out: Seq<u8>, delimiter: u8)
    requires
        0 <= at.line.pos,
        at.line.pos + 1 < at.line.text.len(),
        at.line.text[at.line.pos] == 92,
        delimiter != 92,
    ensures
        ({
            let b = at.line.text[at.line.pos + 1];
            let behind = at.at_pos(at.line.pos + 2);
            let read = transliteration_from(at, out, delimiter);
            &&& b == delimiter || b == 92 ==> read == transliteration_from(
                behind,
                out + seq![b],
                delimiter,
            )
            &&& b != delimiter && b == 110 ==> read == transliteration_from(
                behind,
                out + seq![10u8],
                delimiter,
            )
            &&& b != delimiter && b == 116 ==> read == transliteration_from(
                behind,
                out + seq![9u8],
                delimiter,
            )
            &&& b != delimiter && b != 92 && !(97 <= b <= 122) ==> read == transliteration_from(
                behind,
                out + seq![92u8, b],
                delimiter,
            )
        }),
{
    let b = at.line.text[at.line.pos + 1];
    assert(out.push(b) =~= out + seq![b]);
    assert(out.push(10) =~= out + seq![10u8]);
    assert(out.push(9) =~= out + seq![9u8]);
    assert(out + escaped(b) =~= out + seq![92u8, b]);
}

/// In a bracket expression, an escape sequence stands for its byte. That byte is a member and
/// nothing else: one that has a meaning there gets a backslash.
pub proof fn law_escaped_members(at: Cursor, out: Seq<u8>)
    requires
        0 <= at.line.pos,
        at.line.pos + 1 < at.line.text.len(),
        at.line.text[at.line.pos] == 92,
        escape_at(at.line.text, at.line.pos + 1) is Some,
    ensures
        ({
            let (b, end) = escape_at(at.line.text, at.line.pos + 1)->0;
            bracket_from(at, out, false) == bracket_from(
                at.at_pos(end),
                out + if b == 91 || b == 93 || b == 92 || b == 94 || b == 45 {
                    seq![92u8, b]
                } else {
                    seq![b]
                },
                false,
            )
        }),
{
    lemma_escape_end(at.line.text, at.line.pos + 1);
}

/// In a string of `y`, the end of the line before the delimiter is an error. In UTF-8 mode, so
/// is a string that is no UTF-8.
pub proof fn law_strings_must_be_whole(
    at: Cursor,
    bytes: Seq<u8>,
    delimiter: u8,
    context: ContextView,
    reason: Seq<char>,
)
    requires
        is_delimiter(delimiter),
        ({
            ||| rest_is(at, seq![121u8, delimiter] + bytes) && forall|i: int|
                0 <= i < bytes.len() ==> #[trigger] bytes[i] != delimiter && bytes[i] != 92
            ||| stands_at(
                at.line.text,
                at.line.pos,
                seq![121u8, delimiter] + (written_string(bytes, delimiter) + seq![delimiter]),
            ) && context.options.character_mode == CharacterMode::Utf8 && !valid_utf8(bytes)
        }),
    ensures
        command_at(at, context, reason).result is Err,
{
    let text = at.line.text;
    let pos = at.line.pos;
    let open = seq![121u8, delimiter];
    reveal(handle);
    reveal(trans_command);
    let start = at.at_pos(pos + 2);
    if rest_is(at, open + bytes) && forall|i: int|
        0 <= i < bytes.len() ==> #[trigger] bytes[i] != delimiter && bytes[i] != 92 {
        lemma_pieces(text, pos, open, bytes);
        assert(text[pos] == open[0] && text[pos + 1] == open[1]);
        assert forall|j: int| pos + 2 <= j < text.len() implies #[trigger] text[j] != delimiter
            && text[j] != 92 by {
            assert(text[j] == bytes[j - pos - 2]);
        }
        lemma_string_runs_out(start, Seq::empty(), delimiter);
    } else {
        let piece = written_string(bytes, delimiter) + seq![delimiter];
        lemma_pieces(text, pos, open, piece);
        assert(text[pos] == open[0] && text[pos + 1] == open[1]);
        lemma_string_read(start, Seq::empty(), bytes, delimiter);
        assert(Seq::<u8>::empty() + bytes =~= bytes);
        assert(text[pos + 2 + piece.len() - 1] == piece[piece.len() - 1]);
    }
    lemma_bare(at, context, reason, CommandHandler::Trans);
}

/// A string runs out at the end of the line.
proof fn lemma_string_runs_out(at: Cursor, out: Seq<u8>, delimiter: u8)
    requires
        0 <= at.line.pos <= at.line.text.len(),
        forall|j: int|
            at.line.pos <= j < at.line.text.len() ==> #[trigger] at.line.text[j] != delimiter
                && at.line.text[j] != 92,
    ensures
        transliteration_from(at, out, delimiter).result is Err,
    decreases at.line.text.len() - at.line.pos,
{
    if !at.eol() {
        let b = at.line.text[at.line.pos];
        assert(b != delimiter && b != 92);
        lemma_string_runs_out(at.next(), out.push(b), delimiter);
    }
}

} // verus!
