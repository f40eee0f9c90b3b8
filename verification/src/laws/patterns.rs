//! Basic regular expressions: what becomes of each of their pieces.

use crate::compiler::regex::{ere, ere_from};
use vstd::prelude::*;

verus! {

/// Whether the byte is one of `+`, `?`, `{`, `}`, `|`, `(` and `)`.
pub open spec fn is_operator(c: u8) -> bool {
    c == 43 || c == 63 || c == 123 || c == 125 || c == 124 || c == 40 || c == 41
}

/// Whether the byte is a decimal digit.
pub open spec fn is_figure(c: u8) -> bool {
    48 <= c <= 57
}

/// A backslash and the byte `c`.
pub open spec fn behind_backslash(c: u8) -> Seq<u8> {
    seq![92u8, c]
}

/// Whether the expression does not break off behind a backslash.
pub open spec fn is_complete(pattern: Seq<u8>) -> bool
    decreases pattern.len(),
{
    if pattern.len() == 0 {
        true
    } else if pattern[0] == 92 {
        pattern.len() >= 2 && is_complete(pattern.skip(2))
    } else {
        is_complete(pattern.skip(1))
    }
}

/// Whether the expression ends in a `$` that no backslash stands before.
pub open spec fn ends_in_dollar(pattern: Seq<u8>) -> bool
    decreases pattern.len(),
{
    if pattern.len() == 0 {
        false
    } else if pattern[0] == 92 {
        pattern.len() >= 2 && ends_in_dollar(pattern.skip(2))
    } else if pattern.len() == 1 {
        pattern[0] == 36
    } else {
        ends_in_dollar(pattern.skip(1))
    }
}

/// What comes of the second part of an expression depends on that part and the byte before it.
proof fn lemma_shift(p: Seq<u8>, q: Seq<u8>, j: int, previous: Option<u8>)
    requires
        0 <= j <= q.len(),
    ensures
        ere_from(p + q, p.len() + j, previous) == ere_from(q, j, previous),
    decreases q.len() - j,
{
    let whole = p + q;
    if j < q.len() {
        assert(whole[p.len() + j] == q[j]);
        if q[j] == 92 {
            if j + 1 < q.len() {
                assert(whole[p.len() + j + 1] == q[j + 1]);
                lemma_shift(p, q, j + 2, Some(92));
            }
        } else {
            lemma_shift(p, q, j + 1, Some(q[j]));
        }
    }
}

/// The byte before a part matters only if the part starts with `^`.
proof fn lemma_previous(q: Seq<u8>, a: Option<u8>, b: Option<u8>)
    requires
        q.len() > 0 ==> q[0] != 94,
    ensures
        ere_from(q, 0, a) == ere_from(q, 0, b),
{
}

/// What comes of an expression from a position on is what comes of its two parts.
proof fn lemma_split(p: Seq<u8>, q: Seq<u8>, i: int, previous: Option<u8>)
    requires
        0 <= i <= p.len(),
        is_complete(p.skip(i)),
        !ends_in_dollar(p.skip(i)),
        q.len() > 0 ==> q[0] != 94,
    ensures
        ere_from(p + q, i, previous) == ere_from(p, i, previous) + ere(q),
    decreases p.len() - i,
{
    let whole = p + q;
    if i == p.len() {
        lemma_shift(p, q, 0, previous);
        lemma_previous(q, previous, None);
        assert(ere_from(p, i, previous) + ere(q) =~= ere(q));
    } else {
        let rest = p.skip(i);
        assert(rest[0] == p[i] && whole[i] == p[i]);
        if p[i] == 92 {
            assert(rest.skip(2) =~= p.skip(i + 2));
            assert(rest[1] == p[i + 1] && whole[i + 1] == p[i + 1]);
            lemma_split(p, q, i + 2, Some(92));
            assert(ere_from(whole, i, previous) =~= ere_from(p, i, previous) + ere(q));
        } else {
            assert(rest.skip(1) =~= p.skip(i + 1));
            if rest.len() == 1 {
                assert(p.skip(i + 1).len() == 0);
            }
            lemma_split(p, q, i + 1, Some(p[i]));
            assert(ere_from(whole, i, previous) =~= ere_from(p, i, previous) + ere(q));
        }
    }
}

/// An expression is converted piece by piece: what comes of two complete parts is what comes
/// of each, unless an anchor stands where they meet.
pub proof fn law_conversion_is_piecewise(p: Seq<u8>, q: Seq<u8>)
    requires
        is_complete(p),
        !ends_in_dollar(p),
        q.len() > 0 ==> q[0] != 94,
    ensures
        ere(p + q) == ere(p) + ere(q),
{
    assert(p.skip(0) =~= p);
    lemma_split(p, q, 0, None);
}

/// A backslash and a byte that is neither a digit nor an operator stay as they are, wherever
/// they stand.
pub proof fn law_other_escapes_stay(p: Seq<u8>, c: u8, q: Seq<u8>)
    requires
        is_complete(p),
        !ends_in_dollar(p),
        !is_figure(c),
        !is_operator(c),
    ensures
        ere(p + (behind_backslash(c) + q)) == ere(p) + ere(behind_backslash(c) + q),
        ere(behind_backslash(c) + q).len() >= 2,
        ere(behind_backslash(c) + q).take(2) == behind_backslash(c),
        (q.len() > 0 ==> q[0] != 94) ==> ere(p + (behind_backslash(c) + q)) == ere(p) + (
        behind_backslash(c) + ere(q)),
{
    let unit = behind_backslash(c);
    let rest = unit + q;
    assert(rest[0] == 92 && rest[1] == c);
    law_conversion_is_piecewise(p, rest);
    lemma_shift(unit, q, 0, Some(92));
    assert(ere(rest) == unit + ere_from(q, 0, Some(92)));
    assert(ere(rest).take(2) =~= unit);
    if q.len() > 0 ==> q[0] != 94 {
        lemma_previous(q, Some(92), None);
    }
}

/// An operator that a backslash stands before stands alone afterwards, wherever it stands.
pub proof fn law_operators_are_bared(p: Seq<u8>, c: u8, q: Seq<u8>)
    requires
        is_complete(p),
        !ends_in_dollar(p),
        is_operator(c),
        q.len() > 0 ==> q[0] != 94,
    ensures
        ere(p + (behind_backslash(c) + q)) == ere(p) + (seq![c] + ere(q)),
{
    let unit = behind_backslash(c);
    let rest = unit + q;
    assert(rest[0] == 92 && rest[1] == c);
    law_conversion_is_piecewise(p, rest);
    lemma_shift(unit, q, 0, Some(92));
    lemma_previous(q, Some(92), None);
}

/// An operator without a backslash gets one, wherever it stands: in a basic expression it is an
/// ordinary character.
pub proof fn law_operators_are_escaped(p: Seq<u8>, c: u8, q: Seq<u8>)
    requires
        is_complete(p),
        !ends_in_dollar(p),
        is_operator(c),
        q.len() > 0 ==> q[0] != 94,
    ensures
        ere(p + (seq![c] + q)) == ere(p) + (behind_backslash(c) + ere(q)),
{
    let rest = seq![c] + q;
    assert(rest[0] == c);
    law_conversion_is_piecewise(p, rest);
    lemma_shift(seq![c], q, 0, Some(c));
    lemma_previous(q, Some(c), None);
}

/// A back-reference is put in a group of its own that captures nothing, so that a digit behind
/// it is no part of it.
pub proof fn law_references_are_grouped(p: Seq<u8>, c: u8, q: Seq<u8>)
    requires
        is_complete(p),
        !ends_in_dollar(p),
        is_figure(c),
        q.len() > 0 ==> q[0] != 94,
    ensures
        ere(p + (behind_backslash(c) + q)) == ere(p) + (seq![40u8, 63, 58, 92, c, 41] + ere(q)),
{
    let unit = behind_backslash(c);
    let rest = unit + q;
    assert(rest[0] == 92 && rest[1] == c);
    law_conversion_is_piecewise(p, rest);
    lemma_shift(unit, q, 0, Some(92));
    lemma_previous(q, Some(92), None);
}

/// Any other byte stays as it is, wherever it stands.
pub proof fn law_other_bytes_stay(p: Seq<u8>, c: u8, q: Seq<u8>)
    requires
        is_complete(p),
        !ends_in_dollar(p),
        !is_operator(c),
        c != 92 && c != 94 && c != 36,
        q.len() > 0 ==> q[0] != 94,
    ensures
        ere(p + (seq![c] + q)) == ere(p) + (seq![c] + ere(q)),
{
    let rest = seq![c] + q;
    assert(rest[0] == c);
    law_conversion_is_piecewise(p, rest);
    lemma_shift(seq![c], q, 0, Some(c));
    lemma_previous(q, Some(c), None);
}

/// `$` is an anchor at the end of an expression, and an ordinary character before it.
pub proof fn law_dollar_is_anchor_at_end(p: Seq<u8>, q: Seq<u8>)
    requires
        is_complete(p),
        !ends_in_dollar(p),
        q.len() > 0 ==> q[0] != 94,
    ensures
        q.len() == 0 ==> ere(p + (seq![36u8] + q)) == ere(p) + seq![36u8],
        q.len() > 0 ==> ere(p + (seq![36u8] + q)) == ere(p) + (behind_backslash(36) + ere(q)),
{
    let rest = seq![36u8] + q;
    assert(rest[0] == 36);
    law_conversion_is_piecewise(p, rest);
    lemma_shift(seq![36u8], q, 0, Some(36));
    lemma_previous(q, Some(36), None);
    if q.len() == 0 {
        assert(ere(rest) =~= seq![36u8]);
    }
}

/// `^` is an anchor at the start of an expression, negates a bracket expression behind its `[`,
/// and is an ordinary character elsewhere.
pub proof fn law_caret_is_anchor_at_start(p: Seq<u8>, b: u8, q: Seq<u8>)
    requires
        is_complete(p),
        !ends_in_dollar(p),
        b != 92 && b != 94 && b != 36 && !is_operator(b),
        q.len() > 0 ==> q[0] != 94,
    ensures
        ere(seq![94u8] + q) == seq![94u8] + ere(q),
        b == 91 ==> ere(p + (seq![b, 94u8] + q)) == ere(p) + (seq![b, 94u8] + ere(q)),
        b != 91 ==> ere(p + (seq![b, 94u8] + q)) == ere(p) + (seq![b, 92u8, 94u8] + ere(q)),
{
    let first = seq![94u8] + q;
    assert(first[0] == 94);
    lemma_shift(seq![94u8], q, 0, Some(94));
    lemma_previous(q, Some(94), None);
    let rest = seq![b, 94u8] + q;
    assert(rest[0] == b && rest[1] == 94);
    law_conversion_is_piecewise(p, rest);
    lemma_shift(seq![b, 94u8], q, 0, Some(94));
    assert(ere_from(rest, 2, Some(94)) == ere(q));
    assert(ere_from(rest, 1, Some(b)) == if b == 91 {
        seq![94u8] + ere(q)
    } else {
        seq![92u8, 94u8] + ere(q)
    });
    assert(ere(rest) =~= if b == 91 {
        seq![b, 94u8] + ere(q)
    } else {
        seq![b, 92u8, 94u8] + ere(q)
    });
}

/// A backslash that nothing follows stays.
pub proof fn law_last_backslash_stays(p: Seq<u8>)
    requires
        is_complete(p),
        !ends_in_dollar(p),
    ensures
        ere(p + seq![92u8]) == ere(p) + seq![92u8],
        ere(Seq::empty()) == Seq::<u8>::empty(),
{
    law_conversion_is_piecewise(p, seq![92u8]);
}

} // verus!
