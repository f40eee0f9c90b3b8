//! Pieces of text in a line of a script.

use crate::command::{CommandView, ContextView, DataView};
use crate::compiler::address::address_char;
use crate::compiler::cursor::Cursor;
use crate::compiler::handling::{CommandHandling, Handled};
use crate::compiler::sequence::command_at;
use crate::compiler::table::{CommandHandler, handle, spec_of, verified_spec};
use crate::error_handling::{ErrorView, LocationView};
use crate::script_char_provider::{is_space, spaces_end};
use vstd::prelude::*;

verus! {

/// Whether `piece` stands in `text` at `pos`.
pub open spec fn stands_at(text: Seq<u8>, pos: int, piece: Seq<u8>) -> bool {
    &&& 0 <= pos
    &&& pos + piece.len() <= text.len()
    &&& forall|j: int| pos <= j < pos + piece.len() ==> #[trigger] text[j] == piece[j - pos]
}

/// Whether `piece` is what is left of the line.
pub open spec fn rest_is(at: Cursor, piece: Seq<u8>) -> bool {
    &&& stands_at(at.line.text, at.line.pos, piece)
    &&& at.line.pos + piece.len() == at.line.text.len()
}

/// Whether the bytes are blanks.
pub open spec fn all_blank(bytes: Seq<u8>) -> bool {
    forall|i: int| 0 <= i < bytes.len() ==> #[trigger] bytes[i] == 32 || bytes[i] == 9
}

/// Whether the byte is white space: a blank, a line break of some kind, or a no-break space.
pub open spec fn is_white(b: u8) -> bool {
    9 <= b <= 13 || b == 32 || b == 133 || b == 160
}

/// Whether the bytes are decimal digits.
pub open spec fn all_decimal(bytes: Seq<u8>) -> bool {
    forall|i: int| 0 <= i < bytes.len() ==> 48 <= #[trigger] bytes[i] <= 57
}

/// The number that decimal digits write.
pub open spec fn value_of(digits: Seq<u8>) -> int
    decreases digits.len(),
{
    if digits.len() == 0 {
        0
    } else {
        10 * value_of(digits.drop_last()) + (digits.last() - 48)
    }
}

/// The command of the letter `code` at some place of the script, without addresses, and with
/// nothing that follows it yet.
pub open spec fn plain_command(code: char, location: LocationView, data: DataView) -> CommandView {
    CommandView {
        code,
        non_select: false,
        addr1: None,
        addr2: None,
        location,
        next: None,
        data,
    }
}

/// Whether compiling a command in the context succeeded, came up to `end`, and gave `cmd`.
pub open spec fn gave(after: Handled, end: Cursor, cmd: CommandView, context: ContextView) -> bool {
    &&& after.result == Ok::<CommandHandling, ErrorView>(CommandHandling::Continue)
    &&& after.at == end
    &&& after.cmd == cmd
    &&& after.context == context
}

/// The place at the end of the line.
pub open spec fn end_of(at: Cursor) -> Cursor {
    Cursor {
        line: crate::script_char_provider::LineView {
            pos: at.line.text.len() as int,
            ..at.line
        },
        ..at
    }
}

/// A piece of a piece stands behind what comes before it there.
pub proof fn lemma_piece(text: Seq<u8>, pos: int, piece: Seq<u8>, from: int, to: int)
    requires
        stands_at(text, pos, piece),
        0 <= from <= to <= piece.len(),
    ensures
        stands_at(text, pos + from, piece.subrange(from, to)),
{
    assert forall|j: int| pos + from <= j < pos + to implies #[trigger] text[j]
        == piece.subrange(from, to)[j - (pos + from)] by {
        assert(text[j] == piece[j - pos]);
    }
}

/// Two pieces stand one behind the other.
pub proof fn lemma_pieces(text: Seq<u8>, pos: int, a: Seq<u8>, b: Seq<u8>)
    requires
        stands_at(text, pos, a + b),
    ensures
        stands_at(text, pos, a),
        stands_at(text, pos + a.len(), b),
{
    lemma_piece(text, pos, a + b, 0, a.len() as int);
    lemma_piece(text, pos, a + b, a.len() as int, (a + b).len() as int);
    assert((a + b).subrange(0, a.len() as int) =~= a);
    assert((a + b).subrange(a.len() as int, (a + b).len() as int) =~= b);
}

/// Blanks are skipped up to what stands behind them.
pub proof fn lemma_blanks(text: Seq<u8>, pos: int, gap: Seq<u8>)
    requires
        stands_at(text, pos, gap),
        all_blank(gap),
        pos + gap.len() < text.len() ==> !is_space(text[pos + gap.len()]),
    ensures
        spaces_end(text, pos) == pos + gap.len(),
    decreases gap.len(),
{
    if gap.len() > 0 {
        assert(text[pos] == gap[0]);
        let later = gap.skip(1);
        assert forall|j: int| pos + 1 <= j < pos + 1 + later.len() implies #[trigger] text[j]
            == later[j - (pos + 1)] by {
            assert(text[j] == gap[j - pos]);
        }
        assert forall|i: int| 0 <= i < later.len() implies #[trigger] later[i] == 32 || later[i]
            == 9 by {
            assert(gap[i + 1] == 32 || gap[i + 1] == 9);
        }
        lemma_blanks(text, pos + 1, later);
    }
}

/// A command without addresses is compiled in the way of its letter.
pub proof fn lemma_bare(at: Cursor, context: ContextView, reason: Seq<char>, handler: CommandHandler)
    requires
        0 <= at.line.pos < at.line.text.len(),
        !is_space(at.line.text[at.line.pos]),
        !address_char(at.char()),
        spec_of(at.char(), context.options.posix) matches Some(spec) && spec.handler == handler,
    ensures
        ({
            let cmd = plain_command(at.char(), at.location(), DataView::Empty);
            let after = handle(handler, at, cmd, context, reason);
            after.result != Ok::<CommandHandling, ErrorView>(CommandHandling::GetNext)
                ==> command_at(at, context, reason) == after
        }),
{
    reveal(command_at);
    reveal(verified_spec);
    assert(at.past_spaces() == at);
}

} // verus!
