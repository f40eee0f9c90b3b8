//! The commands that take text.

use crate::command::{ContextView, DataView};
use crate::compiler::cursor::{Cursor, done};
use crate::compiler::sequence::command_at;
use crate::compiler::table::{CommandHandler, handle};
use crate::compiler::text::{
    execute_command, posix_lines, posix_text, text_at, text_command, text_from,
};
use crate::delimited_parser::escape_at;
use crate::laws::writing::{
    all_blank, end_of, gave, is_white, lemma_bare, lemma_blanks, lemma_pieces, plain_command,
    rest_is, stands_at,
};
use crate::script_line_provider::{Script, after_line, line_read};
use vstd::prelude::*;

verus! {

/// How a line of text is written: with two backslashes for one.
pub open spec fn written_line(bytes: Seq<u8>) -> Seq<u8>
    decreases bytes.len(),
{
    if bytes.len() == 0 {
        Seq::empty()
    } else if bytes[0] == 92 {
        seq![92u8, 92] + written_line(bytes.skip(1))
    } else {
        seq![bytes[0]] + written_line(bytes.skip(1))
    }
}

/// Whether the letter is one of those that take text for output.
pub open spec fn takes_text(code: char) -> bool {
    code == 'a' || code == 'i' || code == 'c'
}

/// The lines, each with a line feed behind it.
pub open spec fn as_text(lines: Seq<Seq<u8>>) -> Seq<u8>
    decreases lines.len(),
{
    if lines.len() == 0 {
        Seq::empty()
    } else {
        lines[0] + seq![10u8] + as_text(lines.skip(1))
    }
}

/// Whether the lines to come are `lines`, with backslashes doubled, and with a backslash behind
/// each but the last.
pub open spec fn lines_follow(script: Script, lines: Seq<Seq<u8>>) -> bool {
    &&& lines.len() <= script.rest.lines.len()
    &&& forall|k: int|
        0 <= k < lines.len() ==> (#[trigger] script.rest.lines[k]).text == written_line(lines[k])
            + if k + 1 < lines.len() {
            seq![92u8]
        } else {
            Seq::empty()
        }
}

/// Whether a place is at the end of a line that is followed by what comes behind the next
/// `count` lines of `script`.
pub open spec fn past_lines(at: Cursor, script: Script, count: nat) -> bool {
    &&& at.line.pos == at.line.text.len()
    &&& at.script.rest.lines == script.rest.lines.skip(count as int)
    &&& at.script.rest.failure == script.rest.failure
}

/// A line of text is read as it was written.
proof fn lemma_line_read(at: Cursor, out: Seq<u8>, bytes: Seq<u8>, continued: bool, with_end: bool)
    requires
        stands_at(at.line.text, at.line.pos, written_line(bytes)),
    ensures
        text_from(at, out, false, continued, with_end) == text_from(
            at.at_pos(at.line.pos + written_line(bytes).len()),
            out + bytes,
            false,
            continued,
            with_end,
        ),
    decreases bytes.len(),
{
    let text = at.line.text;
    let pos = at.line.pos;
    if bytes.len() == 0 {
        assert(out + bytes =~= out);
        assert(at.at_pos(pos) == at);
    } else {
        let unit: Seq<u8> = if bytes[0] == 92 {
            seq![92u8, 92]
        } else {
            seq![bytes[0]]
        };
        let later = written_line(bytes.skip(1));
        lemma_pieces(text, pos, unit, later);
        assert(text[pos] == unit[0]);
        if unit.len() == 2 {
            assert(text[pos + 1] == unit[1]);
        }
        let behind = at.at_pos(pos + unit.len());
        assert(text_from(at, out, false, continued, with_end) == text_from(
            behind,
            out.push(bytes[0]),
            false,
            continued,
            with_end,
        ));
        lemma_line_read(behind, out.push(bytes[0]), bytes.skip(1), continued, with_end);
        assert(out.push(bytes[0]) + bytes.skip(1) =~= out + bytes);
        assert(behind.at_pos(pos + unit.len() + later.len()) == at.at_pos(
            pos + written_line(bytes).len(),
        ));
    }
}

/// The lines of a text are read as they were written, each with all its bytes.
proof fn lemma_lines_read(at: Cursor, out: Seq<u8>, lines: Seq<Seq<u8>>, continued: bool)
    requires
        at.line.pos >= 0,
        lines.len() > 0,
        lines_follow(at.script, lines),
    ensures
        ({
            let outcome = text_from(at, out, true, continued, true);
            &&& outcome.result is Ok
            &&& outcome.result matches Ok((text, _)) && text == out + as_text(lines)
            &&& past_lines(outcome.at, at.script, lines.len())
        }),
    decreases lines.len(),
{
    let next = at.after_read();
    let line = lines[0];
    let body = written_line(line);
    let tail: Seq<u8> = if 1 < lines.len() {
        seq![92u8]
    } else {
        Seq::empty()
    };
    assert(at.script.rest.lines[0].text == body + tail);
    assert(next.line.text == body + tail && next.line.pos == 0);
    assert(stands_at(next.line.text, 0, body + tail));
    lemma_pieces(next.line.text, 0, body, tail);
    lemma_line_read(next, out, line, true, true);
    let stop = next.at_pos(body.len() as int);
    let later = lines.skip(1);
    if later.len() == 0 {
        assert(stop.eol());
        assert((out + line).push(10) =~= out + as_text(lines)) by {
            assert(as_text(later) =~= Seq::empty());
            assert(as_text(lines) =~= line + seq![10u8]);
        }
        assert(at.script.rest.lines.skip(1) =~= at.script.rest.lines.drop_first());
    } else {
        assert(next.line.text[body.len() as int] == tail[0]);
        let before = stop.next();
        assert(text_from(stop, out + line, false, true, true) == text_from(
            before,
            (out + line).push(10),
            true,
            true,
            true,
        ));
        assert forall|k: int| 0 <= k < later.len() implies (
        #[trigger] before.script.rest.lines[k]).text == written_line(later[k]) + if k + 1
            < later.len() {
            seq![92u8]
        } else {
            Seq::empty()
        } by {
            assert(before.script.rest.lines[k] == at.script.rest.lines[k + 1]);
        }
        lemma_lines_read(before, (out + line).push(10), later, true);
        assert((out + line).push(10) + as_text(later) =~= out + as_text(lines)) by {
            assert(as_text(lines) == line + seq![10u8] + as_text(later));
        }
        assert(before.script.rest.lines.skip(later.len() as int) =~= at.script.rest.lines.skip(
            lines.len() as int,
        ));
    }
}

/// Behind `a\`, `i\` or `c\`, the text is made of the lines that follow, each as it is, blanks
/// at its start included, and each with a line feed. A line that ends in a backslash has
/// another one behind it.
pub proof fn law_text_on_lines(
    at: Cursor,
    code: char,
    gap: Seq<u8>,
    lines: Seq<Seq<u8>>,
    context: ContextView,
    reason: Seq<char>,
)
    requires
        takes_text(code),
        !context.options.posix,
        rest_is(at, seq![code as u8] + (gap + seq![92u8])),
        all_blank(gap),
        lines.len() > 0,
        lines_follow(at.script, lines),
    ensures
        ({
            let after = command_at(at, context, reason);
            &&& gave(
                after,
                after.at,
                plain_command(code, at.location(), DataView::Text(as_text(lines))),
                context,
            )
            &&& past_lines(after.at, at.script, lines.len())
        }),
{
    let text = at.line.text;
    let pos = at.line.pos;
    lemma_pieces(text, pos, seq![code as u8], gap + seq![92u8]);
    lemma_pieces(text, pos + 1, gap, seq![92u8]);
    assert(text[pos] == seq![code as u8][0]);
    assert(text[pos + 1 + gap.len()] == seq![92u8][0]);
    lemma_blanks(text, pos + 1, gap);
    let here = at.at_pos(pos + 1 + gap.len());
    assert(at.next().past_spaces() == here);
    lemma_lines_read(here.next(), Seq::empty(), lines, false);
    assert(Seq::<u8>::empty() + as_text(lines) =~= as_text(lines));
    lemma_bare(at, context, reason, CommandHandler::Text);
    reveal(handle);
    reveal(text_command);
    reveal(text_at);
}

/// Text on the line of the command itself is taken as it is, without blanks before it. A
/// backslash before it is left out and keeps blanks. A backslash at its end makes the lines that
/// follow belong to it.
pub proof fn law_text_on_line(
    at: Cursor,
    code: char,
    gap: Seq<u8>,
    kept: bool,
    first: Seq<u8>,
    lines: Seq<Seq<u8>>,
    context: ContextView,
    reason: Seq<char>,
)
    requires
        takes_text(code),
        !context.options.posix,
        rest_is(
            at,
            seq![code as u8] + (gap + if kept {
                seq![92u8] + (written_line(first) + if lines.len() > 0 {
                    seq![92u8]
                } else {
                    Seq::empty()
                })
            } else {
                written_line(first) + if lines.len() > 0 {
                    seq![92u8]
                } else {
                    Seq::empty()
                }
            }),
        ),
        all_blank(gap),
        first.len() > 0,
        !kept ==> !is_white(first[0]) && first[0] != 92,
        lines_follow(at.script, lines),
    ensures
        ({
            let after = command_at(at, context, reason);
            &&& gave(
                after,
                after.at,
                plain_command(
                    code,
                    at.location(),
                    DataView::Text(first + seq![10u8] + as_text(lines)),
                ),
                context,
            )
            &&& past_lines(after.at, at.script, lines.len())
        }),
{
    let text = at.line.text;
    let pos = at.line.pos;
    let tail: Seq<u8> = if lines.len() > 0 {
        seq![92u8]
    } else {
        Seq::empty()
    };
    let body = written_line(first);
    let whole = if kept {
        seq![92u8] + (body + tail)
    } else {
        body + tail
    };
    lemma_pieces(text, pos, seq![code as u8], gap + whole);
    lemma_pieces(text, pos + 1, gap, whole);
    assert(text[pos] == seq![code as u8][0]);
    let from = pos + 1 + gap.len();
    assert(body.len() > 0);
    assert(text[from] == whole[0]);
    assert(!kept ==> body[0] == first[0]);
    lemma_blanks(text, pos + 1, gap);
    let here = at.at_pos(from);
    assert(at.next().past_spaces() == here);
    let start = if kept {
        here.next()
    } else {
        here
    };
    if kept {
        lemma_pieces(text, from, seq![92u8], body + tail);
    }
    lemma_pieces(text, start.line.pos, body, tail);
    lemma_line_read(start, Seq::empty(), first, false, true);
    assert(Seq::<u8>::empty() + first =~= first);
    let stop = start.at_pos(start.line.pos + body.len());
    if lines.len() > 0 {
        assert(text[start.line.pos + body.len()] == tail[0]);
        lemma_lines_read(stop.next(), first.push(10), lines, false);
        assert(first.push(10) + as_text(lines) =~= first + seq![10u8] + as_text(lines));
    } else {
        assert(first.push(10) =~= first + seq![10u8] + as_text(lines));
        assert(at.script.rest.lines.skip(0) =~= at.script.rest.lines);
    }
    lemma_bare(at, context, reason, CommandHandler::Text);
    reveal(handle);
    reveal(text_command);
    reveal(text_at);
}

/// An escape sequence at the end of a text that names a byte gives that byte; any other gives
/// the byte behind the backslash.
pub proof fn law_escapes_in_text(
    at: Cursor,
    code: char,
    gap: Seq<u8>,
    first: Seq<u8>,
    sequence: Seq<u8>,
    context: ContextView,
    reason: Seq<char>,
)
    requires
        takes_text(code),
        !context.options.posix,
        rest_is(at, seq![code as u8] + (gap + (written_line(first) + (seq![92u8] + sequence)))),
        all_blank(gap),
        first.len() > 0,
        !is_white(first[0]) && first[0] != 92,
        sequence.len() > 0,
        match escape_at(at.line.text, at.line.text.len() - sequence.len()) {
            Some((_, end)) => end == at.line.text.len(),
            None => sequence.len() == 1,
        },
    ensures
        gave(
            command_at(at, context, reason),
            end_of(at),
            plain_command(
                code,
                at.location(),
                DataView::Text(
                    first + match escape_at(
                        at.line.text,
                        at.line.text.len() - sequence.len(),
                    ) {
                        Some((b, _)) => seq![b, 10u8],
                        None => seq![sequence[0], 10u8],
                    },
                ),
            ),
            context,
        ),
{
    let text = at.line.text;
    let pos = at.line.pos;
    let body = written_line(first);
    let tail = seq![92u8] + sequence;
    lemma_pieces(text, pos, seq![code as u8], gap + (body + tail));
    lemma_pieces(text, pos + 1, gap, body + tail);
    assert(text[pos] == seq![code as u8][0]);
    let from = pos + 1 + gap.len();
    lemma_pieces(text, from, body, tail);
    assert(text[from] == body[0] && body[0] == first[0]);
    lemma_blanks(text, pos + 1, gap);
    let here = at.at_pos(from);
    assert(at.next().past_spaces() == here);
    lemma_line_read(here, Seq::empty(), first, false, true);
    assert(Seq::<u8>::empty() + first =~= first);
    let at_escape = from + body.len();
    assert(text[at_escape] == tail[0]);
    assert(text[at_escape + 1] == tail[1] && tail[1] == sequence[0]);
    let b = match escape_at(text, text.len() - sequence.len()) {
        Some((b, _)) => b,
        None => sequence[0],
    };
    assert(at_escape + 1 == text.len() - sequence.len());
    let stop = end_of(at);
    assert(text_from(here.at_pos(at_escape), first, false, false, true) == text_from(
        stop,
        first.push(b),
        false,
        false,
        true,
    ));
    assert(first.push(b).push(10) =~= first + seq![b, 10u8]);
    lemma_bare(at, context, reason, CommandHandler::Text);
    reveal(handle);
    reveal(text_command);
    reveal(text_at);
}

/// `a`, `i` and `c` need a text.
pub proof fn law_text_is_needed(
    at: Cursor,
    code: char,
    gap: Seq<u8>,
    context: ContextView,
    reason: Seq<char>,
)
    requires
        takes_text(code),
        rest_is(at, seq![code as u8] + gap),
        all_blank(gap),
    ensures
        command_at(at, context, reason).result is Err,
{
    let text = at.line.text;
    let pos = at.line.pos;
    lemma_pieces(text, pos, seq![code as u8], gap);
    assert(text[pos] == seq![code as u8][0]);
    lemma_blanks(text, pos + 1, gap);
    assert(at.next().past_spaces() == end_of(at));
    lemma_bare(at, context, reason, CommandHandler::Text);
    reveal(handle);
    reveal(text_command);
    reveal(posix_text);
}

/// Whether the lines to come are `lines`, with a backslash behind each but the last, which ends
/// in none.
pub open spec fn raw_lines_follow(script: Script, lines: Seq<Seq<u8>>) -> bool {
    &&& lines.len() <= script.rest.lines.len()
    &&& forall|k: int|
        0 <= k < lines.len() ==> (#[trigger] script.rest.lines[k]).text == lines[k] + if k + 1
            < lines.len() {
            seq![92u8]
        } else {
            Seq::empty()
        }
    &&& lines.len() > 0 && lines.last().len() > 0 ==> lines.last().last() != 92
}

/// The lines of POSIX text are read as they are.
proof fn lemma_posix_read(script: Script, out: Seq<u8>, lines: Seq<Seq<u8>>)
    requires
        lines.len() > 0,
        raw_lines_follow(script, lines),
    ensures
        ({
            let (text, end) = posix_lines(script, out);
            &&& text is Ok
            &&& text->Ok_0 == out + as_text(lines)
            &&& end.rest.lines == script.rest.lines.skip(lines.len() as int)
            &&& end.rest.failure == script.rest.failure
        }),
    decreases lines.len(),
{
    let line = lines[0];
    let later = lines.skip(1);
    let raw = script.rest.lines[0].text;
    let next = after_line(script);
    assert(line_read(script) == Ok::<Option<Seq<u8>>, crate::error_handling::ErrorView>(Some(raw)));
    if later.len() == 0 {
        assert(raw =~= line);
        assert(lines.last() == line);
        assert(as_text(later) =~= Seq::empty());
        assert(out + raw.push(10) =~= out + as_text(lines));
        assert(script.rest.lines.skip(1) =~= script.rest.lines.drop_first());
    } else {
        assert(raw == line + seq![92u8]);
        assert(raw.last() == 92);
        assert(raw.drop_last() =~= line);
        assert forall|k: int| 0 <= k < later.len() implies (#[trigger] next.rest.lines[k]).text
            == later[k] + if k + 1 < later.len() {
            seq![92u8]
        } else {
            Seq::empty()
        } by {
            assert(next.rest.lines[k] == script.rest.lines[k + 1]);
        }
        assert(later.last() == lines.last());
        lemma_posix_read(next, out + line.push(10), later);
        assert(out + line.push(10) + as_text(later) =~= out + as_text(lines));
        assert(next.rest.lines.skip(later.len() as int) =~= script.rest.lines.skip(
            lines.len() as int,
        ));
    }
}

/// In POSIX mode the text is made of the lines behind `a\`, `i\` or `c\`, with nothing in them
/// having a meaning of its own but a backslash at the end, which has another line behind it.
pub proof fn law_posix_text(
    at: Cursor,
    code: char,
    gap: Seq<u8>,
    lines: Seq<Seq<u8>>,
    context: ContextView,
    reason: Seq<char>,
)
    requires
        takes_text(code),
        context.options.posix,
        rest_is(at, seq![code as u8] + (gap + seq![92u8])),
        all_blank(gap),
        lines.len() > 0,
        raw_lines_follow(at.script, lines),
    ensures
        ({
            let after = command_at(at, context, reason);
            &&& gave(
                after,
                after.at,
                plain_command(code, at.location(), DataView::Text(as_text(lines))),
                context,
            )
            &&& past_lines(after.at, at.script, lines.len())
        }),
{
    let text = at.line.text;
    let pos = at.line.pos;
    lemma_pieces(text, pos, seq![code as u8], gap + seq![92u8]);
    lemma_pieces(text, pos + 1, gap, seq![92u8]);
    assert(text[pos] == seq![code as u8][0]);
    assert(text[pos + 1 + gap.len()] == seq![92u8][0]);
    lemma_blanks(text, pos + 1, gap);
    let here = at.at_pos(pos + 1 + gap.len());
    assert(at.next().past_spaces() == here);
    assert(here.next().past_spaces() == here.next());
    lemma_posix_read(at.script, Seq::empty(), lines);
    assert(Seq::<u8>::empty() + as_text(lines) =~= as_text(lines));
    assert(as_text(lines).len() > 0);
    lemma_bare(at, context, reason, CommandHandler::Text);
    reveal(handle);
    reveal(text_command);
    reveal(posix_text);
}

/// `e` takes the rest of its line as the command to run, without blanks before it, and nothing
/// if the line ends. It is refused where nothing may be run.
pub proof fn law_command_to_run(
    at: Cursor,
    gap: Seq<u8>,
    first: Seq<u8>,
    context: ContextView,
    reason: Seq<char>,
)
    requires
        rest_is(at, seq![101u8] + (gap + written_line(first))),
        all_blank(gap),
        first.len() > 0 ==> !is_white(first[0]) && first[0] != 92,
    ensures
        context.options.posix || context.options.sandbox || context.options.no_exec ==> command_at(
            at,
            context,
            reason,
        ).result is Err,
        !context.options.posix && !context.options.sandbox && !context.options.no_exec ==> gave(
            command_at(at, context, reason),
            end_of(at),
            plain_command(
                'e',
                at.location(),
                if first.len() > 0 {
                    DataView::Text(first)
                } else {
                    DataView::Empty
                },
            ),
            context,
        ),
{
    let text = at.line.text;
    let pos = at.line.pos;
    let body = written_line(first);
    lemma_pieces(text, pos, seq![101u8], gap + body);
    lemma_pieces(text, pos + 1, gap, body);
    assert(text[pos] == seq![101u8][0]);
    let from = pos + 1 + gap.len();
    if first.len() > 0 {
        assert(body.len() > 0);
        assert(text[from] == body[0]);
    } else {
        assert(body =~= Seq::empty());
    }
    lemma_blanks(text, pos + 1, gap);
    let here = at.at_pos(from);
    assert(at.next().past_spaces() == here);
    lemma_line_read(here, Seq::empty(), first, false, false);
    assert(Seq::<u8>::empty() + first =~= first);
    lemma_bare(at, context, reason, CommandHandler::Execute);
    reveal(handle);
    reveal(execute_command);
    reveal(text_at);
}

/// The command to run may stand on the next line, behind a backslash, and be empty there. Where
/// there is no next line, there is no command.
pub proof fn law_command_on_next_line(
    at: Cursor,
    gap: Seq<u8>,
    line: Seq<u8>,
    context: ContextView,
    reason: Seq<char>,
)
    requires
        rest_is(at, seq![101u8] + (gap + seq![92u8])),
        all_blank(gap),
        !context.options.posix && !context.options.sandbox && !context.options.no_exec,
        at.script.rest.lines.len() > 0 ==> at.script.rest.lines[0].text == written_line(line),
    ensures
        ({
            let after = command_at(at, context, reason);
            if at.script.rest.lines.len() > 0 {
                &&& gave(
                    after,
                    after.at,
                    plain_command('e', at.location(), DataView::Text(line)),
                    context,
                )
                &&& past_lines(after.at, at.script, 1)
            } else if at.script.rest.failure is None {
                gave(
                    after,
                    after.at,
                    plain_command('e', at.location(), DataView::Empty),
                    context,
                )
            } else {
                after.result is Err
            }
        }),
{
    let text = at.line.text;
    let pos = at.line.pos;
    lemma_pieces(text, pos, seq![101u8], gap + seq![92u8]);
    lemma_pieces(text, pos + 1, gap, seq![92u8]);
    assert(text[pos] == seq![101u8][0]);
    assert(text[pos + 1 + gap.len()] == seq![92u8][0]);
    lemma_blanks(text, pos + 1, gap);
    let here = at.at_pos(pos + 1 + gap.len());
    assert(at.next().past_spaces() == here);
    let none = Seq::<u8>::empty();
    let end = here.next();
    if at.script.rest.lines.len() > 0 {
        let next = end.after_read();
        assert(next.line.text == written_line(line));
        assert(next.line.pos == 0);
        lemma_line_read(next, none, line, true, false);
        assert(none + line =~= line);
        let stop = next.at_pos(written_line(line).len() as int);
        assert(text_from(stop, line, false, true, false) == done(stop, (line, true)));
        assert(at.script.rest.lines.drop_first() =~= at.script.rest.lines.skip(1));
    }
    lemma_bare(at, context, reason, CommandHandler::Execute);
    reveal(handle);
    reveal(execute_command);
    reveal(text_at);
}

} // verus!
