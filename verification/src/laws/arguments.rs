//! Labels, file names and versions behind commands.

use crate::command::{ContextView, DataView};
use crate::compiler::address::as_chars;
use crate::compiler::arguments::named_path;
use crate::compiler::cursor::Cursor;
use crate::compiler::sequence::command_at;
use crate::compiler::simple::{
    label_command, label_end, read_file_command, read_line_command, write_file_command,
};
use crate::compiler::table::{CommandHandler, handle};
use crate::compiler::regex::is_digit;
use crate::compiler::version::{
    VersionText, all_digits, no_version, small_number, version_command, version_from, with_byte,
};
use crate::laws::numbers::lemma_value;
use crate::laws::writing::{
    all_blank, all_decimal, end_of, gave, is_white, lemma_bare, lemma_blanks, lemma_pieces,
    plain_command, rest_is, stands_at, value_of,
};
use crate::named_reader::ReaderView;
use crate::named_writer::{WriterView, standard_output_path};
use crate::paths::{joined, name_end, prefix_len};
use vstd::prelude::*;
use vstd::utf8::valid_utf8;

verus! {

/// Whether the byte can be in a label: a letter, a digit, a dot, an underscore or a hyphen.
pub open spec fn in_label(b: u8) -> bool {
    ||| 65 <= b <= 90
    ||| 97 <= b <= 122
    ||| 48 <= b <= 57
    ||| b == 46 || b == 95 || b == 45
}

/// Whether the bytes can be a label.
pub open spec fn all_in_label(bytes: Seq<u8>) -> bool {
    forall|i: int| 0 <= i < bytes.len() ==> in_label(#[trigger] bytes[i])
}

/// A label ends at the first byte that cannot be in one.
proof fn lemma_label_stops(text: Seq<u8>, pos: int, label: Seq<u8>)
    requires
        stands_at(text, pos, label),
        all_in_label(label),
        pos + label.len() < text.len() ==> !in_label(text[pos + label.len()]),
    ensures
        label_end(text, pos) == pos + label.len(),
    decreases label.len(),
{
    if label.len() > 0 {
        assert(text[pos] == label[0]);
        assert(in_label(label[0]));
        let later = label.skip(1);
        assert forall|j: int| pos + 1 <= j < pos + 1 + later.len() implies #[trigger] text[j]
            == later[j - (pos + 1)] by {
            assert(text[j] == label[j - pos]);
        }
        assert forall|i: int| 0 <= i < later.len() implies in_label(#[trigger] later[i]) by {
            assert(in_label(label[i + 1]));
        }
        lemma_label_stops(text, pos + 1, later);
    }
}

/// Whether the label is the given bytes, one character each.
pub open spec fn is_label(data: DataView, label: Seq<u8>) -> bool {
    if label.len() == 0 {
        data == DataView::Label(None)
    } else {
        &&& data matches DataView::Label(Some(chars)) && chars.len() == label.len()
        &&& forall|i: int|
            0 <= i < label.len() ==> #[trigger] (data->Label_0->0)[i] == label[i] as char
    }
}

/// `b`, `t`, `T` and `:` take the label that stands behind them, after blanks if there are any.
/// Only `:` needs one. The command ends at the end of the line, behind a `;`, or before a `}`.
pub proof fn law_label_is_kept(
    at: Cursor,
    code: char,
    gap: Seq<u8>,
    label: Seq<u8>,
    last_gap: Seq<u8>,
    context: ContextView,
    reason: Seq<char>,
)
    requires
        code == 'b' || code == 't' || code == ':' || code == 'T' && !context.options.posix,
        all_blank(gap) && all_blank(last_gap),
        label.len() == 0 ==> last_gap.len() == 0,
        all_in_label(label),
        stands_at(
            at.line.text,
            at.line.pos,
            seq![code as u8] + (gap + (label + last_gap)),
        ),
        ({
            let behind = at.line.pos + 1 + gap.len() + label.len() + last_gap.len();
            behind < at.line.text.len() ==> {
                &&& !is_white(at.line.text[behind])
                &&& last_gap.len() == 0 ==> !in_label(at.line.text[behind])
            }
        }),
    ensures
        ({
            let behind = at.at_pos(at.line.pos + 1 + gap.len() + label.len() + last_gap.len());
            let after = command_at(at, context, reason);
            let ends = behind.eol() || behind.byte() == 125 || behind.byte() == 59;
            if ends && !(code == ':' && label.len() == 0) {
                &&& is_label(after.cmd.data, label)
                &&& gave(
                    after,
                    if behind.sees(';') {
                        behind.next()
                    } else {
                        behind
                    },
                    plain_command(code, at.location(), after.cmd.data),
                    context,
                )
            } else {
                after.result is Err
            }
        }),
{
    let text = at.line.text;
    let pos = at.line.pos;
    let from = pos + 1 + gap.len();
    lemma_pieces(text, pos, seq![code as u8], gap + (label + last_gap));
    lemma_pieces(text, pos + 1, gap, label + last_gap);
    lemma_pieces(text, from, label, last_gap);
    assert(text[pos] == seq![code as u8][0]);
    if label.len() > 0 {
        assert(text[from] == label[0]);
        assert(in_label(label[0]));
    }
    lemma_blanks(text, pos + 1, gap);
    if last_gap.len() > 0 {
        assert(text[from + label.len()] == last_gap[0]);
    }
    lemma_label_stops(text, from, label);
    lemma_blanks(text, from + label.len(), last_gap);
    lemma_bare(at, context, reason, CommandHandler::Label);
    reveal(handle);
    reveal(label_command);
    assert(text.subrange(from, from + label.len()) =~= label) by {
        assert forall|i: int| 0 <= i < label.len() implies #[trigger] text.subrange(
            from,
            from + label.len(),
        )[i] == label[i] by {
            assert(text[from + i] == label[i]);
        }
    }
    assert(as_chars(label).len() == label.len());
}

/// The place that the name of a file on the rest of the line is behind, and the name.
proof fn lemma_path(at: Cursor, code: u8, gap: Seq<u8>, path: Seq<u8>, context: ContextView)
    requires
        all_blank(gap),
        path.len() > 0 ==> !is_white(path[0]),
        rest_is(at, seq![code] + (gap + path)),
    ensures
        ({
            let read = named_path(at, context);
            if path.len() > 0 && (context.options.utf8_paths ==> valid_utf8(path)) {
                &&& read.result is Ok
                &&& read.result->Ok_0 == path
                &&& read.at == end_of(at)
            } else {
                read.result is Err
            }
        }),
        at.line.text[at.line.pos] == code,
{
    let text = at.line.text;
    let pos = at.line.pos;
    let from = pos + 1 + gap.len();
    lemma_pieces(text, pos, seq![code], gap + path);
    lemma_pieces(text, pos + 1, gap, path);
    assert(text[pos] == seq![code][0]);
    if path.len() > 0 {
        assert(text[from] == path[0]);
    }
    lemma_blanks(text, pos + 1, gap);
    assert(text.skip(from) =~= path) by {
        assert forall|i: int| 0 <= i < path.len() implies #[trigger] text.skip(from)[i]
            == path[i] by {
            assert(text[from + i] == path[i]);
        }
    }
}

/// Whether the options let a command name the file.
pub open spec fn may_name(path: Seq<u8>, context: ContextView) -> bool {
    &&& path.len() > 0
    &&& !context.options.sandbox
    &&& context.options.utf8_paths ==> valid_utf8(path)
}

/// `r` takes the rest of the line, behind blanks if there are any, as the name of its file, seen
/// from the directory that the script is compiled in.
pub proof fn law_file_to_read(
    at: Cursor,
    gap: Seq<u8>,
    path: Seq<u8>,
    context: ContextView,
    reason: Seq<char>,
)
    requires
        all_blank(gap),
        path.len() > 0 ==> !is_white(path[0]),
        rest_is(at, seq![114u8] + (gap + path)),
    ensures
        ({
            let after = command_at(at, context, reason);
            if may_name(path, context) {
                gave(
                    after,
                    end_of(at),
                    plain_command(
                        'r',
                        at.location(),
                        DataView::Path(
                            match context.options.current_dir {
                                Some(dir) => joined(dir, path, context.options.drive_paths),
                                None => path,
                            },
                        ),
                    ),
                    context,
                )
            } else {
                after.result is Err
            }
        }),
{
    lemma_path(at, 114, gap, path, context);
    lemma_bare(at, context, reason, CommandHandler::ReadFile);
    reveal(handle);
    reveal(read_file_command);
}

/// `R` takes the rest of the line, behind blanks if there are any, as the name of its file, of
/// which nothing has been read.
pub proof fn law_file_to_read_from(
    at: Cursor,
    gap: Seq<u8>,
    path: Seq<u8>,
    context: ContextView,
    reason: Seq<char>,
)
    requires
        !context.options.posix,
        all_blank(gap),
        path.len() > 0 ==> !is_white(path[0]),
        rest_is(at, seq![82u8] + (gap + path)),
    ensures
        ({
            let after = command_at(at, context, reason);
            if may_name(path, context) {
                gave(
                    after,
                    end_of(at),
                    plain_command(
                        'R',
                        at.location(),
                        DataView::NamedReader(ReaderView { path, rest: None, fails: false }),
                    ),
                    context,
                )
            } else {
                after.result is Err
            }
        }),
{
    lemma_path(at, 82, gap, path, context);
    lemma_bare(at, context, reason, CommandHandler::ReadLine);
    reveal(handle);
    reveal(read_line_command);
}

/// The name of the editor's own output: `/dev/stdout`.
pub open spec fn own_output() -> Seq<u8> {
    seq![47u8, 100, 101, 118, 47, 115, 116, 100, 111, 117, 116]
}

/// `w` and `W` take the rest of the line, behind blanks if there are any, as the name of their
/// file. It is one of the files to be opened, unless it is the editor's own output.
pub proof fn law_file_to_write(
    at: Cursor,
    code: char,
    gap: Seq<u8>,
    path: Seq<u8>,
    context: ContextView,
    reason: Seq<char>,
)
    requires
        code == 'w' || code == 'W' && !context.options.posix,
        all_blank(gap),
        path.len() > 0 ==> !is_white(path[0]),
        rest_is(at, seq![code as u8] + (gap + path)),
    ensures
        ({
            let after = command_at(at, context, reason);
            let writer = WriterView { path, location: at.location() };
            if may_name(path, context) {
                gave(
                    after,
                    end_of(at),
                    plain_command(code, at.location(), DataView::NamedWriter(writer)),
                    ContextView {
                        writers: if path == own_output() {
                            context.writers
                        } else {
                            context.writers.push(writer)
                        },
                        ..context
                    },
                )
            } else {
                after.result is Err
            }
        }),
{
    lemma_path(at, code as u8, gap, path, context);
    lemma_own_output();
    lemma_bare(at, context, reason, CommandHandler::WriteFile);
    reveal(handle);
    reveal(write_file_command);
}

/// The name of the editor's own output, letter by letter.
pub proof fn lemma_own_output()
    ensures
        standard_output_path() == own_output(),
{
    assert(standard_output_path() =~= own_output());
}

/// Where paths have no drives, a path from the root stays as it is, and any other comes behind
/// the directory, with one separator between them if the directory does not end in one.
pub proof fn law_path_from_directory(dir: Seq<u8>, path: Seq<u8>)
    ensures
        path.len() > 0 && path[0] == 47 ==> joined(dir, path, false) == path,
        !(path.len() > 0 && path[0] == 47) ==> joined(dir, path, false) == if dir.len() > 0
            && dir.last() != 47 {
            dir + seq![47u8] + path
        } else {
            dir + path
        },
{
    assert(dir.take(0) + path =~= path);
    assert(dir.push(47) =~= dir + seq![47u8]);
}

/// Where paths have drives, a path with a drive stays as it is, one from the root stays on the
/// drive of the directory, and any other comes behind the directory.
pub proof fn law_path_from_drive(letter: u8, dir: Seq<u8>, path: Seq<u8>)
    requires
        65 <= letter <= 90 || 97 <= letter <= 122,
    ensures
        path.len() >= 2 && (65 <= path[0] <= 90 || 97 <= path[0] <= 122) && path[1] == 58
            ==> joined(seq![letter, 58u8] + dir, path, true) == path,
        path.len() == 1 && (path[0] == 47 || path[0] == 92) || path.len() >= 2 && (path[0] == 47
            || path[0] == 92) && path[1] != 47 && path[1] != 92 ==> joined(
            seq![letter, 58u8] + dir,
            path,
            true,
        ) == seq![letter, 58u8] + path,
        path.len() > 0 && path[0] != 47 && path[0] != 92 && !(path.len() >= 2 && path[1] == 58)
            ==> joined(seq![letter, 58u8] + dir, path, true) == if dir.len() == 0 || dir.last()
            == 47 || dir.last() == 92 {
            (seq![letter, 58u8] + dir) + path
        } else {
            (seq![letter, 58u8] + dir) + (seq![92u8] + path)
        },
{
    let from = seq![letter, 58u8] + dir;
    assert(from[0] == letter && from[1] == 58);
    assert(prefix_len(from, true) == 2);
    assert(from.take(2) =~= seq![letter, 58u8]);
    assert(from.push(92) + path =~= from + (seq![92u8] + path));
    if dir.len() > 0 {
        assert(from.last() == dir.last());
    }
}

/// Whether the bytes are a name: not empty, and without separators.
pub open spec fn is_name(bytes: Seq<u8>) -> bool {
    &&& bytes.len() > 0
    &&& forall|i: int| 0 <= i < bytes.len() ==> #[trigger] bytes[i] != 47 && bytes[i] != 92
}

/// A name ends before a separator.
proof fn lemma_name_found(path: Seq<u8>, from: int, end: int)
    requires
        0 <= from <= end <= path.len(),
        forall|i: int| from <= i < end ==> #[trigger] path[i] != 47 && path[i] != 92,
        end < path.len() ==> path[end] == 47 || path[end] == 92,
    ensures
        name_end(path, from, true) == end,
    decreases end - from,
{
    if from < end {
        assert(path[from] != 47 && path[from] != 92);
        lemma_name_found(path, from + 1, end);
    }
}

/// The prefix of a path on a share is the server and the share.
proof fn lemma_share(server: Seq<u8>, share: Seq<u8>, rest: Seq<u8>)
    requires
        is_name(server) && is_name(share),
        server != seq![46u8] && server != seq![63u8],
        rest.len() > 0 ==> rest[0] == 92 || rest[0] == 47,
    ensures
        prefix_len(seq![92u8, 92] + server + seq![92u8] + share + rest, true) == 3 + server.len()
            + share.len(),
{
    let path = seq![92u8, 92] + server + seq![92u8] + share + rest;
    let s = 2 + server.len() as int;
    let e = s + 1 + share.len();
    assert(path[0] == 92 && path[1] == 92 && path[s] == 92);
    assert forall|i: int| 2 <= i < s implies #[trigger] path[i] != 47 && path[i] != 92 by {
        assert(path[i] == server[i - 2]);
    }
    assert forall|i: int| s + 1 <= i < e implies #[trigger] path[i] != 47 && path[i] != 92 by {
        assert(path[i] == share[i - s - 1]);
    }
    if rest.len() > 0 {
        assert(path[e] == rest[0]);
    }
    lemma_name_found(path, 2, s);
    lemma_name_found(path, s + 1, e);
    if s == 3 {
        assert(path[2] == server[0]);
        assert(server =~= seq![server[0]]);
    }
}

/// A path on a share stays as it is. From a directory on a share, a path from the root is on the
/// same share.
pub proof fn law_path_from_share(server: Seq<u8>, share: Seq<u8>, rest: Seq<u8>, path: Seq<u8>)
    requires
        is_name(server) && is_name(share),
        server != seq![46u8] && server != seq![63u8],
        rest.len() > 0 ==> rest[0] == 92 || rest[0] == 47,
        path.len() > 0 ==> path[0] == 92 && (path.len() == 1 || path[1] != 92 && path[1] != 47),
    ensures
        ({
            let shared = seq![92u8, 92] + server + seq![92u8] + share;
            &&& joined(path, shared + rest, true) == shared + rest
            &&& path.len() > 0 ==> joined(shared + rest, path, true) == shared + path
        }),
{
    let shared = seq![92u8, 92] + server + seq![92u8] + share;
    lemma_share(server, share, rest);
    assert((shared + rest).take(shared.len() as int) =~= shared);
}

/// The same for a path of a device, which has a `.` or a `?` for its server.
pub proof fn law_path_from_device(mark: u8, name: Seq<u8>, rest: Seq<u8>, path: Seq<u8>)
    requires
        mark == 46 || mark == 63,
        is_name(name),
        rest.len() > 0 ==> rest[0] == 92 || rest[0] == 47,
        path.len() > 0 ==> path[0] == 92 && (path.len() == 1 || path[1] != 92 && path[1] != 47),
    ensures
        ({
            let device = seq![92u8, 92, mark, 92] + name;
            &&& joined(path, device + rest, true) == device + rest
            &&& path.len() > 0 ==> joined(device + rest, path, true) == device + path
        }),
{
    let device = seq![92u8, 92, mark, 92] + name;
    let whole = device + rest;
    let e = device.len() as int;
    assert(whole[0] == 92 && whole[1] == 92 && whole[2] == mark && whole[3] == 92);
    assert forall|i: int| 4 <= i < e implies #[trigger] whole[i] != 47 && whole[i] != 92 by {
        assert(whole[i] == name[i - 4]);
    }
    if rest.len() > 0 {
        assert(whole[e] == rest[0]);
    }
    lemma_name_found(whole, 2, 3);
    lemma_name_found(whole, 4, e);
    assert(whole.take(e) =~= device);
}

/// The parts of a version with more bytes in one of them.
pub open spec fn with_bytes(version: VersionText, index: nat, bytes: Seq<u8>) -> VersionText {
    if index == 0 {
        VersionText { major: version.major + bytes, ..version }
    } else if index == 1 {
        VersionText { minor: version.minor + bytes, ..version }
    } else {
        VersionText { patch: version.patch + bytes, ..version }
    }
}

/// The digits of a part are read into that part.
proof fn lemma_part(at: Cursor, version: VersionText, dots: nat, digits: Seq<u8>)
    requires
        stands_at(at.line.text, at.line.pos, digits),
        all_decimal(digits),
        dots <= 2,
    ensures
        version_from(at, version, dots) == version_from(
            at.at_pos(at.line.pos + digits.len()),
            with_bytes(version, dots, digits),
            dots,
        ),
    decreases digits.len(),
{
    if digits.len() == 0 {
        assert(with_bytes(version, dots, digits) =~= version);
    } else {
        let text = at.line.text;
        let pos = at.line.pos;
        assert(text[pos] == digits[0]);
        assert(48 <= digits[0] <= 57);
        let later = digits.skip(1);
        assert forall|j: int| pos + 1 <= j < pos + 1 + later.len() implies #[trigger] text[j]
            == later[j - (pos + 1)] by {
            assert(text[j] == digits[j - pos]);
        }
        assert forall|i: int| 0 <= i < later.len() implies 48 <= #[trigger] later[i] <= 57 by {
            assert(48 <= digits[i + 1] <= 57);
        }
        let next = with_bytes(version, dots, seq![digits[0]]);
        assert(with_byte(version, dots, digits[0]) =~= next);
        lemma_part(at.next(), next, dots, later);
        assert(with_bytes(next, dots, later) =~= with_bytes(version, dots, digits)) by {
            assert(seq![digits[0]] + later =~= digits);
        }
    }
}

/// A numeral that is not too large is a part of a version.
proof fn lemma_part_value(digits: Seq<u8>)
    requires
        all_decimal(digits),
        digits.len() > 0,
    ensures
        small_number(digits) == if value_of(digits) <= 255 {
            Some(value_of(digits))
        } else {
            None
        },
{
    assert(48 <= digits[0] <= 57);
    assert(stands_at(digits, 0, digits));
    lemma_value(digits, 0, digits);
    assert forall|i: int| 0 <= i < digits.len() implies is_digit(
        #[trigger] digits[i],
    ) by {
        assert(48 <= digits[i] <= 57);
    }
}

/// Whether the version is no newer than 4.9.0.
pub open spec fn is_no_newer(major: int, minor: int, patch: int) -> bool {
    major < 4 || major == 4 && (minor < 9 || minor == 9 && patch <= 0)
}

/// Whether a version ends at the position: at the end of the line, at white space or at a `;`.
pub open spec fn ends_version(text: Seq<u8>, pos: int) -> bool {
    pos < text.len() ==> is_white(text[pos]) || text[pos] == 59
}

/// `v` and a version of three parts is in error if the version is newer than 4.9.0, or if a part
/// is larger than 255. The version ends at white space, at a `;`, or with the line.
pub proof fn law_version_is_compared(
    at: Cursor,
    gap: Seq<u8>,
    major: Seq<u8>,
    minor: Seq<u8>,
    patch: Seq<u8>,
    context: ContextView,
    reason: Seq<char>,
)
    requires
        !context.options.posix,
        all_blank(gap),
        all_decimal(major) && all_decimal(minor) && all_decimal(patch),
        major.len() > 0 && minor.len() > 0 && patch.len() > 0,
        stands_at(
            at.line.text,
            at.line.pos,
            seq![118u8] + (gap + (major + (seq![46u8] + (minor + (seq![46u8] + patch))))),
        ),
        ends_version(
            at.line.text,
            at.line.pos + 3 + gap.len() + major.len() + minor.len() + patch.len(),
        ),
    ensures
        ({
            let after = command_at(at, context, reason);
            let numbers = value_of(major) <= 255 && value_of(minor) <= 255 && value_of(patch)
                <= 255;
            if numbers && is_no_newer(value_of(major), value_of(minor), value_of(patch)) {
                gave(
                    after,
                    at.at_pos(
                        at.line.pos + 3 + gap.len() + major.len() + minor.len() + patch.len(),
                    ),
                    plain_command('v', at.location(), DataView::Empty),
                    context,
                )
            } else {
                after.result is Err
            }
        }),
{
    let text = at.line.text;
    let pos = at.line.pos;
    let dot = seq![46u8];
    let third = dot + patch;
    let second = dot + (minor + third);
    lemma_pieces(text, pos, seq![118u8], gap + (major + second));
    lemma_pieces(text, pos + 1, gap, major + second);
    let from = pos + 1 + gap.len();
    lemma_pieces(text, from, major, second);
    let a = from + major.len();
    lemma_pieces(text, a, dot, minor + third);
    lemma_pieces(text, a + 1, minor, third);
    let b = a + 1 + minor.len();
    lemma_pieces(text, b, dot, patch);
    assert(text[pos] == seq![118u8][0]);
    assert(text[from] == major[0]);
    assert(48 <= major[0] <= 57);
    assert(text[a] == dot[0] && text[b] == dot[0]);
    lemma_blanks(text, pos + 1, gap);
    let start = at.at_pos(from);
    assert(at.next().past_spaces() == start);
    let none = no_version();
    let one = with_bytes(none, 0, major);
    let two = with_bytes(one, 1, minor);
    let three = with_bytes(two, 2, patch);
    lemma_part(start, none, 0, major);
    lemma_part(at.at_pos(a + 1), one, 1, minor);
    lemma_part(at.at_pos(b + 1), two, 2, patch);
    assert(three.major =~= major && three.minor =~= minor && three.patch =~= patch);
    assert(version_from(at.at_pos(a), one, 0) == version_from(at.at_pos(a + 1), one, 1));
    assert(version_from(at.at_pos(b), two, 1) == version_from(at.at_pos(b + 1), two, 2));
    let end = at.at_pos(b + 1 + patch.len());
    assert(version_from(end, three, 2) == (end, Some(three)));
    lemma_part_value(major);
    lemma_part_value(minor);
    lemma_part_value(patch);
    lemma_bare(at, context, reason, CommandHandler::Version);
    reveal(handle);
    reveal(version_command);
}

/// `v` and a version of one or two parts is in error if the version is newer than 4.9.0, the
/// parts that are missing being 0. `v` alone is not.
pub proof fn law_short_version_is_compared(
    at: Cursor,
    gap: Seq<u8>,
    major: Seq<u8>,
    minor: Option<Seq<u8>>,
    context: ContextView,
    reason: Seq<char>,
)
    requires
        !context.options.posix,
        all_blank(gap),
        all_decimal(major),
        minor matches Some(digits) ==> major.len() > 0 && digits.len() > 0 && all_decimal(digits),
        rest_is(
            at,
            seq![118u8] + (gap + (major + (match minor {
                Some(digits) => seq![46u8] + digits,
                None => Seq::empty(),
            }))),
        ),
    ensures
        ({
            let after = command_at(at, context, reason);
            let second = match minor {
                Some(digits) => value_of(digits),
                None => 0,
            };
            let numbers = value_of(major) <= 255 && second <= 255;
            if major.len() == 0 || numbers && is_no_newer(value_of(major), second, 0) {
                gave(after, end_of(at), plain_command('v', at.location(), DataView::Empty), context)
            } else {
                after.result is Err
            }
        }),
{
    let text = at.line.text;
    let pos = at.line.pos;
    let rest = match minor {
        Some(digits) => seq![46u8] + digits,
        None => Seq::<u8>::empty(),
    };
    lemma_pieces(text, pos, seq![118u8], gap + (major + rest));
    lemma_pieces(text, pos + 1, gap, major + rest);
    let from = pos + 1 + gap.len();
    lemma_pieces(text, from, major, rest);
    let a = from + major.len();
    assert(text[pos] == seq![118u8][0]);
    if major.len() > 0 {
        assert(text[from] == major[0]);
        assert(48 <= major[0] <= 57);
        lemma_part_value(major);
    }
    lemma_blanks(text, pos + 1, gap);
    let start = at.at_pos(from);
    assert(at.next().past_spaces() == start);
    let none = no_version();
    let one = with_bytes(none, 0, major);
    lemma_part(start, none, 0, major);
    assert(one.major =~= major);
    match minor {
        Some(digits) => {
            lemma_pieces(text, a, seq![46u8], digits);
            assert(text[a] == seq![46u8][0]);
            let two = with_bytes(one, 1, digits);
            lemma_part(at.at_pos(a + 1), one, 1, digits);
            assert(version_from(at.at_pos(a), one, 0) == version_from(at.at_pos(a + 1), one, 1));
            assert(two.major =~= major && two.minor =~= digits);
            assert(version_from(end_of(at), two, 1) == (end_of(at), Some(two)));
            lemma_part_value(digits);
        },
        None => {
            assert(version_from(end_of(at), one, 0) == (end_of(at), Some(one)));
        },
    }
    lemma_bare(at, context, reason, CommandHandler::Version);
    reveal(handle);
    reveal(version_command);
}

/// A version may have a `+` before its first part.
pub proof fn law_sign_in_version(
    at: Cursor,
    gap: Seq<u8>,
    major: Seq<u8>,
    context: ContextView,
    reason: Seq<char>,
)
    requires
        !context.options.posix,
        all_blank(gap),
        all_decimal(major),
        major.len() > 0,
        rest_is(at, seq![118u8] + (gap + (seq![43u8] + major))),
    ensures
        ({
            let after = command_at(at, context, reason);
            if value_of(major) <= 255 && is_no_newer(value_of(major), 0, 0) {
                gave(after, end_of(at), plain_command('v', at.location(), DataView::Empty), context)
            } else {
                after.result is Err
            }
        }),
{
    let text = at.line.text;
    let pos = at.line.pos;
    let from = pos + 1 + gap.len();
    lemma_pieces(text, pos, seq![118u8], gap + (seq![43u8] + major));
    lemma_pieces(text, pos + 1, gap, seq![43u8] + major);
    lemma_pieces(text, from, seq![43u8], major);
    assert(text[pos] == seq![118u8][0]);
    assert(text[from] == seq![43u8][0]);
    lemma_blanks(text, pos + 1, gap);
    let start = at.at_pos(from);
    assert(at.next().past_spaces() == start);
    let sign = with_byte(no_version(), 0, 43);
    assert(version_from(start, no_version(), 0) == version_from(start.next(), sign, 0));
    lemma_part(start.next(), sign, 0, major);
    let whole = with_bytes(sign, 0, major);
    assert(version_from(end_of(at), whole, 0) == (end_of(at), Some(whole)));
    assert(whole.major =~= seq![43u8] + major);
    assert(whole.major.skip(1) =~= major);
    assert(whole.major[0] == 43);
    assert(stands_at(major, 0, major));
    lemma_value(major, 0, major);
    assert(all_digits(major)) by {
        assert forall|i: int| 0 <= i < major.len() implies is_digit(#[trigger] major[i]) by {
            assert(48 <= major[i] <= 57);
        }
    }
    lemma_bare(at, context, reason, CommandHandler::Version);
    reveal(handle);
    reveal(version_command);
}

/// `v` is in error if a part of the version is no numeral, or if there are more than three parts.
pub proof fn law_other_versions_are_refused(
    at: Cursor,
    gap: Seq<u8>,
    major: Seq<u8>,
    minor: Seq<u8>,
    patch: Seq<u8>,
    other: u8,
    context: ContextView,
    reason: Seq<char>,
)
    requires
        !context.options.posix,
        all_blank(gap),
        all_decimal(major) && all_decimal(minor) && all_decimal(patch),
        major.len() > 0,
        !is_white(other) && other != 59 && other != 46,
        ({
            let three = major + (seq![46u8] + (minor + (seq![46u8] + patch)));
            ||| stands_at(
                at.line.text,
                at.line.pos,
                seq![118u8] + (gap + (three + seq![46u8, other])),
            )
            ||| !(48 <= other <= 57) && rest_is(at, seq![118u8] + (gap + (major + seq![other])))
        }),
    ensures
        command_at(at, context, reason).result is Err,
{
    let text = at.line.text;
    let pos = at.line.pos;
    let dot = seq![46u8];
    let from = pos + 1 + gap.len();
    let a = from + major.len();
    let none = no_version();
    let one = with_bytes(none, 0, major);
    let start = at.at_pos(from);
    reveal(handle);
    reveal(version_command);
    assert(48 <= major[0] <= 57);
    if !(48 <= other <= 57) && rest_is(at, seq![118u8] + (gap + (major + seq![other]))) {
        lemma_pieces(text, pos, seq![118u8], gap + (major + seq![other]));
        lemma_pieces(text, pos + 1, gap, major + seq![other]);
        lemma_pieces(text, from, major, seq![other]);
        assert(text[pos] == seq![118u8][0]);
        assert(text[from] == major[0]);
        assert(text[a] == seq![other][0]);
        lemma_blanks(text, pos + 1, gap);
        assert(at.next().past_spaces() == start);
        lemma_part(start, none, 0, major);
        lemma_bare(at, context, reason, CommandHandler::Version);
        let odd = with_byte(one, 0, other);
        assert(version_from(at.at_pos(a), one, 0) == version_from(end_of(at), odd, 0));
        assert(version_from(end_of(at), odd, 0) == (end_of(at), Some(odd)));
        let last = odd.major.len() - 1;
        assert(odd.major[last] == other);
        assert(odd.major[0] == major[0]);
        assert(small_number(odd.major) is None) by {
            assert(!is_digit(odd.major[last]));
        }
    } else {
        let third = dot + patch;
        let three = major + (dot + (minor + third));
        let rest = seq![46u8, other];
        lemma_pieces(text, pos, seq![118u8], gap + (three + rest));
        lemma_pieces(text, pos + 1, gap, three + rest);
        lemma_pieces(text, from, three, rest);
        lemma_pieces(text, from, major, dot + (minor + third));
        lemma_pieces(text, a, dot, minor + third);
        lemma_pieces(text, a + 1, minor, third);
        let b = a + 1 + minor.len();
        lemma_pieces(text, b, dot, patch);
        let c = b + 1 + patch.len();
        assert(text[pos] == seq![118u8][0]);
        assert(text[from] == major[0]);
        assert(text[a] == dot[0] && text[b] == dot[0]);
        assert(text[c] == rest[0] && text[c + 1] == rest[1]);
        lemma_blanks(text, pos + 1, gap);
        assert(at.next().past_spaces() == start);
        let two = with_bytes(one, 1, minor);
        let all = with_bytes(two, 2, patch);
        lemma_part(start, none, 0, major);
        lemma_part(at.at_pos(a + 1), one, 1, minor);
        lemma_part(at.at_pos(b + 1), two, 2, patch);
        assert(version_from(at.at_pos(a), one, 0) == version_from(at.at_pos(a + 1), one, 1));
        assert(version_from(at.at_pos(b), two, 1) == version_from(at.at_pos(b + 1), two, 2));
        assert(version_from(at.at_pos(c), all, 2) == version_from(at.at_pos(c + 1), all, 3));
        assert(version_from(at.at_pos(c + 1), all, 3).1 is None);
        lemma_bare(at, context, reason, CommandHandler::Version);
    }
}

} // verus!
