//! Files that are edited, read and written.

use crate::command::ContextView;
use crate::in_place::{
    OutputPlan, backup_path, begun, ended, in_place_of, output_plan, replacement_of,
};
use crate::named_reader::{ReaderView, after_reader_line, reader_line};
use crate::named_writer::written_line;
use crate::paths::{PathParts, joined, last_start, names_end, names_start, path_parts, prefix_len};
use crate::script_line_provider::line_end;
use vstd::prelude::*;
use vstd::utf8::encode_utf8;

verus! {

/// Whether the bytes are a plain name of a file: not empty, without separators, and neither `.`
/// nor `..`.
pub open spec fn is_file_name(name: Seq<u8>) -> bool {
    &&& name.len() > 0
    &&& forall|i: int| 0 <= i < name.len() ==> #[trigger] name[i] != 47 && name[i] != 92
    &&& !(name.len() == 1 && name[0] == 46)
    &&& !(name.len() == 2 && name[0] == 46 && name[1] == 46)
}

/// The last name starts behind the last separator.
proof fn lemma_last_start(path: Seq<u8>, from: int, start: int, end: int, drives: bool)
    requires
        0 <= from <= start <= end <= path.len(),
        forall|i: int| start <= i < end ==> #[trigger] path[i] != 47 && path[i] != 92,
        start == from || path[start - 1] == 47 || drives && path[start - 1] == 92,
    ensures
        last_start(path, from, end, drives) == start,
    decreases end - start,
{
    if start < end {
        assert(path[end - 1] != 47 && path[end - 1] != 92);
        lemma_last_start(path, from, start, end - 1, drives);
    }
}

/// The last name does not start behind its end.
proof fn lemma_last_start_below(path: Seq<u8>, from: int, end: int, drives: bool)
    ensures
        last_start(path, from, end, drives) <= end,
    decreases end - from,
{
    if from < end {
        lemma_last_start_below(path, from, end - 1, drives);
    }
}

/// The backup of a file that is named by itself has the suffix behind that name.
pub proof fn law_backup_of_name(name: Seq<u8>, suffix: Seq<char>, drives: bool)
    requires
        is_file_name(name),
        !(name.len() >= 2 && name[1] == 58),
        encode_utf8(suffix).len() > 0 ==> !(name.len() == 1 && encode_utf8(suffix)[0] == 58),
    ensures
        backup_path(name, Some(suffix), drives) == Some(name + encode_utf8(suffix)),
{
    let added = encode_utf8(suffix);
    let whole = name + added;
    assert(name[0] != 47 && name[0] != 92);
    if name.len() >= 2 {
        assert(name[1] != 47 && name[1] != 92);
    }
    assert(prefix_len(name, drives) == 0);
    lemma_last_start(name, 0, 0, name.len() as int, drives);
    assert(names_end(name, 0, name.len() as int, drives) == name.len());
    assert(name.subrange(0, name.len() as int) =~= name);
    assert(names_end(name, 0, 0, drives) == 0);
    let none = name.take(0);
    assert(none =~= Seq::empty());
    assert(whole[0] == name[0]);
    if whole.len() >= 2 {
        assert(whole[1] == if name.len() >= 2 {
            name[1]
        } else {
            added[0]
        });
    }
    assert(prefix_len(whole, drives) == 0);
    assert(none + whole =~= whole);
}

/// The backup of a file in a directory has the suffix behind the name of the file, in the same
/// directory.
pub proof fn law_backup_in_directory(dir: Seq<u8>, name: Seq<u8>, suffix: Seq<char>)
    requires
        is_file_name(name),
        dir.len() > 0 ==> dir.last() != 47 && dir.last() != 46,
    ensures
        backup_path(dir + seq![47u8] + name, Some(suffix), false) == Some(
            dir + seq![47u8] + name + encode_utf8(suffix),
        ),
{
    let path = dir + seq![47u8] + name;
    let added = encode_utf8(suffix);
    lemma_parts_in_directory(dir, name);
    let parent = if dir.len() > 0 {
        dir
    } else {
        seq![47u8]
    };
    assert(name[0] != 47);
    assert((name + added)[0] == name[0]);
    assert(joined(parent, name + added, false) =~= dir + seq![47u8] + name + added);
}

/// The parts of a path that is made of a directory and a name.
proof fn lemma_parts_in_directory(dir: Seq<u8>, name: Seq<u8>)
    requires
        is_file_name(name),
        dir.len() > 0 ==> dir.last() != 47 && dir.last() != 46,
    ensures
        path_parts(dir + seq![47u8] + name, false) == Some(
            PathParts {
                parent: if dir.len() > 0 {
                    dir
                } else {
                    seq![47u8]
                },
                name,
            },
        ),
{
    let path = dir + seq![47u8] + name;
    let d = dir.len() as int;
    let n = path.len() as int;
    assert(path[d] == 47);
    assert forall|i: int| d + 1 <= i < n implies #[trigger] path[i] != 47 && path[i] != 92 by {
        assert(path[i] == name[i - d - 1]);
    }
    assert(path.subrange(d + 1, n) =~= name);
    let from: int = if path[0] == 47 || path[0] == 46 && path[1] == 47 {
        1
    } else {
        0
    };
    if d > 0 {
        assert(path[d - 1] == dir[d - 1]);
    }
    assert(names_start(path, false) == from);
    lemma_last_start(path, from, d + 1, n, false);
    assert(path[d + 1] == name[0]);
    assert(names_end(path, from, n, false) == n);
    if d > 0 {
        lemma_last_start_below(path, from, d - 1, false);
        assert(names_end(path, from, d, false) == d);
        assert(path.take(d) =~= dir);
    } else {
        assert(names_end(path, from, 1, false) == 1);
        assert(path.take(1) =~= seq![47u8]);
    }
    if name == seq!['.' as u8, '.' as u8] {
        assert(name[0] == 46 && name[1] == 46);
    }
}

/// The same on a drive.
pub proof fn law_backup_on_drive(
    letter: u8,
    dir: Seq<u8>,
    name: Seq<u8>,
    suffix: Seq<char>,
)
    requires
        65 <= letter <= 90 || 97 <= letter <= 122,
        is_file_name(name),
        !(name.len() >= 2 && name[1] == 58),
        encode_utf8(suffix).len() > 0 ==> !(name.len() == 1 && encode_utf8(suffix)[0] == 58),
        dir.len() > 0 ==> dir.last() != 47 && dir.last() != 92 && dir.last() != 46,
    ensures
        ({
            let path = (seq![letter, 58u8] + dir) + (seq![92u8] + name);
            backup_path(path, Some(suffix), true) == Some(path + encode_utf8(suffix))
        }),
{
    let drive = seq![letter, 58u8] + dir;
    let path = drive + (seq![92u8] + name);
    let added = encode_utf8(suffix);
    let whole = name + added;
    lemma_parts_on_drive(letter, dir, name);
    let parent = if dir.len() > 0 {
        drive
    } else {
        seq![letter, 58u8, 92]
    };
    assert(name[0] != 47 && name[0] != 92);
    assert(whole[0] == name[0]);
    if name.len() >= 2 {
        assert(name[1] != 47 && name[1] != 92);
    }
    if whole.len() >= 2 {
        assert(whole[1] == if name.len() >= 2 {
            name[1]
        } else {
            added[0]
        });
    }
    assert(prefix_len(whole, true) == 0);
    if dir.len() > 0 {
        assert(parent.last() == dir.last());
        assert(parent.push(92) + whole =~= path + added);
    } else {
        assert(parent.last() == 92);
        assert(parent + whole =~= path + added);
    }
}

/// The parts of a path on a drive that is made of a directory and a name.
proof fn lemma_parts_on_drive(letter: u8, dir: Seq<u8>, name: Seq<u8>)
    requires
        65 <= letter <= 90 || 97 <= letter <= 122,
        is_file_name(name),
        dir.len() > 0 ==> dir.last() != 47 && dir.last() != 92 && dir.last() != 46,
    ensures
        path_parts((seq![letter, 58u8] + dir) + (seq![92u8] + name), true) == Some(
            PathParts {
                parent: if dir.len() > 0 {
                    seq![letter, 58u8] + dir
                } else {
                    seq![letter, 58u8, 92]
                },
                name,
            },
        ),
{
    let drive = seq![letter, 58u8] + dir;
    let path = drive + (seq![92u8] + name);
    let d = drive.len() as int;
    let n = path.len() as int;
    assert(path[0] == letter && path[1] == 58 && path[d] == 92);
    assert(prefix_len(path, true) == 2);
    assert forall|i: int| d + 1 <= i < n implies #[trigger] path[i] != 47 && path[i] != 92 by {
        assert(path[i] == name[i - d - 1]);
    }
    assert(path.subrange(d + 1, n) =~= name);
    if d > 2 {
        assert(path[d - 1] == dir[dir.len() - 1]);
    }
    let from = names_start(path, true);
    assert(from == 2 || from == 3);
    assert(d == 2 ==> from == 3);
    assert(d == 3 ==> from == 2);
    lemma_last_start(path, from, d + 1, n, true);
    assert(path[d + 1] == name[0]);
    assert(names_end(path, from, n, true) == n);
    if d > 2 {
        lemma_last_start_below(path, from, d - 1, true);
        assert(names_end(path, from, d, true) == d);
        assert(path.take(d) =~= drive);
    } else {
        assert(names_end(path, from, 3, true) == 3);
        assert(path.take(3) =~= seq![letter, 58u8, 92]);
    }
    if name == seq!['.' as u8, '.' as u8] {
        assert(name[0] == 46 && name[1] == 46);
    }
}

/// A separator behind the name of a file does not count, with or without a `.` behind it.
pub proof fn law_end_of_path_does_not_count(name: Seq<u8>)
    requires
        is_file_name(name),
    ensures
        path_parts(name, false) == Some(PathParts { parent: Seq::empty(), name }),
        path_parts(name + seq![47u8], false) == path_parts(name, false),
        path_parts(name + seq![47u8, 46], false) == path_parts(name, false),
{
    lemma_parts_of_name(name, Seq::empty());
    lemma_parts_of_name(name, seq![47u8]);
    lemma_parts_of_name(name, seq![47u8, 46]);
    assert(name + Seq::<u8>::empty() =~= name);
}

/// The parts of a path that is a name, with what does not count behind it.
proof fn lemma_parts_of_name(name: Seq<u8>, behind: Seq<u8>)
    requires
        is_file_name(name),
        behind == Seq::<u8>::empty() || behind == seq![47u8] || behind == seq![47u8, 46],
    ensures
        path_parts(name + behind, false) == Some(PathParts { parent: Seq::empty(), name }),
{
    let path = name + behind;
    let m = name.len() as int;
    let n = path.len() as int;
    assert forall|i: int| 0 <= i < m implies #[trigger] path[i] != 47 && path[i] != 92 by {
        assert(path[i] == name[i]);
    }
    assert(path[0] == name[0]);
    if name.len() >= 2 {
        assert(path[1] == name[1]);
    }
    assert(names_start(path, false) == 0);
    lemma_last_start(path, 0, 0, m, false);
    assert(names_end(path, 0, m, false) == m);
    if behind.len() > 0 {
        assert(path[m] == behind[0]);
        lemma_last_start(path, 0, m + 1, n, false);
        if behind.len() == 2 {
            assert(path[m + 1] == behind[1]);
        }
        assert(names_end(path, 0, n, false) == names_end(path, 0, m, false));
    }
    assert(path.subrange(0, m) =~= name);
    assert(names_end(path, 0, 0, false) == 0);
    assert(path.take(0) =~= Seq::empty());
    if name == seq!['.' as u8, '.' as u8] {
        assert(name[0] == 46 && name[1] == 46);
    }
}

/// Without a suffix there is no backup, and none of a path that ends in `..` or in nothing.
pub proof fn law_no_backup(dir: Seq<u8>, suffix: Seq<char>, drives: bool)
    requires
        dir.len() > 0 ==> dir.last() == 47,
        dir.len() != 1,
    ensures
        backup_path(dir + seq![46u8, 46], None, drives) is None,
        backup_path(Seq::empty(), Some(suffix), drives) is None,
        !drives ==> backup_path(dir + seq![46u8, 46], Some(suffix), drives) is None,
{
    let dots = seq![46u8, 46];
    let path = dir + dots;
    let d = dir.len() as int;
    let n = path.len() as int;
    if !drives {
        assert(path[d] == 46 && path[d + 1] == 46);
        if d > 0 {
            assert(path[d - 1] == dir[d - 1]);
        }
        let from = names_start(path, false);
        assert(0 <= from <= 1);
        lemma_last_start(path, from, d, n, false);
        assert(path.subrange(d, n) =~= seq!['.' as u8, '.' as u8]);
        assert(names_end(path, from, n, false) == n);
    }
    let nothing = Seq::<u8>::empty();
    assert(prefix_len(nothing, drives) == 0);
    assert(names_end(nothing, 0, 0, drives) == 0);
}

/// Output goes to standard output if files are not edited in place: with the line state of the
/// file before if files are streams of their own, as if nothing had been written if they are
/// not. If files are edited in place, it goes to a temporary file, but only for regular files.
pub proof fn law_where_output_goes(context: ContextView, file_name: Seq<u8>, regular: bool)
    ensures
        ({
            let state = in_place_of(context);
            let plan = output_plan(state, regular);
            &&& !context.options.in_place && context.options.separate ==> plan == Some(
                OutputPlan::KeepStandardOutput,
            )
            &&& !context.options.in_place && !context.options.separate ==> plan == Some(
                OutputPlan::FreshStandardOutput,
            )
            &&& context.options.in_place && regular ==> plan == Some(OutputPlan::TemporaryFile)
            &&& context.options.in_place && !regular ==> plan is None
        }),
{
}

/// A file that is edited in place is replaced under its own name once it is ended with. The
/// file that it was is kept under the name of its backup. No other file is replaced.
pub proof fn law_edited_file_is_replaced(context: ContextView, file_name: Seq<u8>, regular: bool)
    ensures
        ({
            let state = begun(in_place_of(context), file_name, regular);
            &&& replacement_of(state) is Some <==> context.options.in_place && regular
            &&& replacement_of(state) matches Some(replacement) ==> {
                &&& replacement.original == file_name
                &&& replacement.backup == backup_path(
                    file_name,
                    context.options.in_place_suffix,
                    context.options.drive_paths,
                )
            }
            &&& ended(state) == in_place_of(context)
            &&& replacement_of(ended(state)) is None
            &&& state.delimiter == if context.options.null_data {
                0u8
            } else {
                10
            }
            &&& state.follow_symlinks == context.options.follow_symlinks
        }),
{
}

/// A line that is written to a file has a line feed behind it exactly if it is to have one.
pub proof fn law_line_is_written(line: Seq<u8>)
    ensures
        written_line(line, true) == line + seq![10u8],
        written_line(line, false) == line,
{
    assert(line.push(10) =~= line + seq![10u8]);
}

/// Where the end of a line is found.
proof fn lemma_line_found(line: Seq<u8>, more: Seq<u8>, from: int)
    requires
        0 <= from <= line.len(),
        !line.contains(10),
    ensures
        line_end(line + seq![10u8] + more, from) == line.len(),
        line_end(line, from) == line.len(),
    decreases line.len() - from,
{
    let rest = line + seq![10u8] + more;
    if from < line.len() {
        assert(rest[from] == line[from]);
        assert(line.contains(line[from]));
        lemma_line_found(line, more, from + 1);
    } else {
        assert(rest[from] == 10);
    }
}

/// A file is read line by line: what is left starts with a line and its line feed, which are
/// read, and then what comes behind them is left.
pub proof fn law_line_is_read(path: Seq<u8>, line: Seq<u8>, more: Seq<u8>, fails: bool)
    requires
        !line.contains(10),
    ensures
        ({
            let reader = ReaderView { path, rest: Some(line + seq![10u8] + more), fails };
            &&& reader_line(reader) == Some(line + seq![10u8])
            &&& after_reader_line(reader) == ReaderView { path, rest: Some(more), fails }
        }),
{
    let rest = line + seq![10u8] + more;
    lemma_line_found(line, more, 0);
    assert(rest.take(line.len() as int + 1) =~= line + seq![10u8]);
    assert(rest.skip(line.len() as int + 1) =~= more);
}

/// A last line without a line feed is read as it is, unless reading fails there: then there is
/// none. Nothing is left in either case. A file that could not be opened has no lines.
pub proof fn law_last_line_is_read(path: Seq<u8>, line: Seq<u8>, fails: bool)
    requires
        !line.contains(10),
    ensures
        ({
            let reader = ReaderView { path, rest: Some(line), fails };
            &&& reader_line(reader) == if fails || line.len() == 0 {
                None
            } else {
                Some(line)
            }
            &&& after_reader_line(reader) == ReaderView { path, rest: Some(Seq::empty()), fails }
            &&& reader_line(ReaderView { path, rest: None, fails }) is None
        }),
{
    lemma_line_found(line, Seq::empty(), 0);
    assert(line.take(line.len() as int) =~= line);
    assert(line.skip(line.len() as int) =~= Seq::empty());
    if line.len() == 0 {
        assert(line =~= Seq::empty());
    }
}

} // verus!
