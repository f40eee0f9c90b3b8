//! Paths as bytes: what they are made of, and how they are put together.
//!
//! On most platforms a path is made of names with `/` between them. On one with drives, `\`
//! separates them too, and a path may start with a prefix: a drive as in `C:`, or
//! `\\server\share`, `\\.\device` or `\\?\name`. A path with the last of these is taken to be in
//! the form in which the platform gives it out: without `/`, and without empty names, `.` and
//! `..`.

use crate::text::copy_range;
use vstd::prelude::*;

verus! {

/// Whether the byte separates the names of a path.
pub open spec fn is_separator(b: u8, drives: bool) -> bool {
    b == '/' as u8 || drives && b == '\\' as u8
}

/// Whether the byte separates the names of a path.
fn separates(b: u8, drives: bool) -> (yes: bool)
    ensures
        yes == is_separator(b, drives),
{
    b == '/' as u8 || drives && b == '\\' as u8
}

/// The separator that is put between names.
pub open spec fn separator(drives: bool) -> u8 {
    if drives {
        '\\' as u8
    } else {
        '/' as u8
    }
}

/// The end of the name at `from`: the first separator there or behind it, or the end of the
/// path.
pub open spec fn name_end(path: Seq<u8>, from: int, drives: bool) -> int
    decreases path.len() - from,
{
    if 0 <= from < path.len() && !is_separator(path[from], drives) {
        name_end(path, from + 1, drives)
    } else {
        from
    }
}

/// A name ends within the path.
proof fn lemma_name_end(path: Seq<u8>, from: int, drives: bool)
    requires
        0 <= from <= path.len(),
    ensures
        from <= name_end(path, from, drives) <= path.len(),
    decreases path.len() - from,
{
    if from < path.len() && !is_separator(path[from], drives) {
        lemma_name_end(path, from + 1, drives);
    }
}

/// The end of the name at `from`.
fn find_name_end(path: &[u8], from: usize, drives: bool) -> (end: usize)
    requires
        from <= path@.len(),
    ensures
        end == name_end(path@, from as int, drives),
        from <= end <= path@.len(),
{
    let mut end: usize = from;
    while end < path.len() && !separates(path[end], drives)
        invariant
            from <= end <= path@.len(),
            name_end(path@, end as int, drives) == name_end(path@, from as int, drives),
        decreases path@.len() - end,
    {
        end += 1;
    }
    end
}

/// Whether the byte is a letter.
pub open spec fn is_letter(b: u8) -> bool {
    'A' as u8 <= b <= 'Z' as u8 || 'a' as u8 <= b <= 'z' as u8
}

/// Whether the path starts with a drive.
pub open spec fn has_drive(path: Seq<u8>) -> bool {
    path.len() >= 2 && is_letter(path[0]) && path[1] == ':' as u8
}

/// The length of the prefix of a path that starts with two separators, 0 if it has none.
pub open spec fn share_len(path: Seq<u8>) -> int {
    let server = name_end(path, 2, true);
    if server >= path.len() {
        0
    } else if server == 3 && (path[2] == '.' as u8 || path[2] == '?' as u8) {
        name_end(path, 4, true)
    } else {
        let share = name_end(path, server + 1, true);
        if server > 2 && share > server + 1 {
            share
        } else {
            0
        }
    }
}

/// The length of the prefix of a path.
pub open spec fn prefix_len(path: Seq<u8>, drives: bool) -> int {
    if !drives {
        0
    } else if path.len() >= 2 && is_separator(path[0], true) && is_separator(path[1], true) {
        share_len(path)
    } else if has_drive(path) {
        2
    } else {
        0
    }
}

/// A prefix is within its path.
proof fn lemma_prefix_len(path: Seq<u8>, drives: bool)
    ensures
        0 <= prefix_len(path, drives) <= path.len(),
{
    if path.len() >= 2 {
        lemma_name_end(path, 2, true);
        let server = name_end(path, 2, true);
        if server < path.len() {
            lemma_name_end(path, server + 1, true);
        }
        if path.len() >= 4 {
            lemma_name_end(path, 4, true);
        }
    }
}

/// The length of the prefix of a path.
fn find_prefix_len(path: &[u8], drives: bool) -> (len: usize)
    ensures
        len == prefix_len(path@, drives),
        len <= path@.len(),
{
    proof {
        lemma_prefix_len(path@, drives);
    }
    if !drives || path.len() < 2 {
        return 0;
    }
    if separates(path[0], true) && separates(path[1], true) {
        let server: usize = find_name_end(path, 2, true);
        if server >= path.len() {
            return 0;
        }
        if server == 3 && (path[2] == '.' as u8 || path[2] == '?' as u8) {
            return find_name_end(path, 4, true);
        }
        let share: usize = find_name_end(path, server + 1, true);
        return if server > 2 && share > server + 1 {
            share
        } else {
            0
        };
    }
    let b: u8 = path[0];
    let letter = 'A' as u8 <= b && b <= 'Z' as u8 || 'a' as u8 <= b && b <= 'z' as u8;
    if letter && path[1] == ':' as u8 {
        2
    } else {
        0
    }
}

/// The path `path` as seen from the directory `dir`. One with a prefix stands for itself, and
/// one from the root takes only the prefix of the directory. Nothing comes between a bare drive
/// and what follows it.
pub open spec fn joined(dir: Seq<u8>, path: Seq<u8>, drives: bool) -> Seq<u8> {
    if prefix_len(path, drives) > 0 {
        path
    } else if path.len() > 0 && is_separator(path[0], drives) {
        dir.take(prefix_len(dir, drives)) + path
    } else if dir.len() == 0 || is_separator(dir.last(), drives) || drives && dir.len() == 2
        && has_drive(dir) {
        dir + path
    } else {
        dir.push(separator(drives)) + path
    }
}

/// From a directory that is given from the root, every path is: one from the root as it is, any
/// other behind the directory.
pub proof fn law_joined_is_absolute(dir: Seq<u8>, path: Seq<u8>)
    requires
        dir.len() > 0,
        dir[0] == '/' as u8,
    ensures
        joined(dir, path, false)[0] == '/' as u8,
        path.len() > 0 && path[0] == '/' as u8 ==> joined(dir, path, false) == path,
        !(path.len() > 0 && path[0] == '/' as u8) ==> joined(dir, path, false).take(
            dir.len() as int,
        ) == dir,
{
    if path.len() > 0 && path[0] == '/' as u8 {
        assert(joined(dir, path, false) =~= path);
    } else {
        assert(joined(dir, path, false).take(dir.len() as int) =~= dir);
    }
}

/// A path with a drive or a share stands for itself.
pub proof fn law_prefixed_stays(dir: Seq<u8>, path: Seq<u8>)
    requires
        prefix_len(path, true) > 0,
    ensures
        joined(dir, path, true) == path,
{
}

/// The path `path` as seen from the directory `dir`.
pub fn join(dir: &[u8], path: &[u8], drives: bool) -> (out: Vec<u8>)
    ensures
        out@ == joined(dir@, path@, drives),
{
    if find_prefix_len(path, drives) > 0 {
        let out = copy_range(path, 0, path.len());
        assert(out@ =~= path@);
        return out;
    }
    let prefix: usize = find_prefix_len(dir, drives);
    if path.len() > 0 && separates(path[0], drives) {
        let mut out = copy_range(dir, 0, prefix);
        out.extend_from_slice(path);
        assert(out@ =~= dir@.take(prefix as int) + path@);
        return out;
    }
    let mut out = copy_range(dir, 0, dir.len());
    assert(out@ =~= dir@);
    let bare = dir.len() == 2 && prefix == 2 && !separates(dir[0], drives);
    if dir.len() > 0 && !separates(dir[dir.len() - 1], drives) && !bare {
        out.push(if drives {
            '\\' as u8
        } else {
            '/' as u8
        });
    }
    let ghost start = out@;
    out.extend_from_slice(path);
    assert(out@ =~= start + path@);
    out
}

/// Where the names of a path start: behind its prefix, and the root or a `.` that it starts
/// with.
pub open spec fn names_start(path: Seq<u8>, drives: bool) -> int {
    let p = prefix_len(path, drives);
    if p < path.len() && (is_separator(path[p], drives) || path[p] == '.' as u8 && (p + 1
        == path.len() || is_separator(path[p + 1], drives))) {
        p + 1
    } else {
        p
    }
}

/// Where the last of the names from `from` up to `end` starts.
pub open spec fn last_start(path: Seq<u8>, from: int, end: int, drives: bool) -> int
    decreases end - from,
{
    if end <= from || is_separator(path[end - 1], drives) {
        end
    } else {
        last_start(path, from, end - 1, drives)
    }
}

/// The end of what comes before the name at `start`, the separator between them left out.
pub open spec fn before_name(from: int, start: int) -> int {
    if start > from {
        start - 1
    } else {
        from
    }
}

/// Whether there is no name from `start` to `end`: nothing stands there, or a `.`.
pub open spec fn is_blank(path: Seq<u8>, start: int, end: int) -> bool {
    start == end || start + 1 == end && path[start] == '.' as u8
}

/// The end of the last name from `from` up to `end`, or `from` if there is none.
pub open spec fn names_end(path: Seq<u8>, from: int, end: int, drives: bool) -> int
    decreases end - from,
{
    let start = last_start(path, from, end, drives);
    if end <= from {
        from
    } else if is_blank(path, start, end) && before_name(from, start) < end {
        names_end(path, from, before_name(from, start), drives)
    } else {
        end
    }
}

/// Where the last of the names from `from` up to `end` starts.
fn find_last_start(path: &[u8], from: usize, end: usize, drives: bool) -> (start: usize)
    requires
        from <= end <= path@.len(),
    ensures
        start == last_start(path@, from as int, end as int, drives),
        from <= start <= end,
{
    let mut start: usize = end;
    while start > from && !separates(path[start - 1], drives)
        invariant
            from <= start <= end <= path@.len(),
            last_start(path@, from as int, start as int, drives) == last_start(
                path@,
                from as int,
                end as int,
                drives,
            ),
        decreases start - from,
    {
        start -= 1;
    }
    start
}

/// The end of the last name from `from` up to `end`, or `from` if there is none.
fn find_names_end(path: &[u8], from: usize, end: usize, drives: bool) -> (out: usize)
    requires
        from <= end <= path@.len(),
    ensures
        out == names_end(path@, from as int, end as int, drives),
        from <= out <= end,
{
    let mut out: usize = end;
    while out > from
        invariant
            from <= out <= end <= path@.len(),
            names_end(path@, from as int, out as int, drives) == names_end(
                path@,
                from as int,
                end as int,
                drives,
            ),
        decreases out - from,
    {
        let start: usize = find_last_start(path, from, out, drives);
        let blank = start == out || start + 1 == out && path[start] == '.' as u8;
        if !blank {
            return out;
        }
        out = if start > from {
            start - 1
        } else {
            from
        };
    }
    out
}

/// A path taken apart: what comes before its last name, and that name.
#[verifier::ext_equal]
pub struct PathParts {
    /// The path of the directory.
    pub parent: Seq<u8>,
    /// The name in it.
    pub name: Seq<u8>,
}

/// The parts of a path that ends in the name of a file. Separators and a `.` behind that name,
/// and more than one separator before it, do not count. A path that ends in `..`, or has no
/// name at all, is none of a file.
pub open spec fn path_parts(path: Seq<u8>, drives: bool) -> Option<PathParts> {
    let from = names_start(path, drives);
    let end = names_end(path, from, path.len() as int, drives);
    let start = last_start(path, from, end, drives);
    let name = path.subrange(start, end);
    if end <= from || name == seq!['.' as u8, '.' as u8] {
        None
    } else {
        Some(
            PathParts {
                parent: path.take(names_end(path, from, before_name(from, start), drives)),
                name,
            },
        )
    }
}

/// The parts of a path that ends in the name of a file.
pub fn split_path(path: &[u8], drives: bool) -> (parts: Option<(Vec<u8>, Vec<u8>)>)
    ensures
        match parts {
            Some((parent, name)) => path_parts(path@, drives) == Some(
                PathParts { parent: parent@, name: name@ },
            ),
            None => path_parts(path@, drives) is None,
        },
{
    let prefix: usize = find_prefix_len(path, drives);
    let from: usize = if prefix < path.len() && (separates(path[prefix], drives) || path[prefix]
        == '.' as u8 && (prefix + 1 == path.len() || separates(path[prefix + 1], drives))) {
        prefix + 1
    } else {
        prefix
    };
    let end: usize = find_names_end(path, from, path.len(), drives);
    if end <= from {
        return None;
    }
    let start: usize = find_last_start(path, from, end, drives);
    let name = copy_range(path, start, end);
    let ghost dots = seq!['.' as u8, '.' as u8];
    if name.len() == 2 && name[0] == '.' as u8 && name[1] == '.' as u8 {
        assert(name@ =~= dots);
        return None;
    }
    assert(name@ != dots) by {
        if name@ == dots {
            assert(name@[0] == dots[0] && name@[1] == dots[1]);
        }
    }
    let before: usize = if start > from {
        start - 1
    } else {
        from
    };
    let parent_end: usize = find_names_end(path, from, before, drives);
    let parent = copy_range(path, 0, parent_end);
    assert(parent@ =~= path@.take(parent_end as int));
    Some((parent, name))
}

} // verus!
