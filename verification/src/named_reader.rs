//! Input files that a script reads line by line.

use crate::command::opt_view;
use crate::error_handling::SedResult;
use crate::script_line_provider::{find_line_end, line_end};
use crate::text::copy_range;
use vstd::prelude::*;

verus! {

/// What a [`NamedReader`] holds.
#[verifier::ext_equal]
pub struct ReaderView {
    /// The path of the file.
    pub path: Seq<u8>,
    /// What of the file has not been read, if it could be opened.
    pub rest: Option<Seq<u8>>,
    /// Whether reading fails behind that, so that the file does not simply end.
    pub fails: bool,
}

/// A file that a script reads one line at a time: the argument of `R`. A file that is missing
/// or cannot be read counts as empty, and one that fails later counts as ended.
#[derive(Debug)]
pub struct NamedReader {
    path: Vec<u8>,
    content: Option<Vec<u8>>,
    offset: usize,
    fails: bool,
}

impl View for NamedReader {
    type V = ReaderView;

    closed spec fn view(&self) -> ReaderView {
        ReaderView {
            path: self.path@,
            rest: match self.content {
                Some(content) => Some(content@.skip(self.offset as int)),
                None => None,
            },
            fails: self.fails,
        }
    }
}

/// The length of the first line of `rest`, its line feed included if it has one.
pub open spec fn first_line_len(rest: Seq<u8>) -> int {
    let end = line_end(rest, 0);
    if end < rest.len() {
        end + 1
    } else {
        rest.len() as int
    }
}

/// Whether reading fails before the first line of what is left is complete.
pub open spec fn reader_fails(reader: ReaderView) -> bool {
    &&& reader.fails
    &&& reader.rest matches Some(rest) && line_end(rest, 0) >= rest.len()
}

/// The line that is read next, its line feed included if it has one. There is none if reading
/// it fails.
pub open spec fn reader_line(reader: ReaderView) -> Option<Seq<u8>> {
    match reader.rest {
        Some(rest) => if reader_fails(reader) || rest.len() == 0 {
            None
        } else {
            Some(rest.take(first_line_len(rest)))
        },
        None => None,
    }
}

/// The reader once that line is read. Once reading has failed, nothing is left.
pub open spec fn after_reader_line(reader: ReaderView) -> ReaderView {
    match reader.rest {
        Some(rest) => if reader_fails(reader) {
            ReaderView { rest: Some(Seq::empty()), ..reader }
        } else if rest.len() > 0 {
            ReaderView { rest: Some(rest.skip(first_line_len(rest))), ..reader }
        } else {
            reader
        },
        None => reader,
    }
}

/// Once a reader finds nothing, it never finds anything again.
pub proof fn law_reader_end_is_final(reader: ReaderView)
    requires
        reader_line(reader) is None,
    ensures
        reader_line(after_reader_line(reader)) is None,
        after_reader_line(after_reader_line(reader)) == after_reader_line(reader),
{
}

/// The lines of `rest`, each with its line feed.
pub open spec fn lines_of(rest: Seq<u8>) -> Seq<Seq<u8>>
    decreases rest.len(),
{
    let len = first_line_len(rest);
    if rest.len() == 0 || len <= 0 || len > rest.len() {
        Seq::empty()
    } else {
        seq![rest.take(len)] + lines_of(rest.skip(len))
    }
}

/// The position of the end of a line depends on nothing before its start.
proof fn lemma_line_end_skip(content: Seq<u8>, from: int, offset: int)
    requires
        0 <= offset <= from <= content.len(),
    ensures
        line_end(content.skip(offset), from - offset) == line_end(content, from) - offset,
        from <= line_end(content, from) <= content.len(),
    decreases content.len() - from,
{
    if from < content.len() && content[from] != 10 {
        lemma_line_end_skip(content, from + 1, offset);
    }
}

/// The lines that a reader hands out make up the content of the file: joined, they are the
/// content, and none of them is empty.
pub proof fn law_lines_make_up_content(rest: Seq<u8>)
    ensures
        lines_of(rest).fold_left(Seq::<u8>::empty(), |all: Seq<u8>, line: Seq<u8>| all + line)
            == rest,
        forall|i: int| 0 <= i < lines_of(rest).len() ==> (#[trigger] lines_of(rest)[i]).len() > 0,
    decreases rest.len(),
{
    lemma_joined(Seq::empty(), rest);
    assert(Seq::<u8>::empty() + rest =~= rest);
}

/// A reader hands out the lines of the file one by one: the next line is the first of those
/// left, and what is left then holds the others.
pub proof fn law_next_line_is_first(reader: ReaderView)
    requires
        reader.rest matches Some(rest) && rest.len() > 0,
        !reader_fails(reader),
    ensures
        reader_line(reader) == Some(lines_of(reader.rest->0)[0]),
        after_reader_line(reader).rest matches Some(rest) && lines_of(rest) == lines_of(
            reader.rest->0,
        ).drop_first(),
{
    let rest = reader.rest->0;
    lemma_line_end_skip(rest, 0, 0);
    assert(rest.skip(0) =~= rest);
    assert(lines_of(rest).drop_first() =~= lines_of(rest.skip(first_line_len(rest))));
}

/// Joining the lines of `rest` to what comes before them gives back `rest` behind it.
proof fn lemma_joined(before: Seq<u8>, rest: Seq<u8>)
    ensures
        lines_of(rest).fold_left(before, |all: Seq<u8>, line: Seq<u8>| all + line) == before
            + rest,
        forall|i: int| 0 <= i < lines_of(rest).len() ==> (#[trigger] lines_of(rest)[i]).len() > 0,
    decreases rest.len(),
{
    let join = |all: Seq<u8>, line: Seq<u8>| all + line;
    if rest.len() == 0 {
        assert(before + rest =~= before);
    } else {
        let len = first_line_len(rest);
        lemma_line_end_skip(rest, 0, 0);
        assert(rest.skip(0) =~= rest);
        let first = rest.take(len);
        let later = lines_of(rest.skip(len));
        lemma_joined(before + first, rest.skip(len));
        assert(lines_of(rest) =~= seq![first] + later);
        assert(lines_of(rest).drop_first() =~= later);
        lemma_fold_first(before, lines_of(rest), join);
        assert((before + first) + rest.skip(len) =~= before + rest);
        assert forall|i: int| 0 <= i < lines_of(rest).len() implies (#[trigger] lines_of(
            rest,
        )[i]).len() > 0 by {
            if i > 0 {
                assert(lines_of(rest)[i] == later[i - 1]);
            }
        }
    }
}

/// Folding starts with the first element.
proof fn lemma_fold_first(start: Seq<u8>, lines: Seq<Seq<u8>>, join: spec_fn(Seq<u8>, Seq<u8>) -> Seq<u8>)
    requires
        lines.len() > 0,
    ensures
        lines.fold_left(start, join) == lines.drop_first().fold_left(join(start, lines[0]), join),
    decreases lines.len(),
{
    reveal_with_fuel(Seq::fold_left, 2);
    if lines.len() > 1 {
        lemma_fold_first(start, lines.drop_last(), join);
        assert(lines.drop_last().drop_first() =~= lines.drop_first().drop_last());
    } else {
        assert(lines.drop_last() =~= Seq::empty());
        assert(lines.drop_first() =~= Seq::empty());
    }
}

impl NamedReader {
    /// What has been read is within the file.
    #[verifier::type_invariant]
    spec fn in_file(&self) -> bool {
        match self.content {
            Some(content) => self.offset <= content.len(),
            None => true,
        }
    }

    /// A reader of the file at `path`, which has not been opened.
    pub fn new(path: Vec<u8>) -> (reader: Self)
        ensures
            reader@ == (ReaderView { path: path@, rest: None, fails: false }),
    {
        NamedReader { path, content: None, offset: 0, fails: false }
    }

    /// The path of the file.
    pub fn path(&self) -> (path: &Vec<u8>)
        ensures
            path@ == self@.path,
    {
        &self.path
    }

    /// The reader of the file, which has been opened and holds `content`. `fails` tells whether
    /// reading it fails behind that.
    pub fn opened(self, content: Vec<u8>, fails: bool) -> (reader: Self)
        ensures
            reader@ == (ReaderView { path: self@.path, rest: Some(content@), fails }),
    {
        assert(content@.skip(0) =~= content@);
        NamedReader { path: self.path, content: Some(content), offset: 0, fails }
    }

    /// The next line, with its line feed if it has one. There is none once the file is
    /// exhausted, or if it could not be read. It is never an error.
    pub fn next_line(&mut self) -> (result: SedResult<Option<Vec<u8>>>)
        ensures
            result is Ok,
            opt_view(result->Ok_0) == reader_line(old(self)@),
            final(self)@ == after_reader_line(old(self)@),
    {
        proof {
            use_type_invariant(&*self);
        }
        let offset: usize = self.offset;
        let (line, end): (Vec<u8>, usize) = match &self.content {
            Some(content) => {
                proof {
                    lemma_line_end_skip(content@, offset as int, offset as int);
                }
                let found = find_line_end(content, offset);
                if found >= content.len() {
                    if self.fails {
                        self.offset = content.len();
                        assert(content@.skip(content.len() as int) =~= Seq::empty());
                        return Ok(None);
                    }
                    if offset >= content.len() {
                        return Ok(None);
                    }
                }
                let end: usize = if found < content.len() {
                    found + 1
                } else {
                    found
                };
                let line = copy_range(content, offset, end);
                assert(line@ =~= content@.skip(offset as int).take(end - offset));
                assert(content@.skip(offset as int).skip(end - offset) =~= content@.skip(
                    end as int,
                ));
                (line, end)
            },
            None => {
                return Ok(None);
            },
        };
        self.offset = end;
        Ok(Some(line))
    }
}

} // verus!
