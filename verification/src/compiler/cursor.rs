//! The place that compiling has reached in the script, and what a step from there gives.

use crate::error_handling::{ErrorView, LocationView, SedResult, column_of, located_error};
use crate::script_char_provider::{LineView, ScriptCharProvider, spaces_end};
use crate::script_line_provider::{Script, ScriptLineProvider, after_line, line_read};
use vstd::prelude::*;

verus! {

/// A place in the script.
#[verifier::ext_equal]
pub struct Cursor {
    /// The script, read up to the current line.
    pub script: Script,
    /// The current line.
    pub line: LineView,
}

impl Cursor {
    /// Whether the current line has been read to its end.
    pub open spec fn eol(self) -> bool {
        self.line.pos >= self.line.text.len()
    }

    /// The next byte of the line.
    pub open spec fn byte(self) -> u8 {
        self.line.text[self.line.pos]
    }

    /// The next byte of the line, as a character of its own.
    pub open spec fn char(self) -> char {
        self.byte() as char
    }

    /// Whether the next character of the line is `c`.
    pub open spec fn sees(self, c: char) -> bool {
        !self.eol() && self.char() == c
    }

    /// The place at position `pos` of the same line.
    pub open spec fn at_pos(self, pos: int) -> Cursor {
        Cursor { line: LineView { pos, ..self.line }, ..self }
    }

    /// The place behind the next byte.
    pub open spec fn next(self) -> Cursor {
        self.at_pos(self.line.pos + 1)
    }

    /// The place behind any white space.
    pub open spec fn past_spaces(self) -> Cursor {
        self.at_pos(spaces_end(self.line.text, self.line.pos))
    }

    /// The place at the end of the line.
    pub open spec fn line_end(self) -> Cursor {
        self.at_pos(self.line.text.len() as int)
    }

    /// The part of the line that has not been read.
    pub open spec fn remaining(self) -> Seq<u8> {
        self.line.text.skip(self.line.pos)
    }

    /// What reading another line gives.
    pub open spec fn read(self) -> Result<Option<Seq<u8>>, ErrorView> {
        line_read(self.script)
    }

    /// The place once reading another line was tried: at its start, or, if there is none, where
    /// it was.
    pub open spec fn after_read(self) -> Cursor {
        Cursor {
            script: after_line(self.script),
            line: match self.read() {
                Ok(Some(text)) => LineView { text, pos: 0 },
                _ => self.line,
            },
        }
    }

    /// Where a diagnostic points to.
    pub open spec fn location(self) -> LocationView {
        LocationView {
            name: self.script.name,
            line: self.script.number,
            column: column_of(self.line),
        }
    }

    /// The compilation error with this message.
    pub open spec fn error(self, message: Seq<char>) -> ErrorView {
        located_error(self.location(), message, 1)
    }
}

/// Whether `b` is no place before `a`: on a later line, or at the same or a later position of
/// the same line.
pub open spec fn ahead(a: Cursor, b: Cursor) -> bool {
    ||| b.script.rest.lines.len() < a.script.rest.lines.len()
    ||| {
        &&& b.script.rest.lines.len() == a.script.rest.lines.len()
        &&& b.line.text == a.line.text
        &&& a.line.pos <= b.line.pos <= b.line.text.len()
    }
}

/// Whether `b` is a place behind `a`.
pub open spec fn beyond(a: Cursor, b: Cursor) -> bool {
    ||| b.script.rest.lines.len() < a.script.rest.lines.len()
    ||| {
        &&& b.script.rest.lines.len() == a.script.rest.lines.len()
        &&& b.line.text == a.line.text
        &&& a.line.pos < b.line.pos <= b.line.text.len()
    }
}

/// What the providers have reached.
pub open spec fn cursor(lines: &ScriptLineProvider, line: &ScriptCharProvider) -> Cursor {
    Cursor { script: lines@, line: line@ }
}

/// What a step gives: a value or an error, and the place reached.
pub struct Outcome<T> {
    /// The value or the error.
    pub result: Result<T, ErrorView>,
    /// The place reached.
    pub at: Cursor,
}

/// The step that gives `value` and ends at `at`.
pub open spec fn done<T>(at: Cursor, value: T) -> Outcome<T> {
    Outcome { result: Ok(value), at }
}

/// The step that ends at `at` with a compilation error.
pub open spec fn fail<T>(at: Cursor, message: Seq<char>) -> Outcome<T> {
    Outcome { result: Err(at.error(message)), at }
}

/// The step that ends at `at` with the given error.
pub open spec fn fail_with<T>(at: Cursor, error: ErrorView) -> Outcome<T> {
    Outcome { result: Err(error), at }
}

/// Whether `reason` may be the words of the regular expression engine: if the result is an
/// error in its words, they are.
pub open spec fn in_words<T>(result: SedResult<T>, reason: Seq<char>) -> bool {
    result matches Err(e) ==> (e@.reason matches Some(words) ==> words == reason)
}

/// The words of the regular expression engine, if the result is an error in them.
pub open spec fn words_of<T>(result: SedResult<T>) -> Seq<char> {
    match result {
        Err(e) => match e@.reason {
            Some(words) => words,
            None => Seq::empty(),
        },
        Ok(_) => Seq::empty(),
    }
}

/// What a step gave.
pub open spec fn outcome<T: View>(result: SedResult<T>, at: Cursor) -> Outcome<T::V> {
    Outcome { result: viewed(result), at }
}

/// What a result holds.
pub open spec fn viewed<T: View>(result: SedResult<T>) -> Result<T::V, ErrorView> {
    match result {
        Ok(v) => Ok(v@),
        Err(e) => Err(e@),
    }
}

/// What an optional result holds.
pub open spec fn viewed_option<T: View>(result: SedResult<Option<T>>) -> Result<
    Option<T::V>,
    ErrorView,
> {
    match result {
        Ok(Some(v)) => Ok(Some(v@)),
        Ok(None) => Ok(None),
        Err(e) => Err(e@),
    }
}

/// Moves to the next line of the script, if there is one.
pub fn advance_line(lines: &mut ScriptLineProvider, line: &mut ScriptCharProvider) -> (result: SedResult<
    bool,
>)
    ensures
        cursor(final(lines), final(line)) == cursor(old(lines), old(line)).after_read(),
        match cursor(old(lines), old(line)).read() {
            Ok(Some(_)) => result matches Ok(moved) && moved,
            Ok(None) => result matches Ok(moved) && !moved,
            Err(error) => result matches Err(e) && e@ == error,
        },
        ahead(cursor(old(lines), old(line)), cursor(final(lines), final(line))),
        0 <= final(line)@.pos <= final(line)@.text.len(),
{
    let _at_end = line.eol();
    match lines.next_line() {
        Ok(Some(text)) => {
            *line = ScriptCharProvider::new(&text);
            Ok(true)
        },
        Ok(None) => Ok(false),
        Err(e) => Err(e),
    }
}

} // verus!
