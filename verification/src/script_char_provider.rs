//! The bytes of one script line, handed out one at a time.

use vstd::prelude::*;

verus! {

/// Whether the byte, read as a character of its own, is white space.
pub open spec fn is_space(b: u8) -> bool {
    9 <= b <= 13 || b == 32 || b == 0x85 || b == 0xA0
}

/// The first position at or after `pos` that does not hold white space.
pub open spec fn spaces_end(text: Seq<u8>, pos: int) -> int
    decreases text.len() - pos,
{
    if 0 <= pos < text.len() && is_space(text[pos]) {
        spaces_end(text, pos + 1)
    } else {
        pos
    }
}

/// White space ends at or behind its start, within the line, and once.
pub proof fn lemma_spaces_end(text: Seq<u8>, pos: int)
    ensures
        pos <= spaces_end(text, pos),
        0 <= pos <= text.len() ==> spaces_end(text, pos) <= text.len(),
        spaces_end(text, spaces_end(text, pos)) == spaces_end(text, pos),
        0 <= spaces_end(text, pos) < text.len() ==> !is_space(text[spaces_end(text, pos)]),
    decreases text.len() - pos,
{
    if 0 <= pos < text.len() && is_space(text[pos]) {
        lemma_spaces_end(text, pos + 1);
    }
}

/// A script line and the position that parsing has reached in it.
#[verifier::ext_equal]
pub struct LineView {
    /// The bytes of the line.
    pub text: Seq<u8>,
    /// The position of the next byte to read.
    pub pos: int,
}

/// Whether the byte, read as a character of its own, is white space.
pub fn is_space_byte(b: u8) -> (yes: bool)
    ensures
        yes == is_space(b),
{
    (9 <= b && b <= 13) || b == 32 || b == 0x85 || b == 0xA0
}

/// The provider of the characters of a script line.
/// Lines are raw bytes, so a byte that is no valid UTF-8 is handed out as it is.
#[derive(Debug)]
pub struct ScriptCharProvider {
    line: Vec<u8>,
    pos: usize,
}

impl View for ScriptCharProvider {
    type V = LineView;

    closed spec fn view(&self) -> LineView {
        LineView { text: self.line@, pos: self.pos as int }
    }
}

impl ScriptCharProvider {
    /// The position never runs past the end of the line.
    #[verifier::type_invariant]
    spec fn in_line(&self) -> bool {
        self.pos <= self.line.len()
    }

    /// A provider at the start of `line`.
    pub fn new(line: &[u8]) -> (provider: Self)
        ensures
            provider@ == (LineView { text: line@, pos: 0 }),
    {
        let mut copy: Vec<u8> = Vec::new();
        copy.extend_from_slice(line);
        assert(copy@ =~= line@);
        ScriptCharProvider { line: copy, pos: 0 }
    }

    /// Whether every character has been read.
    pub fn eol(&self) -> (yes: bool)
        ensures
            yes == (self@.pos >= self@.text.len()),
            yes == (self@.pos == self@.text.len()),
            0 <= self@.pos <= self@.text.len() <= usize::MAX,
    {
        proof {
            use_type_invariant(&*self);
        }
        self.pos >= self.line.len()
    }

    /// The byte at the current position.
    pub fn current_byte(&self) -> (b: u8)
        requires
            self@.pos < self@.text.len(),
        ensures
            b == self@.text[self@.pos],
            0 <= self@.pos,
    {
        self.line[self.pos]
    }

    /// The byte at the current position, as a character of its own.
    pub fn current(&self) -> (c: char)
        requires
            self@.pos < self@.text.len(),
        ensures
            c == self@.text[self@.pos] as char,
            0 <= self@.pos,
    {
        self.line[self.pos] as char
    }

    /// The byte behind the current one, if there is one.
    pub fn peek_byte(&self) -> (b: Option<u8>)
        requires
            self@.pos < self@.text.len(),
        ensures
            b == if self@.pos + 1 < self@.text.len() {
                Some(self@.text[self@.pos + 1])
            } else {
                None
            },
            0 <= self@.pos,
    {
        assert(self.pos < self.line.len());
        let next: usize = self.pos + 1;
        if next < self.line.len() {
            Some(self.line[next])
        } else {
            None
        }
    }

    /// Moves to the next character.
    pub fn advance(&mut self)
        requires
            old(self)@.pos < old(self)@.text.len(),
        ensures
            final(self)@ == (LineView { pos: old(self)@.pos + 1, ..old(self)@ }),
            0 <= old(self)@.pos,
    {
        assert(self.pos < self.line.len());
        self.pos = self.pos + 1;
    }

    /// Moves past any white space.
    pub fn eat_spaces(&mut self)
        ensures
            final(self)@ == (LineView {
                pos: spaces_end(old(self)@.text, old(self)@.pos),
                ..old(self)@
            }),
            0 <= old(self)@.pos <= final(self)@.pos <= final(self)@.text.len(),
    {
        proof {
            use_type_invariant(&*self);
        }
        let ghost start = self@;
        while !self.eol() && is_space_byte(self.current_byte())
            invariant
                self@.text == start.text,
                0 <= start.pos <= self@.pos <= self@.text.len(),
                spaces_end(start.text, self@.pos) == spaces_end(start.text, start.pos),
            decreases self@.text.len() - self@.pos,
        {
            self.advance();
        }
    }

    /// The position of the next character to read, from 0.
    pub fn get_pos(&self) -> (pos: usize)
        ensures
            pos == self@.pos,
            pos <= self@.text.len(),
    {
        proof {
            use_type_invariant(&*self);
        }
        self.pos
    }
}

} // verus!
