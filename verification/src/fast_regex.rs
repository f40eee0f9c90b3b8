//! Regular expressions, run by an outside engine.

use crate::command::CharacterMode;
use crate::text::{copy_range, utf8_text};
use vstd::prelude::*;
use vstd::utf8::{decode_utf8, valid_utf8};

verus! {

/// The number of groups that the engine finds in a pattern, the whole match counted as one, if
/// it accepts the pattern. `unicode` tells whether characters or single bytes are matched.
pub uninterp spec fn engine_groups(pattern: Seq<char>, unicode: bool) -> Option<nat>;

/// Whether the engine finds the pattern in `text`, if it can tell.
pub uninterp spec fn engine_finds(
    pattern: Seq<char>,
    unicode: bool,
    text: Seq<u8>,
) -> Option<bool>;

/// Builds the pattern for matching in arbitrary bytes, by characters or by single bytes
/// (`fancy_regex::RegexBuilder::build`, with `unicode_mode` set to `unicode`), and counts its
/// groups (`fancy_regex::Regex::captures_len`). Whether the pattern is accepted and how many
/// groups it has is a function of the pattern and the mode; a count includes the whole match,
/// so it is at least one. The words of a refusal are not: of several faults the engine may
/// report any.
#[verifier::external_body]
fn engine_build(pattern: &str, unicode: bool) -> (result: Result<usize, String>)
    ensures
        match result {
            Ok(n) => n >= 1 && engine_groups(pattern@, unicode) == Some(n as nat),
            Err(_) => engine_groups(pattern@, unicode) is None,
        },
{
    let mode = fancy_regex::BytesMode::UnicodeBytes;
    match fancy_regex::RegexBuilder::new(pattern).bytes_mode(mode).unicode_mode(unicode).build() {
        Ok(regex) => Ok(regex.captures_len()),
        Err(e) => Err(e.to_string()),
    }
}

/// Builds the pattern as [`engine_build`] does and looks for it in `text`
/// (`fancy_regex::Regex::is_match`). Whether it can tell, and what, is a function of the
/// pattern, the mode and the text; the words of a failure are not.
#[verifier::external_body]
fn engine_is_match(pattern: &str, unicode: bool, text: &[u8]) -> (result: Result<bool, String>)
    ensures
        match result {
            Ok(found) => engine_finds(pattern@, unicode, text@) == Some(found),
            Err(_) => engine_finds(pattern@, unicode, text@) is None,
        },
{
    let mode = fancy_regex::BytesMode::UnicodeBytes;
    match fancy_regex::RegexBuilder::new(pattern).bytes_mode(mode).unicode_mode(unicode).build() {
        Ok(regex) => regex.is_match(text).map_err(|e| e.to_string()),
        Err(e) => Err(e.to_string()),
    }
}

/// The hexadecimal digit `d`.
pub open spec fn hex_digit(d: int) -> char {
    if d < 10 {
        ('0' as int + d) as char
    } else {
        ('A' as int + (d - 10)) as char
    }
}

/// The byte as it stands in a pattern that matches single bytes: itself if it is ASCII, else
/// an escape sequence.
pub open spec fn byte_text(b: u8) -> Seq<char> {
    if b < 128 {
        seq![b as char]
    } else {
        seq!['\\', 'x', hex_digit(b as int / 16), hex_digit(b as int % 16)]
    }
}

/// The bytes as they stand in a pattern that matches single bytes.
pub open spec fn bytes_text(bytes: Seq<u8>) -> Seq<char>
    decreases bytes.len(),
{
    if bytes.len() == 0 {
        Seq::empty()
    } else {
        bytes_text(bytes.drop_last()) + byte_text(bytes.last())
    }
}

/// Whether characters, and not single bytes, are matched: in UTF-8 mode, if the pattern is
/// valid UTF-8.
pub open spec fn matches_characters(pattern: Seq<u8>, mode: CharacterMode) -> bool {
    mode == CharacterMode::Utf8 && valid_utf8(pattern)
}

/// The pattern as the engine gets it.
pub open spec fn engine_pattern(pattern: Seq<u8>, mode: CharacterMode) -> Seq<char> {
    if matches_characters(pattern, mode) {
        decode_utf8(pattern)
    } else {
        bytes_text(pattern)
    }
}

/// A regular expression, as it stands in the script after all conversions.
#[verifier::ext_equal]
pub struct RegexView {
    /// The pattern.
    pub pattern: Seq<u8>,
    /// The unit that it matches by.
    pub mode: CharacterMode,
}

impl RegexView {
    /// The number of its groups, the whole match counted as one, if the engine accepts it.
    pub open spec fn groups(&self) -> Option<nat> {
        engine_groups(
            engine_pattern(self.pattern, self.mode),
            matches_characters(self.pattern, self.mode),
        )
    }
}

/// A regular expression that the engine accepts.
#[derive(Debug)]
pub struct Regex {
    pattern: Vec<u8>,
    mode: CharacterMode,
    groups: usize,
}

impl View for Regex {
    type V = RegexView;

    closed spec fn view(&self) -> RegexView {
        RegexView { pattern: self.pattern@, mode: self.mode }
    }
}

/// Appends a byte as it stands in a pattern that matches single bytes.
fn push_byte_text(out: &mut String, b: u8)
    ensures
        final(out)@ == old(out)@ + byte_text(b),
{
    if b < 128 {
        out.push(b as char);
    } else {
        let high: u8 = b / 16;
        let low: u8 = b % 16;
        out.push('\\');
        out.push('x');
        out.push(hex_char(high));
        out.push(hex_char(low));
    }
}

/// The hexadecimal digit `d`.
fn hex_char(d: u8) -> (c: char)
    requires
        d < 16,
    ensures
        c == hex_digit(d as int),
{
    if d < 10 {
        (48 + d) as char
    } else {
        (65 + (d - 10)) as char
    }
}

/// The bytes as they stand in a pattern that matches single bytes.
fn escape_bytes(bytes: &[u8]) -> (text: String)
    ensures
        text@ == bytes_text(bytes@),
{
    let mut out = String::new();
    let mut i: usize = 0;
    while i < bytes.len()
        invariant
            i <= bytes.len(),
            out@ == bytes_text(bytes@.take(i as int)),
        decreases bytes.len() - i,
    {
        push_byte_text(&mut out, bytes[i]);
        assert(bytes@.take(i + 1).drop_last() =~= bytes@.take(i as int));
        i += 1;
    }
    assert(bytes@.take(i as int) =~= bytes@);
    out
}

/// The pattern as the engine gets it, and whether characters are matched.
fn for_engine(pattern: &[u8], mode: CharacterMode) -> (out: (String, bool))
    ensures
        out.0@ == engine_pattern(pattern@, mode),
        out.1 == matches_characters(pattern@, mode),
{
    if mode == CharacterMode::Utf8 {
        if let Some(text) = utf8_text(pattern) {
            return (text, true);
        }
    }
    (escape_bytes(pattern), false)
}

impl Regex {
    /// The engine accepts the pattern and finds this many groups in it.
    #[verifier::type_invariant]
    spec fn accepted(&self) -> bool {
        self.groups >= 1 && (RegexView { pattern: self.pattern@, mode: self.mode }).groups()
            == Some(self.groups as nat)
    }

    /// The regular expression `pattern`, or the engine's message if it is none.
    pub fn new(pattern: &[u8], mode: CharacterMode) -> (result: Result<Regex, String>)
        ensures
            match result {
                Ok(regex) => regex@ == (RegexView { pattern: pattern@, mode })
                    && regex@.groups() is Some,
                Err(_) => (RegexView { pattern: pattern@, mode }).groups() is None,
            },
    {
        let (text, unicode) = for_engine(pattern, mode);
        match engine_build(text.as_str(), unicode) {
            Ok(groups) => {
                let copy = copy_range(pattern, 0, pattern.len());
                assert(copy@ =~= pattern@);
                Ok(Regex { pattern: copy, mode, groups })
            },
            Err(e) => Err(e),
        }
    }

    /// The number of groups, the whole match counted as one.
    pub fn captures_len(&self) -> (n: usize)
        ensures
            n >= 1,
            self@.groups() == Some(n as nat),
    {
        proof {
            use_type_invariant(self);
        }
        self.groups
    }

    /// Whether the expression matches anywhere in `text`.
    pub fn is_match(&self, text: &[u8]) -> (result: Result<bool, String>)
        ensures
            ({
                let found = engine_finds(
                    engine_pattern(self@.pattern, self@.mode),
                    matches_characters(self@.pattern, self@.mode),
                    text@,
                );
                match result {
                    Ok(yes) => found == Some(yes),
                    Err(_) => found is None,
                }
            }),
    {
        let (pattern, unicode) = for_engine(&self.pattern, self.mode);
        engine_is_match(pattern.as_str(), unicode, text)
    }
}

} // verus!
