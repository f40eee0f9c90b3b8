//! Names and paths in quotes, as diagnostics show them.

use vstd::prelude::*;

verus! {

/// Whether the text holds only printable ASCII characters, and no single quote.
pub open spec fn quotes_simply(text: Seq<char>) -> bool {
    forall|i: int| 0 <= i < text.len() ==> ' ' <= #[trigger] text[i] <= '~' && text[i] != '\''
}

/// The text in single quotes.
pub open spec fn single_quoted(text: Seq<char>) -> Seq<char> {
    "'"@ + text + "'"@
}

/// Whether `quoted` may stand for the name in a diagnostic: single quotes are put around a
/// name that needs no more.
pub open spec fn shows_name(quoted: Seq<char>, name: Seq<char>) -> bool {
    quotes_simply(name) ==> quoted == single_quoted(name)
}

/// The bytes of a path, each as a character.
pub open spec fn path_text(path: Seq<u8>) -> Seq<char> {
    Seq::new(path.len(), |i: int| path[i] as char)
}

/// Whether `quoted` may stand for the path in a diagnostic: single quotes are put around a
/// path that needs no more.
pub open spec fn shows_path(quoted: Seq<char>, path: Seq<u8>) -> bool {
    shows_name(quoted, path_text(path))
}

/// The text `name` in the quotes of the platform's shell
/// (`uucore::display::Quotable::quote`): in single quotes if it holds only printable ASCII
/// characters other than the single quote. How any other text is quoted depends on the
/// platform, so nothing is claimed of it.
#[verifier::external_body]
pub(crate) fn quote(name: &str) -> (quoted: String)
    ensures
        shows_name(quoted@, name@),
{
    uucore::display::Quotable::quote(name).to_string()
}

/// The path `path` in the quotes of the platform's shell
/// (`uucore::display::Quotable::quote`, on what `uucore::os_str_from_bytes` makes of the
/// bytes): in single quotes if it holds only printable ASCII characters other than the single
/// quote. How any other path is quoted depends on the platform, so nothing is claimed of it; on
/// a platform that has no such path, it is an error text.
#[verifier::external_body]
pub(crate) fn quote_path(path: &[u8]) -> (quoted: String)
    ensures
        shows_path(quoted@, path@),
{
    match uucore::os_str_from_bytes(path) {
        Ok(name) => uucore::display::Quotable::quote(name).to_string(),
        Err(e) => e.to_string(),
    }
}

} // verus!
