//! Output files that a script names.

use crate::error_handling::{
    ErrorView, LocationView, ScriptLocation, SedError, located_error, runtime_error,
};
use crate::quoting::{quote_path, shows_path};
use crate::text::{copy_range, same_bytes};
use vstd::prelude::*;
use vstd::utf8::encode_utf8;

verus! {

/// What a [`NamedWriter`] holds.
#[verifier::ext_equal]
pub struct WriterView {
    /// The path of the file.
    pub path: Seq<u8>,
    /// The place in the script that names it.
    pub location: LocationView,
}

/// A file that a script writes to: the argument of `w` or of the `w` flag of `s`.
#[derive(Debug)]
pub struct NamedWriter {
    /// The path of the file.
    pub path: Vec<u8>,
    /// The place in the script that names it.
    pub location: ScriptLocation,
}

impl View for NamedWriter {
    type V = WriterView;

    open spec fn view(&self) -> WriterView {
        WriterView { path: self.path@, location: self.location@ }
    }
}

/// The path `/dev/stdout`.
pub open spec fn standard_output_path() -> Seq<u8> {
    seq![47, 100, 101, 118, 47, 115, 116, 100, 111, 117, 116]
}

/// What one line that is written to a file adds to it.
pub open spec fn written_line(line: Seq<u8>, newline: bool) -> Seq<u8> {
    if newline {
        line.push(10)
    } else {
        line
    }
}

/// The error that the attempt `doing` failed on the file, whose path is shown as `quoted`.
pub open spec fn file_failure(
    writer: WriterView,
    doing: Seq<char>,
    quoted: Seq<char>,
    cause: Seq<char>,
) -> ErrorView {
    located_error(writer.location, doing + quoted + ": "@ + cause, 2)
}

impl NamedWriter {
    /// A writer to the file at `path`.
    pub fn new(path: Vec<u8>, location: ScriptLocation) -> (writer: Self)
        ensures
            writer@ == (WriterView { path: path@, location: location@ }),
    {
        NamedWriter { path, location }
    }

    /// The same writer.
    pub fn duplicate(&self) -> (copy: NamedWriter)
        ensures
            copy@ == self@,
    {
        NamedWriter {
            path: copy_range(&self.path, 0, self.path.len()),
            location: self.location.duplicate(),
        }
    }

    /// Whether this writes to the editor's own output (`/dev/stdout`), as the caller then
    /// does, and not to a file.
    pub fn is_standard_output(&self) -> (yes: bool)
        ensures
            yes == (self@.path == standard_output_path()),
    {
        let stdout = vec![47u8, 100, 101, 118, 47, 115, 116, 100, 111, 117, 116];
        assert(stdout@ =~= standard_output_path());
        same_bytes(&self.path, &stdout)
    }

    /// The bytes that writing the text `line`, possibly with a line end, adds to the file.
    /// There are none if this is the editor's own output.
    pub fn write_line(&self, line: &str, newline: bool) -> (bytes: Option<Vec<u8>>)
        ensures
            match bytes {
                Some(b) => self@.path != standard_output_path() && b@ == written_line(
                    encode_utf8(line@),
                    newline,
                ),
                None => self@.path == standard_output_path(),
            },
    {
        self.write_line_bytes(line.as_bytes(), newline)
    }

    /// The bytes that writing `line`, possibly with a line end, adds to the file. There are
    /// none if this is the editor's own output.
    pub fn write_line_bytes(&self, line: &[u8], newline: bool) -> (bytes: Option<Vec<u8>>)
        ensures
            match bytes {
                Some(b) => self@.path != standard_output_path() && b@ == written_line(
                    line@,
                    newline,
                ),
                None => self@.path == standard_output_path(),
            },
    {
        if self.is_standard_output() {
            return None;
        }
        let mut out = copy_range(line, 0, line.len());
        assert(out@ =~= line@);
        if newline {
            out.push(10);
        }
        Some(out)
    }

    /// The error that the file cannot be created. The message holds its path in the quotes of
    /// the platform's shell.
    pub fn creation_error(&self, cause: &str) -> (error: SedError)
        ensures
            exists|quoted: Seq<char>|
                error@ == #[trigger] file_failure(self@, "creating file "@, quoted, cause@)
                    && shows_path(quoted, self@.path),
    {
        let quoted = quote_path(&self.path);
        self.file_error("creating file ", quoted.as_str(), cause)
    }

    /// The error that the file cannot be written to. The message holds its path in the quotes
    /// of the platform's shell.
    pub fn write_error(&self, cause: &str) -> (error: SedError)
        ensures
            exists|quoted: Seq<char>|
                error@ == #[trigger] file_failure(self@, "writing to file "@, quoted, cause@)
                    && shows_path(quoted, self@.path),
    {
        let quoted = quote_path(&self.path);
        self.file_error("writing to file ", quoted.as_str(), cause)
    }

    /// The runtime error that the attempt `doing` failed on the file, whose path is already in
    /// quotes.
    pub fn file_error(&self, doing: &str, quoted: &str, cause: &str) -> (error: SedError)
        ensures
            error@ == file_failure(self@, doing@, quoted@, cause@),
    {
        let mut message = String::from_str(doing);
        message.append(quoted);
        message.append(": ");
        message.append(cause);
        match runtime_error::<bool>(&self.location, message.as_str()) {
            Ok(_) => SedError::new(2, message),
            Err(e) => e,
        }
    }
}

} // verus!
