//! Support for in-place editing: what is to be done with each file.

use crate::command::{ContextView, ProcessingContext, opt_view};
use crate::error_handling::{ErrorView, SedError, SedResult};
use crate::incremental::delimiter_of;
use crate::paths::{join, joined, path_parts, split_path};
use crate::quoting::{quote_path, shows_path};
use crate::text::{around_text, copy_range};
use vstd::prelude::*;
use vstd::utf8::encode_utf8;

verus! {

/// Where the output for a file goes.
#[derive(Debug, Clone, Copy, PartialEq, Eq, Structural)]
pub enum OutputPlan {
    /// To standard output, with the line state of the file before.
    KeepStandardOutput,
    /// To standard output, as if nothing had been written.
    FreshStandardOutput,
    /// To a temporary file next to the file.
    TemporaryFile,
}

/// What is to be done with a file once it is edited.
#[derive(Debug)]
pub struct Replacement {
    /// The path of the file, which the temporary file replaces.
    pub original: Vec<u8>,
    /// The path that the file is kept under, if it is kept.
    pub backup: Option<Vec<u8>>,
}

/// What a [`Replacement`] holds.
#[verifier::ext_equal]
pub struct ReplacementView {
    /// The path of the file.
    pub original: Seq<u8>,
    /// The path that the file is kept under, if it is kept.
    pub backup: Option<Seq<u8>>,
}

impl View for Replacement {
    type V = ReplacementView;

    open spec fn view(&self) -> ReplacementView {
        ReplacementView { original: self.original@, backup: opt_view(self.backup) }
    }
}

/// What an [`InPlace`] holds.
#[verifier::ext_equal]
pub struct InPlaceView {
    pub in_place: bool,
    pub in_place_suffix: Option<Seq<char>>,
    pub follow_symlinks: bool,
    pub delimiter: u8,
    pub separate: bool,
    pub drive_paths: bool,
    pub original_path: Option<Seq<u8>>,
}

/// The state of editing files, possibly in place.
#[derive(Debug)]
pub struct InPlace {
    /// Whether files are edited in place.
    pub in_place: bool,
    /// What is added to the name of a file to name its backup.
    pub in_place_suffix: Option<String>,
    /// Whether a symbolic link stands for the file that it leads to.
    pub follow_symlinks: bool,
    /// The delimiter of output lines: NUL or a line feed.
    pub delimiter: u8,
    /// Whether every file is a stream of its own.
    pub separate: bool,
    /// Whether the platform has drives.
    pub drive_paths: bool,
    /// The file that is being edited in place.
    pub original_path: Option<Vec<u8>>,
}

impl View for InPlace {
    type V = InPlaceView;

    open spec fn view(&self) -> InPlaceView {
        InPlaceView {
            in_place: self.in_place,
            in_place_suffix: opt_view(self.in_place_suffix),
            follow_symlinks: self.follow_symlinks,
            delimiter: self.delimiter,
            separate: self.separate,
            drive_paths: self.drive_paths,
            original_path: opt_view(self.original_path),
        }
    }
}

/// The state of editing before the first file.
pub open spec fn in_place_of(context: ContextView) -> InPlaceView {
    InPlaceView {
        in_place: context.options.in_place,
        in_place_suffix: context.options.in_place_suffix,
        follow_symlinks: context.options.follow_symlinks,
        delimiter: delimiter_of(context),
        separate: context.options.separate,
        drive_paths: context.options.drive_paths,
        original_path: None,
    }
}

/// Where the output for a file goes, or nothing for a file that is none of the usual kind and
/// cannot be edited in place. Files that are streams of their own share the line state of
/// standard output, so that a line end that one of them lacks is added before the next; files
/// that make up one stream do not.
pub open spec fn output_plan(state: InPlaceView, regular: bool) -> Option<OutputPlan> {
    if !state.in_place {
        if state.separate {
            Some(OutputPlan::KeepStandardOutput)
        } else {
            Some(OutputPlan::FreshStandardOutput)
        }
    } else if regular {
        Some(OutputPlan::TemporaryFile)
    } else {
        None
    }
}

/// The error that the file, whose path is shown as `quoted`, cannot be edited in place.
pub open spec fn not_regular(quoted: Seq<char>) -> ErrorView {
    ErrorView {
        code: 2,
        message: "cannot in-place edit non-regular file "@ + quoted,
        reason: None,
    }
}

/// The error that the file, whose path is already in quotes, cannot be edited in place.
pub fn not_regular_error(quoted: &str) -> (error: SedError)
    ensures
        error@ == not_regular(quoted@),
{
    let mut message = String::from_str("cannot in-place edit non-regular file ");
    message.append(quoted);
    SedError::new(2, message)
}

/// What editing a file in place attempts, and may fail to do.
#[derive(Debug)]
pub enum Attempt {
    /// To find the file that the symbolic link at the path leads to.
    ResolveLink(Vec<u8>),
    /// To find out what kind of file is at the path.
    ReadMetadata(Vec<u8>),
    /// To create a temporary file in the directory at the path.
    CreateTemporary(Vec<u8>),
    /// To keep the file at the first path under the second one.
    BackUp(Vec<u8>, Vec<u8>),
    /// To remove the file at the path, so that another one can be put in its place.
    RemoveOriginal(Vec<u8>),
    /// To put the temporary file at the first path in place of the file at the second one.
    Persist(Vec<u8>, Vec<u8>),
}

/// The paths that an attempt is about. One that is about a single path has it twice.
pub open spec fn attempt_paths(attempt: Attempt) -> (Seq<u8>, Seq<u8>) {
    match attempt {
        Attempt::ResolveLink(path) => (path@, path@),
        Attempt::ReadMetadata(path) => (path@, path@),
        Attempt::CreateTemporary(path) => (path@, path@),
        Attempt::BackUp(from, to) => (from@, to@),
        Attempt::RemoveOriginal(path) => (path@, path@),
        Attempt::Persist(from, to) => (from@, to@),
    }
}

/// What an error says of the attempt that failed, whose paths are shown as `first` and
/// `second`.
pub open spec fn attempt_text(attempt: Attempt, first: Seq<char>, second: Seq<char>) -> Seq<char> {
    match attempt {
        Attempt::ResolveLink(_) => "resolving symlink "@ + first,
        Attempt::ReadMetadata(_) => "error Reading metadata of "@ + first
            + " for in-place edit"@,
        Attempt::CreateTemporary(_) => "error creating temporary file in "@ + first,
        Attempt::BackUp(_, _) => "error backing up "@ + first + " to "@ + second,
        Attempt::RemoveOriginal(_) => "error removing original input file "@ + first,
        Attempt::Persist(_, _) => "error persisting temporary file "@ + first + " to "@ + second,
    }
}

impl Attempt {
    /// What an error says of this attempt. It shows paths in the quotes of the platform's
    /// shell.
    pub fn describe(&self) -> (text: String)
        ensures
            exists|first: Seq<char>, second: Seq<char>|
                text@ == #[trigger] attempt_text(*self, first, second) && shows_path(
                    first,
                    attempt_paths(*self).0,
                ) && shows_path(second, attempt_paths(*self).1),
    {
        let (first, second) = match self {
            Attempt::ResolveLink(path) => (quote_path(path), quote_path(path)),
            Attempt::ReadMetadata(path) => (quote_path(path), quote_path(path)),
            Attempt::CreateTemporary(path) => (quote_path(path), quote_path(path)),
            Attempt::BackUp(from, to) => (quote_path(from), quote_path(to)),
            Attempt::RemoveOriginal(path) => (quote_path(path), quote_path(path)),
            Attempt::Persist(from, to) => (quote_path(from), quote_path(to)),
        };
        self.describe_with(first.as_str(), second.as_str())
    }

    /// What an error says of this attempt, whose paths are already in quotes.
    pub fn describe_with(&self, first: &str, second: &str) -> (text: String)
        ensures
            text@ == attempt_text(*self, first@, second@),
    {
        match self {
            Attempt::ResolveLink(_) => {
                let mut text = String::from_str("resolving symlink ");
                text.append(first);
                text
            },
            Attempt::ReadMetadata(_) => around_text(
                "error Reading metadata of ",
                first,
                " for in-place edit",
            ),
            Attempt::CreateTemporary(_) => {
                let mut text = String::from_str("error creating temporary file in ");
                text.append(first);
                text
            },
            Attempt::BackUp(_, _) => {
                let mut text = around_text("error backing up ", first, " to ");
                text.append(second);
                text
            },
            Attempt::RemoveOriginal(_) => {
                let mut text = String::from_str("error removing original input file ");
                text.append(first);
                text
            },
            Attempt::Persist(_, _) => {
                let mut text = around_text("error persisting temporary file ", first, " to ");
                text.append(second);
                text
            },
        }
    }
}

/// The path of the backup of the file at `path`: in the same directory, under its name with
/// the suffix.
pub open spec fn backup_path(path: Seq<u8>, suffix: Option<Seq<char>>, drives: bool) -> Option<
    Seq<u8>,
> {
    match (suffix, path_parts(path, drives)) {
        (Some(s), Some(parts)) => Some(joined(parts.parent, parts.name + encode_utf8(s), drives)),
        _ => None,
    }
}

/// Whether a backup of the file at `path` can be named, if there is to be one: the path ends in
/// the name of a file.
pub open spec fn can_back_up(path: Seq<u8>, suffix: Option<Seq<char>>, drives: bool) -> bool {
    suffix is Some ==> path_parts(path, drives) is Some
}

/// The state once the file `file_name` is begun with.
pub open spec fn begun(state: InPlaceView, file_name: Seq<u8>, regular: bool) -> InPlaceView {
    if state.in_place && regular {
        InPlaceView { original_path: Some(file_name), ..state }
    } else {
        state
    }
}

/// How the file that is being edited is replaced, if it is edited in place.
pub open spec fn replacement_of(state: InPlaceView) -> Option<ReplacementView> {
    match state.original_path {
        Some(path) => if state.in_place {
            Some(
                ReplacementView {
                    original: path,
                    backup: backup_path(path, state.in_place_suffix, state.drive_paths),
                },
            )
        } else {
            None
        },
        None => None,
    }
}

/// The state once a file is ended with.
pub open spec fn ended(state: InPlaceView) -> InPlaceView {
    if state.in_place {
        InPlaceView { original_path: None, ..state }
    } else {
        state
    }
}

/// A file that is begun with is the one that is replaced at its end, if it is edited in place,
/// and then the state is as it was before the file. A backup is kept exactly if there is a
/// suffix for it.
pub proof fn law_file_begun_is_replaced(state: InPlaceView, file_name: Seq<u8>)
    requires
        state.original_path is None,
        can_back_up(file_name, state.in_place_suffix, state.drive_paths),
    ensures
        replacement_of(begun(state, file_name, true)) == if state.in_place {
            Some(
                ReplacementView {
                    original: file_name,
                    backup: backup_path(file_name, state.in_place_suffix, state.drive_paths),
                },
            )
        } else {
            None
        },
        backup_path(file_name, state.in_place_suffix, state.drive_paths) is Some
            == state.in_place_suffix is Some,
        ended(begun(state, file_name, true)) == state,
{
}

impl InPlace {
    /// The state of editing files as the context asks for it: in place or not, with or without
    /// a backup, symbolic links followed or not.
    pub fn new(context: &ProcessingContext) -> (state: Self)
        ensures
            state@ == in_place_of(context@),
    {
        InPlace {
            in_place: context.in_place,
            in_place_suffix: match &context.in_place_suffix {
                Some(suffix) => Some(suffix.clone()),
                None => None,
            },
            follow_symlinks: context.follow_symlinks,
            delimiter: if context.null_data {
                0
            } else {
                10
            },
            separate: context.separate,
            drive_paths: context.drive_paths,
            original_path: None,
        }
    }

    /// Begins with the file `file_name`, whose path has its symbolic links resolved as asked
    /// for. `regular` tells whether it is a regular file. Returns where its output goes, or, if
    /// it is none and was to be edited in place, an error that shows its path in the quotes of
    /// the platform's shell.
    pub fn begin(&mut self, file_name: &[u8], regular: bool) -> (result: SedResult<OutputPlan>)
        ensures
            match result {
                Ok(plan) => output_plan(old(self)@, regular) == Some(plan),
                Err(e) => output_plan(old(self)@, regular) is None && exists|quoted: Seq<char>|
                    e@ == #[trigger] not_regular(quoted) && shows_path(quoted, file_name@),
            },
            final(self)@ == begun(old(self)@, file_name@, regular),
    {
        if !self.in_place {
            return if self.separate {
                Ok(OutputPlan::KeepStandardOutput)
            } else {
                Ok(OutputPlan::FreshStandardOutput)
            };
        }
        if !regular {
            let quoted = quote_path(file_name);
            return Err(not_regular_error(quoted.as_str()));
        }
        let path = copy_range(file_name, 0, file_name.len());
        assert(path@ =~= file_name@);
        self.original_path = Some(path);
        Ok(OutputPlan::TemporaryFile)
    }

    /// Ends with a file. If it is edited in place, returns how it is replaced.
    pub fn end(&mut self) -> (replacement: Option<Replacement>)
        requires
            old(self)@.in_place ==> match old(self)@.original_path {
                Some(path) => can_back_up(
                    path,
                    old(self)@.in_place_suffix,
                    old(self)@.drive_paths,
                ),
                None => false,
            },
        ensures
            opt_view(replacement) == replacement_of(old(self)@),
            final(self)@ == ended(old(self)@),
    {
        if !self.in_place {
            return None;
        }
        let original = match self.original_path.take() {
            Some(path) => path,
            None => {
                return None;
            },
        };
        // Backup original if suffix is provided
        let backup = match &self.in_place_suffix {
            Some(suffix) => match split_path(&original, self.drive_paths) {
                Some((parent, mut name)) => {
                    let ghost plain = name@;
                    name.extend_from_slice(suffix.as_str().as_bytes());
                    assert(name@ =~= plain + encode_utf8(suffix@));
                    Some(join(&parent, &name, self.drive_paths))
                },
                None => None,
            },
            None => None,
        };
        Some(Replacement { original, backup })
    }
}

} // verus!
