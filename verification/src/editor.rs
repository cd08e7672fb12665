//! How the editor ended, and what is said when it did not end well.
//!
//! The editor is started elsewhere. Here it is decided what its end means: an
//! editor that did not succeed ends the edit, with its exit code where it has
//! one and without where it was killed.

use crate::number::digits;
use crate::quote::{ascii, push_number, quote_text, text_debug};
use vstd::prelude::*;
use vstd::string::StringExecFns;

verus! {

/// Why the editor's end is taken for a failure.
#[derive(Debug, Clone, Copy, PartialEq, Eq)]
pub enum EditorError {
    /// The editor ended with this exit code, which says that it failed.
    ExitCode(i32),
    /// The editor ended without an exit code: a signal has ended it.
    NoExitCode,
}

/// What the end of the editor means. `success` says whether the editor
/// reported success, and `code` is its exit code where it has one.
pub open spec fn verdict_of_end(success: bool, code: Option<i32>) -> Result<(), EditorError> {
    if success {
        Ok(())
    } else {
        match code {
            Some(code) => Err(EditorError::ExitCode(code)),
            None => Err(EditorError::NoExitCode),
        }
    }
}

/// A whole number as decimal text, with a `-` in front where it is negative.
pub open spec fn int_text(i: int) -> Seq<char> {
    if i < 0 {
        "-"@ + ascii(digits((-i) as nat))
    } else {
        ascii(digits(i as nat))
    }
}

/// The words for an editor that ended badly. `quoted` shows the editor's
/// command.
pub open spec fn exit_text(error: EditorError, quoted: Seq<char>) -> Seq<char> {
    match error {
        EditorError::ExitCode(code) => "Editor "@ + quoted + " returned error code "@ + int_text(
            code as int,
        ),
        EditorError::NoExitCode => "Editor "@ + quoted + " returned an error"@,
    }
}

/// The words for an editor that could not be started. `quoted` shows the
/// editor's command.
pub open spec fn launch_text(quoted: Seq<char>) -> Seq<char> {
    "Failed to open editor "@ + quoted
}

/// Decides what the end of the editor means.
pub fn check_editor(success: bool, code: Option<i32>) -> (r: Result<(), EditorError>)
    ensures
        r == verdict_of_end(success, code),
{
    if success {
        Ok(())
    } else {
        match code {
            Some(code) => Err(EditorError::ExitCode(code)),
            None => Err(EditorError::NoExitCode),
        }
    }
}

/// Appends a whole number as decimal text to `out`.
pub fn push_int(i: i32, out: &mut String)
    ensures
        final(out)@ == old(out)@ + int_text(i as int),
{
    if i < 0 {
        let size: usize = (-(i as i64)) as usize;
        out.append("-");
        push_number(size, out);
        proof {
            assert(final(out)@ =~= old(out)@ + int_text(i as int));
        }
    } else {
        push_number(i as usize, out);
    }
}

/// Says how the editor ended badly. `quoted` shows the editor's command.
pub fn exit_message(error: EditorError, quoted: &str) -> (r: String)
    ensures
        r@ == exit_text(error, quoted@),
{
    let mut r = String::from_str("Editor ");
    r.append(quoted);
    match error {
        EditorError::ExitCode(code) => {
            r.append(" returned error code ");
            push_int(code, &mut r);
        },
        EditorError::NoExitCode => {
            r.append(" returned an error");
        },
    }
    r
}

/// Says that the editor could not be started. `quoted` shows the editor's
/// command.
pub fn launch_message(quoted: &str) -> (r: String)
    ensures
        r@ == launch_text(quoted@),
{
    let mut r = String::from_str("Failed to open editor ");
    r.append(quoted);
    r
}

impl EditorError {
    /// The error in words, as it is shown to the user. `editor` is the
    /// command that was run.
    pub fn message(&self, editor: &str) -> (r: String)
        ensures
            r@ == exit_text(*self, text_debug(editor@)),
    {
        let quoted = quote_text(editor);
        exit_message(*self, quoted.as_str())
    }
}

/// Says that the editor with the command `editor` could not be started.
pub fn launch_failure(editor: &str) -> (r: String)
    ensures
        r@ == launch_text(text_debug(editor@)),
{
    let quoted = quote_text(editor);
    launch_message(quoted.as_str())
}

} // verus!
