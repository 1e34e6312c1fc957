//! Failures the navigation core can report.

use vstd::prelude::*;

verus! {

/// Failure taxonomy of the core.
///
/// `MissingArgument`: a command that needs a value was given none.
/// `NotFound`: an unwind asked for an identifier no entry carries; the
/// stack is left untouched.
/// `CorruptState`: a complete record of the backing file does not parse, or
/// the identifiers do not strictly increase; no entry is silently dropped.
///
/// I/O failures are reported by the calling binary, which owns all file
/// access.
#[derive(Clone, Copy, Debug, PartialEq, Eq, Structural)]
pub enum NavError {
    MissingArgument,
    NotFound,
    CorruptState,
}

} // verus!
