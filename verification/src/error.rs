//! The ways in which tailing can fail, and which of them end the run.

use vstd::prelude::*;

verus! {

/// A failure met while tailing or following.
#[derive(Clone, Copy, Debug, PartialEq, Eq, Structural)]
pub enum TailError {
    /// The path given does not name an existing file.
    NotFound,
    /// Opening, seeking or reading the source failed.
    IoError,
    /// A run of bytes that was to be shown is not valid text.
    EncodingError,
    /// The number of lines asked for is not a number.
    ArgumentError,
}

/// The part of a run in which a failure is met.
#[derive(Clone, Copy, Debug, PartialEq, Eq, Structural)]
pub enum Phase {
    /// Showing the last lines of the source, once, at the start.
    InitialTail,
    /// Watching the source and showing what is appended to it.
    Follow,
}

impl TailError {
    /// True when this failure, met in `phase`, ends the run.
    ///
    /// A missing file and a bad argument are found before any tailing and always end
    /// the run. A failed read or undecodable text ends it during the initial tail;
    /// while following, only the one change is skipped and the watch goes on.
    pub open spec fn fatal_in(self, phase: Phase) -> bool {
        match self {
            TailError::NotFound | TailError::ArgumentError => true,
            TailError::IoError | TailError::EncodingError => phase == Phase::InitialTail,
        }
    }

    /// Tells whether this failure, met in `phase`, ends the run.
    pub fn is_fatal(&self, phase: Phase) -> (fatal: bool)
        ensures
            fatal == self.fatal_in(phase),
    {
        match self {
            TailError::NotFound => true,
            TailError::ArgumentError => true,
            TailError::IoError => phase == Phase::InitialTail,
            TailError::EncodingError => phase == Phase::InitialTail,
        }
    }
}

} // verus!
