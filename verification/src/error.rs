//! The single error type shared by the decoder and its collaborators.
//!
//! Every failure is a [`TaggedError`]: an [`ErrorKind`] saying which stage
//! failed, plus a human-readable message. Per-cell decode failures are never
//! errors; only structural failures of the bulletin, and failures passed
//! through from the retrieval and extraction collaborators, surface here.

use vstd::prelude::*;

verus! {

/// The kind of a decode or collaborator failure.
#[derive(Clone, Copy, Debug, PartialEq, Eq, Structural)]
pub enum ErrorKind {
    /// The raw text has no characters at all.
    EmptyInput,
    /// The header line is missing one of its required tokens.
    MalformedHeader,
    /// The header's date or time token does not match the expected format.
    TimestampParse,
    /// No line carries the hour-row label.
    NoHourRow,
    /// The hour row holds no two-digit column marker.
    NoColumns,
    /// A transport failure from the retrieval collaborator, passed through.
    Transport,
    /// A failure of the HTML text extraction collaborator, passed through.
    Extraction,
}

/// A terminal failure: its kind, and a message for the caller.
#[derive(Debug)]
pub struct TaggedError {
    /// Which stage failed.
    pub kind: ErrorKind,
    /// A human-readable description of the failure.
    pub msg: String,
}

/// Builds the error the extraction collaborator reports: the raw HTML held
/// no preformatted block to decode.
pub fn new(msg: &str) -> (e: TaggedError)
    ensures
        e.kind == ErrorKind::Extraction,
        e.msg@ == msg@,
{
    TaggedError { kind: ErrorKind::Extraction, msg: msg.to_owned() }
}

/// Builds an error of the given kind.
pub fn with_kind(kind: ErrorKind, msg: &str) -> (e: TaggedError)
    ensures
        e.kind == kind,
        e.msg@ == msg@,
{
    TaggedError { kind, msg: msg.to_owned() }
}

impl TaggedError {
    /// The message, for callers that cannot read the field directly.
    pub fn message(&self) -> (m: String)
        ensures
            m@ == self.msg@,
    {
        self.msg.clone()
    }
}

} // verus!
