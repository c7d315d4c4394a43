//! The error taxonomy shared by every operation of the tracker core.

use vstd::prelude::*;

verus! {

/// One failure class per kind of fault an operation can report. Nothing is
/// silently swallowed except the documented empty-diff no-op when recording
/// a change.
#[derive(Debug)]
pub enum Error {
    /// A filesystem-level failure, with the offending path or message.
    IoError(String),
    /// A missing path, change hash, identity or record.
    NotFound(String),
    /// An attempt to create a document whose file already exists.
    AlreadyExists(String),
    /// Malformed front matter, configuration or identity data.
    DeserError(String),
    /// An opaque wrapped failure from the version-control layer.
    RepoError(String),
    /// A failure of the index backend.
    DbError(String),
    /// A contract-violation catch-all without further detail.
    Unknown,
    /// A contract-violation catch-all carrying a message.
    Msg(String),
}

/// Builds the catch-all error from a message.
pub fn msg(m: String) -> (e: Error)
    ensures
        e == Error::Msg(m),
{
    Error::Msg(m)
}

} // verus!
