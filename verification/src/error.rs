//! Error taxonomy of the engine. Every fallible operation of the library
//! reports one of these variants; contracts state exactly which variant
//! comes back on which inputs.

use vstd::prelude::*;

verus! {

/// The error type shared by every component of the engine.
#[derive(Debug, Clone, PartialEq, Eq)]
pub enum OxenError {
    /// A hash, path, branch or commit is missing.
    NotFound(String),
    /// A destination directory or branch name is already taken.
    AlreadyExists(String),
    /// A malformed path, ref or configuration value.
    InvalidArgument(String),
    /// A node DB is unreadable, a hash mismatches, a blob is truncated,
    /// or a node variant tag is unknown.
    Corrupted(String),
    /// An underlying filesystem or network failure.
    Io(String),
    /// The repository writer lock could not be acquired.
    Locked(String),
    /// The on-disk schema is newer than this engine.
    VersionMismatch(String),
    /// The requested back-end or operation is not implemented.
    UnsupportedOperation(String),
}

impl OxenError {
    /// Which variant this error is, as a stable discriminant for callers
    /// that do not care about the message.
    pub fn kind(&self) -> (k: OxenErrorKind)
        ensures
            k == self.spec_kind(),
    {
        match self {
            OxenError::NotFound(_) => OxenErrorKind::NotFound,
            OxenError::AlreadyExists(_) => OxenErrorKind::AlreadyExists,
            OxenError::InvalidArgument(_) => OxenErrorKind::InvalidArgument,
            OxenError::Corrupted(_) => OxenErrorKind::Corrupted,
            OxenError::Io(_) => OxenErrorKind::Io,
            OxenError::Locked(_) => OxenErrorKind::Locked,
            OxenError::VersionMismatch(_) => OxenErrorKind::VersionMismatch,
            OxenError::UnsupportedOperation(_) => OxenErrorKind::UnsupportedOperation,
        }
    }

    pub open spec fn spec_kind(&self) -> OxenErrorKind {
        match self {
            OxenError::NotFound(_) => OxenErrorKind::NotFound,
            OxenError::AlreadyExists(_) => OxenErrorKind::AlreadyExists,
            OxenError::InvalidArgument(_) => OxenErrorKind::InvalidArgument,
            OxenError::Corrupted(_) => OxenErrorKind::Corrupted,
            OxenError::Io(_) => OxenErrorKind::Io,
            OxenError::Locked(_) => OxenErrorKind::Locked,
            OxenError::VersionMismatch(_) => OxenErrorKind::VersionMismatch,
            OxenError::UnsupportedOperation(_) => OxenErrorKind::UnsupportedOperation,
        }
    }

    /// The human-readable message carried by the error.
    pub fn message(&self) -> &str {
        match self {
            OxenError::NotFound(m) => m.as_str(),
            OxenError::AlreadyExists(m) => m.as_str(),
            OxenError::InvalidArgument(m) => m.as_str(),
            OxenError::Corrupted(m) => m.as_str(),
            OxenError::Io(m) => m.as_str(),
            OxenError::Locked(m) => m.as_str(),
            OxenError::VersionMismatch(m) => m.as_str(),
            OxenError::UnsupportedOperation(m) => m.as_str(),
        }
    }
}

/// The variant of an [`OxenError`], without its message.
#[derive(Debug, Clone, Copy, PartialEq, Eq, Structural)]
pub enum OxenErrorKind {
    NotFound,
    AlreadyExists,
    InvalidArgument,
    Corrupted,
    Io,
    Locked,
    VersionMismatch,
    UnsupportedOperation,
}

} // verus!
