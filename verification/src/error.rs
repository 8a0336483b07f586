//! How a command fails.

use vstd::prelude::*;

verus! {

/// `std::io::ErrorKind`, the kinds of I/O errors. The enum is declared to
/// Verus as the standard library defines it; nothing more is claimed of it.
#[verifier::external_type_specification]
pub struct ExErrorKind(std::io::ErrorKind);

/// Why the file system answered a query with a refusal.
#[derive(Debug, Clone, Copy, PartialEq, Eq, Structural)]
pub enum AccessFailure {
    /// The path could not be resolved.
    Missing,
    /// The caller may not look at the path.
    Denied,
}

impl AccessFailure {
    /// Every refusal counts as a missing path, except the one that the
    /// platform reports as a lack of permission.
    pub open spec fn of_kind(kind: std::io::ErrorKind) -> AccessFailure {
        if kind == std::io::ErrorKind::PermissionDenied {
            AccessFailure::Denied
        } else {
            AccessFailure::Missing
        }
    }

    /// Sorts the kind of an I/O error into the two refusals that a command
    /// tells apart.
    pub fn from_kind(kind: std::io::ErrorKind) -> (failure: AccessFailure)
        ensures
            failure == Self::of_kind(kind),
    {
        match kind {
            std::io::ErrorKind::PermissionDenied => AccessFailure::Denied,
            _ => AccessFailure::Missing,
        }
    }
}

/// Why a command produced no output.
#[derive(Debug, PartialEq, Eq)]
pub enum CommandError {
    /// Nothing could be resolved at the path, which the error carries.
    NotFound(Vec<u8>),
    /// The path, which the error carries, may not be looked at.
    PermissionDenied(Vec<u8>),
    /// The path names a file whose name is not text.
    InvalidFileName,
}

/// A [`CommandError`] as a mathematical value.
pub enum ErrorModel {
    NotFound(Seq<u8>),
    PermissionDenied(Seq<u8>),
    InvalidFileName,
}

impl View for CommandError {
    type V = ErrorModel;

    open spec fn view(&self) -> ErrorModel {
        match self {
            CommandError::NotFound(path) => ErrorModel::NotFound(path@),
            CommandError::PermissionDenied(path) => ErrorModel::PermissionDenied(path@),
            CommandError::InvalidFileName => ErrorModel::InvalidFileName,
        }
    }
}

/// The error that a refused query about `path` leads to.
pub open spec fn refusal(failure: AccessFailure, path: Seq<u8>) -> ErrorModel {
    match failure {
        AccessFailure::Missing => ErrorModel::NotFound(path),
        AccessFailure::Denied => ErrorModel::PermissionDenied(path),
    }
}

impl CommandError {
    /// Reports a refused query about `path`.
    pub fn refused(failure: AccessFailure, path: Vec<u8>) -> (error: CommandError)
        ensures
            error@ == refusal(failure, path@),
    {
        match failure {
            AccessFailure::Missing => CommandError::NotFound(path),
            AccessFailure::Denied => CommandError::PermissionDenied(path),
        }
    }
}

} // verus!
