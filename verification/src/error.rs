//! The ways in which resolution fails.

use vstd::prelude::*;

verus! {

/// The kinds of failure.
#[derive(Clone, Copy, Debug, PartialEq, Eq, Structural)]
pub enum ErrorKind {
    /// The base identifier in effect is not an absolute URI.
    InvalidBaseUri,
    /// The reference cannot be joined onto the base identifier.
    InvalidReference,
    /// A remote document could not be fetched.
    FetchError,
    /// A local document could not be read.
    FileError,
    /// The fragment of a reference names nothing in its document.
    PointerNotFound,
    /// The target document is neither remote nor a local file.
    UnsupportedScheme,
    /// References nest more deeply than the configured limit.
    DepthExceeded,
}

/// A failure, with the reference that caused it and the base identifier
/// that was in effect where the reference stood.
#[derive(Debug, PartialEq, Eq)]
pub struct Error {
    pub kind: ErrorKind,
    pub base: String,
    pub reference: String,
}

/// The model of an [`Error`].
pub struct Failure {
    pub kind: ErrorKind,
    pub base: Seq<char>,
    pub reference: Seq<char>,
}

impl View for Error {
    type V = Failure;

    open spec fn view(&self) -> Failure {
        Failure { kind: self.kind, base: self.base@, reference: self.reference@ }
    }
}

} // verus!
