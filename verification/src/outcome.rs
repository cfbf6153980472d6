//! What a resolution ends in when it does not end in a document.

use crate::error::Error;
use crate::error::ErrorKind;
use crate::error::Failure;
use vstd::prelude::*;

verus! {

/// How a document that is not in the cache has to be loaded.
#[derive(Clone, Copy, Debug, PartialEq, Eq, Structural)]
pub enum Transport {
    /// By a GET request to its identifier.
    Http,
    /// By reading the file at the path of its identifier.
    File,
}

/// A document that has to be loaded before resolution can go on.
#[derive(Debug, PartialEq, Eq)]
pub struct Request {
    pub transport: Transport,
    /// The identifier under which the document has to be provided.
    pub identifier: String,
    /// The path of the file to read, for a local document.
    pub path: Option<String>,
    /// The base identifier in effect where the reference stands.
    pub base: String,
    /// The reference that leads to the document.
    pub reference: String,
}

/// The model of a [`Request`].
pub struct Need {
    pub transport: Transport,
    pub identifier: Seq<char>,
    pub path: Option<Seq<char>>,
    pub base: Seq<char>,
    pub reference: Seq<char>,
}

impl View for Request {
    type V = Need;

    open spec fn view(&self) -> Need {
        Need {
            transport: self.transport,
            identifier: self.identifier@,
            path: match self.path {
                Some(p) => Some(p@),
                None => None,
            },
            base: self.base@,
            reference: self.reference@,
        }
    }
}

/// The failure to report when the document that `need` asks for cannot be
/// loaded.
pub open spec fn load_failure(need: Need) -> Failure {
    Failure {
        kind: match need.transport {
            Transport::Http => ErrorKind::FetchError,
            Transport::File => ErrorKind::FileError,
        },
        base: need.base,
        reference: need.reference,
    }
}

impl Request {
    /// The error to return when the document cannot be loaded.
    pub fn failure(&self) -> (e: Error)
        ensures
            e@ == load_failure(self@),
    {
        let kind = match self.transport {
            Transport::Http => ErrorKind::FetchError,
            Transport::File => ErrorKind::FileError,
        };
        Error { kind, base: self.base.clone(), reference: self.reference.clone() }
    }
}

/// Why a resolution stopped short of a resolved document.
#[derive(Debug, PartialEq, Eq)]
pub enum Stop {
    /// A document is missing from the cache: load it, provide it, and
    /// resolve again.
    Load(Request),
    /// The resolution failed.
    Failed(Error),
}

/// The model of a [`Stop`].
pub enum Halt {
    Load(Need),
    Failed(Failure),
}

impl View for Stop {
    type V = Halt;

    open spec fn view(&self) -> Halt {
        match self {
            Stop::Load(request) => Halt::Load(request@),
            Stop::Failed(error) => Halt::Failed(error@),
        }
    }
}

} // verus!
