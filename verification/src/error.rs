//! Error type for the storage core.
//!
//! The important invariant: a corrupted or hostile file must always surface
//! as `Error::Corrupted` or `Error::InvalidFormat`, never as a panic.

use vstd::prelude::*;
use vstd::string::*;

use crate::strings::{join2, owned, u64_text};

verus! {

/// Why the storage underneath failed.
#[derive(Debug, Clone, PartialEq, Eq)]
pub enum IoError {
    /// A read went past the end.
    UnexpectedEof,
    /// Anything else, in the words of whoever reported it.
    Other(String),
}

#[derive(Debug, Clone, PartialEq, Eq)]
pub enum Error {
    /// Underlying I/O failed.
    Io(IoError),
    /// The file claims to be a Quanty database but its content does not
    /// check out (bad checksum, impossible pointers, truncation).
    Corrupted { page: Option<u64>, reason: String },
    /// The file is not a Quanty database, or a version we cannot read.
    InvalidFormat(String),
    /// Attempted to write a page that was not allocated in the current
    /// write batch. Committed pages are immutable, that is the whole point.
    PageNotWritable(u64),
    /// Page id is outside the committed file, or points at a meta page.
    PageOutOfBounds(u64),
    /// Bad caller-supplied option, e.g. an invalid page size.
    InvalidArgument(&'static str),
    /// Another handle holds the writer lock on this file.
    AlreadyOpen,
}

pub type Result<T> = core::result::Result<T, Error>;

impl Error {
    pub fn corrupted(page: Option<u64>, reason: &str) -> (r: Error)
        ensures
            r matches Error::Corrupted { page: p, reason: why } && p == page && why@ == reason@,
    {
        Error::Corrupted { page, reason: owned(reason) }
    }

    /// What a person reads.
    pub open spec fn text(&self) -> Seq<char> {
        match self {
            Error::Io(e) => "io error: "@ + (match e {
                IoError::UnexpectedEof => "unexpected end of file"@,
                IoError::Other(m) => m@,
            }),
            Error::Corrupted { page: Some(p), reason } => "corrupted database (page "@
                + crate::strings::decimal(*p as nat) + "): "@ + reason@,
            Error::Corrupted { page: None, reason } => "corrupted database: "@ + reason@,
            Error::InvalidFormat(reason) => "invalid format: "@ + reason@,
            Error::PageNotWritable(p) => "page "@ + crate::strings::decimal(*p as nat)
                + " is not writable in this batch (committed pages are immutable)"@,
            Error::PageOutOfBounds(p) => "page "@ + crate::strings::decimal(*p as nat)
                + " is out of bounds"@,
            Error::InvalidArgument(reason) => "invalid argument: "@ + reason@,
            Error::AlreadyOpen => "the database is already open for writing"@,
        }
    }

    /// What a person reads.
    pub fn message(&self) -> (r: String)
        ensures
            r@ == self.text(),
    {
        match self {
            Error::Io(e) => match e {
                IoError::UnexpectedEof => join2("io error: ", "unexpected end of file"),
                IoError::Other(m) => join2("io error: ", m.as_str()),
            },
            Error::Corrupted { page: Some(p), reason } => {
                let mut out = owned("corrupted database (page ");
                out.append(u64_text(*p).as_str());
                out.append("): ");
                out.append(reason.as_str());
                out
            },
            Error::Corrupted { page: None, reason } => join2(
                "corrupted database: ",
                reason.as_str(),
            ),
            Error::InvalidFormat(reason) => join2("invalid format: ", reason.as_str()),
            Error::PageNotWritable(p) => {
                let mut out = owned("page ");
                out.append(u64_text(*p).as_str());
                out.append(" is not writable in this batch (committed pages are immutable)");
                out
            },
            Error::PageOutOfBounds(p) => {
                let mut out = owned("page ");
                out.append(u64_text(*p).as_str());
                out.append(" is out of bounds");
                out
            },
            Error::InvalidArgument(reason) => join2("invalid argument: ", reason),
            Error::AlreadyOpen => owned("the database is already open for writing"),
        }
    }
}

} // verus!
