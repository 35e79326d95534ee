//! regman's error type and exit codes: 1 usage, 2 not found, 3 a malformed
//! fragment or lint problems, 4 a filesystem failure.
use crate::text::{extend_str, string_from_chars};
use vstd::prelude::*;

verus! {

#[derive(Debug)]
pub enum Error {
    /// Bad flags, conflicting options, malformed invocation. Exit 1.
    Usage(String),
    /// No documentation found for the requested path/value. Exit 2.
    NotFound(String),
    /// A fragment was malformed, or `lint` found problems. Exit 3.
    Fragment(String),
    /// Filesystem / IO failure. Exit 4.
    Io(String),
}

pub type Result<T> = std::result::Result<T, Error>;

pub open spec fn man_exit_code(e: Error) -> i32 {
    match e {
        Error::Usage(_) => 1,
        Error::NotFound(_) => 2,
        Error::Fragment(_) => 3,
        Error::Io(_) => 4,
    }
}

pub open spec fn man_message(e: Error) -> Seq<char> {
    match e {
        Error::Usage(m) => "usage: "@ + m@,
        Error::NotFound(m) => "no manual entry for "@ + m@,
        Error::Fragment(m) => m@,
        Error::Io(m) => m@,
    }
}

impl Error {
    pub fn exit_code(&self) -> (r: i32)
        ensures
            r == man_exit_code(*self),
    {
        match self {
            Error::Usage(_) => 1,
            Error::NotFound(_) => 2,
            Error::Fragment(_) => 3,
            Error::Io(_) => 4,
        }
    }

    /// The message shown for this error.
    pub fn message(&self) -> (s: String)
        ensures
            s@ == man_message(*self),
    {
        let mut v: Vec<char> = Vec::new();
        match self {
            Error::Usage(m) => {
                extend_str(&mut v, "usage: ");
                extend_str(&mut v, m.as_str());
            },
            Error::NotFound(m) => {
                extend_str(&mut v, "no manual entry for ");
                extend_str(&mut v, m.as_str());
            },
            Error::Fragment(m) => extend_str(&mut v, m.as_str()),
            Error::Io(m) => extend_str(&mut v, m.as_str()),
        }
        string_from_chars(&v)
    }
}

} // verus!
