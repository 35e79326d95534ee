//! Error type for `part`.
//!
//! A refusal (a safety guard, a foreign table) exits differently from a
//! failure, so a script can tell them apart without reading prose.
use crate::text::{decimal, extend_chars, extend_str, string_from_chars, u64_decimal};
use vstd::prelude::*;

verus! {

#[verifier::external_type_specification]
#[verifier::external_body]
pub struct ExIoError(std::io::Error);

pub type Result<T> = std::result::Result<T, PartError>;

#[derive(Debug)]
pub enum PartError {
    /// Bad invocation, or a request that cannot be satisfied as asked.
    Usage(String),
    /// The device could not be read or written.
    Io { path: String, source: std::io::Error },
    /// There is no GPT here (as opposed to a damaged one).
    NoGpt,
    /// A GPT is present but structurally wrong. Reported, never repaired.
    Damaged(String),
    /// The disk carries something `part` will not manage.
    Foreign(String),
    /// The requested size does not fit.
    NoSpace { wanted: u64, largest: u64 },
    /// A safety guard fired.
    Refused(String),
}

/// Exit code of an error: 2 for I/O, 3 for a refusal or a foreign table, else 1.
pub open spec fn part_exit_code(e: &PartError) -> i32 {
    match e {
        PartError::Io { .. } => 2,
        PartError::Refused(_) | PartError::Foreign(_) => 3,
        _ => 1,
    }
}

/// The message of every error but `Io`; of `Io`, the path that leads its message.
pub open spec fn part_message(e: &PartError) -> Seq<char> {
    match e {
        PartError::Usage(m) => m@,
        PartError::Io { path, .. } => path@,
        PartError::NoGpt => "no GPT partition table"@,
        PartError::Damaged(m) => "damaged GPT: "@ + m@,
        PartError::Foreign(m) => m@,
        PartError::NoSpace { wanted, largest } => "no free extent holds "@ + decimal(
            *wanted as nat,
        ) + " sectors (largest is "@ + decimal(*largest as nat) + ")"@,
        PartError::Refused(m) => m@,
    }
}

impl PartError {
    /// 1: usage or genuine failure; 2: I/O against the device; 3: refused by a
    /// safety guard, including a foreign table.
    pub fn exit_code(&self) -> (r: i32)
        ensures
            r == part_exit_code(self),
    {
        match self {
            PartError::Io { .. } => 2,
            PartError::Refused(_) | PartError::Foreign(_) => 3,
            _ => 1,
        }
    }

    /// The one-line description of the error.
    pub fn message(&self) -> (s: String)
        ensures
            !(self is Io) ==> s@ == part_message(self),
            self is Io ==> exists|t: Seq<char>| s@ == self->path@ + ": "@ + t,
    {
        let mut v: Vec<char> = Vec::new();
        match self {
            PartError::Usage(m) => extend_str(&mut v, m.as_str()),
            PartError::Io { path, source } => {
                extend_str(&mut v, path.as_str());
                extend_str(&mut v, ": ");
                let t = io_error_text(source);
                extend_str(&mut v, t.as_str());
                assert(v@ =~= path@ + ": "@ + t@);
            },
            PartError::NoGpt => extend_str(&mut v, "no GPT partition table"),
            PartError::Damaged(m) => {
                extend_str(&mut v, "damaged GPT: ");
                extend_str(&mut v, m.as_str());
            },
            PartError::Foreign(m) => extend_str(&mut v, m.as_str()),
            PartError::NoSpace { wanted, largest } => {
                extend_str(&mut v, "no free extent holds ");
                let w = u64_decimal(*wanted);
                extend_chars(&mut v, &w);
                extend_str(&mut v, " sectors (largest is ");
                let l = u64_decimal(*largest);
                extend_chars(&mut v, &l);
                extend_str(&mut v, ")");
            },
            PartError::Refused(m) => extend_str(&mut v, m.as_str()),
        }
        string_from_chars(&v)
    }
}

/// The `Display` text of an I/O error (`std::io::Error`'s `to_string`).
///
/// Nothing is stated of the text: it is whatever the operating system's
/// description of the error is.
#[verifier::external_body]
fn io_error_text(e: &std::io::Error) -> String {
    e.to_string()
}

} // verus!
