//! reg's error type, and the exit code each kind maps to.
//!
//! 1 usage, 2 not found, 3 access denied, 4 invalid spec, 5 syscall or
//! source failure, 6 compare-and-swap conflict.
use crate::text::{extend_str, string_from_chars};
use vstd::prelude::*;

verus! {

pub const EPERM: i32 = 1;
pub const ENOENT: i32 = 2;
pub const EIO: i32 = 5;
pub const EAGAIN: i32 = 11;
pub const EACCES: i32 = 13;
pub const EEXIST: i32 = 17;
pub const EXDEV: i32 = 18;
pub const EINVAL: i32 = 22;
pub const ENAMETOOLONG: i32 = 36;
pub const ENOTEMPTY: i32 = 39;
pub const ELOOP: i32 = 40;

#[derive(Debug)]
pub enum Error {
    /// Usage / argument problem (exit 1).
    Usage(String),
    /// No such key or value (exit 2).
    NotFound(String),
    /// Access denied (exit 3).
    Denied { op: &'static str, target: String, errno: i32 },
    /// Invalid spec: bad path, type, literal, cross-hive transaction (exit 4).
    InvalidSpec(String),
    /// Syscall / source failure (exit 5).
    Syscall { op: &'static str, errno: i32, detail: Option<String> },
    /// Compare-and-swap conflict from `--expected-seq` (exit 6).
    Conflict { target: String },
}

pub type Result<T> = std::result::Result<T, Error>;

pub open spec fn reg_exit_code(e: Error) -> i32 {
    match e {
        Error::Usage(_) => 1,
        Error::NotFound(_) => 2,
        Error::Denied { .. } => 3,
        Error::InvalidSpec(_) => 4,
        Error::Syscall { .. } => 5,
        Error::Conflict { .. } => 6,
    }
}

/// Errnos that mean the request itself was invalid.
pub open spec fn invalid_errno(errno: i32) -> bool {
    errno == EINVAL || errno == EXDEV || errno == ENAMETOOLONG || errno == ELOOP || errno == EEXIST
        || errno == ENOTEMPTY
}

/// The message of an error; `os` is the text of the operating-system error
/// its errno names, for the kinds that carry one.
pub open spec fn reg_message(e: Error, os: Seq<char>) -> Seq<char> {
    match e {
        Error::Usage(m) => m@,
        Error::NotFound(m) => "not found: "@ + m@,
        Error::Denied { op, target, .. } => op@ + ": "@ + os + "\n  target: "@ + target@,
        Error::InvalidSpec(m) => "invalid spec: "@ + m@,
        Error::Syscall { op, detail, .. } => match detail {
            Some(d) => op@ + ": "@ + os + " ("@ + d@ + ")"@,
            None => op@ + ": "@ + os,
        },
        Error::Conflict { target } => "value changed under you (sequence mismatch): "@ + target@
            + "\n  re-read and retry, or drop --expected-seq to force"@,
    }
}

impl Error {
    pub fn exit_code(&self) -> (r: i32)
        ensures
            r == reg_exit_code(*self),
    {
        match self {
            Error::Usage(_) => 1,
            Error::NotFound(_) => 2,
            Error::Denied { .. } => 3,
            Error::InvalidSpec(_) => 4,
            Error::Syscall { .. } => 5,
            Error::Conflict { .. } => 6,
        }
    }

    /// Classify an errno from operation `op` against `target` into its exit
    /// bucket: the single place the errno policy lives. An absent errno is
    /// read as 0. `os` is the text of the operating-system error for the
    /// errno, used when the request was invalid.
    pub fn from_errno(op: &'static str, target: &str, errno: Option<i32>, os: &str) -> (e: Error)
        ensures
            ({
                let n = match errno {
                    Some(x) => x,
                    None => 0,
                };
                if n == ENOENT {
                    e matches Error::NotFound(t) && t@ == target@
                } else if n == EACCES || n == EPERM {
                    e matches Error::Denied { op: o, target: t, errno: x } && o == op && t@
                        == target@ && x == n
                } else if n == EAGAIN {
                    e matches Error::Conflict { target: t } && t@ == target@
                } else if invalid_errno(n) {
                    e matches Error::InvalidSpec(m) && m@ == op@ + ": "@ + os@ + " ("@ + target@
                        + ")"@
                } else {
                    e matches Error::Syscall { op: o, errno: x, detail: Some(d) } && o == op && x
                        == (if n == 0 {
                        EIO
                    } else {
                        n
                    }) && d@ == target@
                }
            }),
    {
        let n = match errno {
            Some(x) => x,
            None => 0,
        };
        if n == ENOENT {
            Error::NotFound(target.to_owned())
        } else if n == EACCES || n == EPERM {
            Error::Denied { op, target: target.to_owned(), errno: n }
        } else if n == EAGAIN {
            Error::Conflict { target: target.to_owned() }
        } else if n == EINVAL || n == EXDEV || n == ENAMETOOLONG || n == ELOOP || n == EEXIST || n
            == ENOTEMPTY {
            let mut v: Vec<char> = Vec::new();
            extend_str(&mut v, op);
            extend_str(&mut v, ": ");
            extend_str(&mut v, os);
            extend_str(&mut v, " (");
            extend_str(&mut v, target);
            extend_str(&mut v, ")");
            Error::InvalidSpec(string_from_chars(&v))
        } else {
            Error::Syscall {
                op,
                errno: if n == 0 {
                    EIO
                } else {
                    n
                },
                detail: Some(target.to_owned()),
            }
        }
    }

    /// The message shown for this error. `os` is the text of the
    /// operating-system error its errno names (used by `Denied` and
    /// `Syscall` only).
    pub fn message(&self, os: &str) -> (s: String)
        ensures
            s@ == reg_message(*self, os@),
    {
        let mut v: Vec<char> = Vec::new();
        match self {
            Error::Usage(m) => extend_str(&mut v, m.as_str()),
            Error::NotFound(m) => {
                extend_str(&mut v, "not found: ");
                extend_str(&mut v, m.as_str());
            },
            Error::Denied { op, target, .. } => {
                extend_str(&mut v, op);
                extend_str(&mut v, ": ");
                extend_str(&mut v, os);
                extend_str(&mut v, "\n  target: ");
                extend_str(&mut v, target.as_str());
            },
            Error::InvalidSpec(m) => {
                extend_str(&mut v, "invalid spec: ");
                extend_str(&mut v, m.as_str());
            },
            Error::Syscall { op, detail, .. } => {
                extend_str(&mut v, op);
                extend_str(&mut v, ": ");
                extend_str(&mut v, os);
                match detail {
                    Some(d) => {
                        extend_str(&mut v, " (");
                        extend_str(&mut v, d.as_str());
                        extend_str(&mut v, ")");
                    },
                    None => {},
                }
            },
            Error::Conflict { target } => {
                extend_str(&mut v, "value changed under you (sequence mismatch): ");
                extend_str(&mut v, target.as_str());
                extend_str(&mut v, "\n  re-read and retry, or drop --expected-seq to force");
            },
        }
        string_from_chars(&v)
    }
}

} // verus!
