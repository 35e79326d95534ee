//! `passwd`: the decisions of a credential-change conversation with the
//! logon authority.
//!
//! The conversation itself (the socket, the wire format, the terminal) is
//! driven from outside: each message the authority sends is handed here as a
//! [`Reply`], and what to do next comes back. Only a `Changed` message ends
//! the conversation in success, and every failure says whether the password
//! changed where that is known, and that it is not known where the authority
//! went away before saying.
use crate::reg::literal::{hex_num, hex_number};
use crate::text::{extend_chars, extend_str, string_from_chars};
use vstd::prelude::*;

verus! {

/// What a request for another principal's password is answered with: this
/// changes only your own.
pub const NAME_REFUSAL: &'static str =
    "this changes only your own password; an administrator sets another principal's with 'lps password'";

/// What is printed once the authority reports the change.
pub const CHANGED: &'static str = "password changed";

/// A message from the authority, as far as the conversation's decisions
/// need it.
pub enum Reply {
    /// The authority asks for credentials: its notes are shown, its prompts
    /// answered, and the conversation goes on.
    Request,
    /// The password was changed.
    Changed,
    /// The change was refused: the authority's reason (possibly empty) and
    /// the name of the denial.
    Denied { reason: String, denial: String },
    /// A message of any other type.
    Other(u32),
}

/// How the conversation goes on after a reply.
pub enum Next {
    /// Answer the request and wait for the next message.
    Answer,
    /// The conversation is over, with this outcome.
    Finished(Result<(), String>),
}

/// A failure after the change was asked for and before the authority said
/// how it ended: the password may have changed, and saying otherwise either
/// way would be a guess.
pub open spec fn unknown_text(what: Seq<char>) -> Seq<char> {
    what + "; whether the password changed is not known"@
}

pub fn unknown_outcome(what: &str) -> (s: String)
    ensures
        s@ == unknown_text(what@),
{
    let mut v: Vec<char> = Vec::new();
    extend_str(&mut v, what);
    extend_str(&mut v, "; whether the password changed is not known");
    string_from_chars(&v)
}

/// `n` zeros.
pub open spec fn zeros(n: int) -> Seq<char> {
    Seq::new(if n > 0 { n as nat } else { 0 }, |i: int| '0')
}

/// A message type as `{:#06x}` shows it: `0x` and at least four lower-case
/// hex digits.
pub open spec fn type_text(t: u32) -> Seq<char> {
    "0x"@ + zeros(4 - hex_num(t as nat).len()) + hex_num(t as nat)
}

/// The refusal the authority gave: its reason, or the denial's name when it
/// gave none; the password is unchanged either way.
pub open spec fn denial_text(reason: Seq<char>, denial: Seq<char>) -> Seq<char> {
    (if reason.len() == 0 {
        denial
    } else {
        reason
    }) + " The password is unchanged."@
}

/// What follows each reply: a request is answered; `Changed` is success and
/// nothing else is; a denial is a failure with its reason; any other message
/// leaves the outcome unknown.
pub open spec fn next_of(r: Reply, n: Next) -> bool {
    match r {
        Reply::Request => n is Answer,
        Reply::Changed => n matches Next::Finished(Ok(())),
        Reply::Denied { reason, denial } => n matches Next::Finished(Err(m)) && m@ == denial_text(
            reason@,
            denial@,
        ),
        Reply::Other(t) => n matches Next::Finished(Err(m)) && m@ == unknown_text(
            "unexpected message "@ + type_text(t) + " from the authority"@,
        ),
    }
}

fn push_type(v: &mut Vec<char>, t: u32)
    ensures
        final(v)@ == old(v)@ + type_text(t),
{
    extend_str(v, "0x");
    let h = hex_number(t as u64);
    let mut k: usize = h.len();
    while k < 4
        invariant
            h.len() <= k <= 4 || (k == h.len() && k > 4),
            h@ == hex_num(t as nat),
            v@ == old(v)@ + "0x"@ + zeros(k - h@.len()),
        decreases 4 - k,
    {
        v.push('0');
        k += 1;
        assert(v@ =~= old(v)@ + "0x"@ + zeros(k - h@.len()));
    }
    assert(zeros(k - h@.len()) =~= zeros(4 - h@.len()));
    extend_chars(v, &h);
    assert(v@ =~= old(v)@ + type_text(t));
}

/// What to do after a reply.
pub fn after(reply: Reply) -> (n: Next)
    ensures
        next_of(reply, n),
{
    match reply {
        Reply::Request => Next::Answer,
        Reply::Changed => Next::Finished(Ok(())),
        Reply::Denied { reason, denial } => {
            let mut v: Vec<char> = Vec::new();
            if reason.as_str().is_empty() {
                extend_str(&mut v, denial.as_str());
            } else {
                extend_str(&mut v, reason.as_str());
            }
            extend_str(&mut v, " The password is unchanged.");
            Next::Finished(Err(string_from_chars(&v)))
        },
        Reply::Other(t) => {
            let mut v: Vec<char> = Vec::new();
            extend_str(&mut v, "unexpected message ");
            push_type(&mut v, t);
            extend_str(&mut v, " from the authority");
            Next::Finished(Err(unknown_outcome(string_from_chars(&v).as_str())))
        },
    }
}

/// A step of the conversation that failed, with what the failing part said.
pub enum Failure {
    /// The opening request could not be encoded.
    EncodeStart(String),
    /// The opening request could not be sent.
    Unreachable(String),
    /// The authority went away, or a reply could not be received or sent.
    Lost(String),
    /// A reply could not be decoded.
    Malformed(String),
    /// A denial could not be decoded.
    MalformedDenial(String),
    /// A request arrived that cannot be rendered.
    Unrenderable(String),
    /// A password could not be read.
    Unreadable(String),
    /// The answers could not be encoded.
    EncodeAnswers(String),
}

/// The message for a failed step. Once the change was asked for, losing the
/// authority or a reply leaves the outcome unknown, and says so.
pub open spec fn failure_text(f: Failure) -> Seq<char> {
    match f {
        Failure::EncodeStart(e) => "could not encode the request: "@ + e@,
        Failure::Unreachable(e) => "could not reach the authority: "@ + e@,
        Failure::Lost(e) => unknown_text("lost the authority: "@ + e@),
        Failure::Malformed(e) => unknown_text("malformed reply: "@ + e@),
        Failure::MalformedDenial(e) => unknown_text("malformed denial: "@ + e@),
        Failure::Unrenderable(e) => "the authority sent a request this cannot render: "@ + e@,
        Failure::Unreadable(e) => "could not read the password: "@ + e@,
        Failure::EncodeAnswers(e) => "could not encode the answers: "@ + e@,
    }
}

pub fn failure_message(f: Failure) -> (s: String)
    ensures
        s@ == failure_text(f),
{
    let mut v: Vec<char> = Vec::new();
    match f {
        Failure::EncodeStart(e) => {
            extend_str(&mut v, "could not encode the request: ");
            extend_str(&mut v, e.as_str());
            string_from_chars(&v)
        },
        Failure::Unreachable(e) => {
            extend_str(&mut v, "could not reach the authority: ");
            extend_str(&mut v, e.as_str());
            string_from_chars(&v)
        },
        Failure::Lost(e) => {
            extend_str(&mut v, "lost the authority: ");
            extend_str(&mut v, e.as_str());
            unknown_outcome(string_from_chars(&v).as_str())
        },
        Failure::Malformed(e) => {
            extend_str(&mut v, "malformed reply: ");
            extend_str(&mut v, e.as_str());
            unknown_outcome(string_from_chars(&v).as_str())
        },
        Failure::MalformedDenial(e) => {
            extend_str(&mut v, "malformed denial: ");
            extend_str(&mut v, e.as_str());
            unknown_outcome(string_from_chars(&v).as_str())
        },
        Failure::Unrenderable(e) => {
            extend_str(&mut v, "the authority sent a request this cannot render: ");
            extend_str(&mut v, e.as_str());
            string_from_chars(&v)
        },
        Failure::Unreadable(e) => {
            extend_str(&mut v, "could not read the password: ");
            extend_str(&mut v, e.as_str());
            string_from_chars(&v)
        },
        Failure::EncodeAnswers(e) => {
            extend_str(&mut v, "could not encode the answers: ");
            extend_str(&mut v, e.as_str());
            string_from_chars(&v)
        },
    }
}

/// Why the logon socket could not be opened.
pub enum ConnectFault {
    /// Nothing listens there, or it refused the connection.
    Absent,
    /// The connection was not permitted.
    Forbidden,
    /// Anything else, as the system described it.
    Other(String),
}

/// The message for a socket at `path` that could not be opened, in terms of
/// the authority.
pub open spec fn connect_text(path: Seq<char>, f: ConnectFault) -> Seq<char> {
    match f {
        ConnectFault::Absent => "cannot reach the authority at "@ + path + "; is authd running?"@,
        ConnectFault::Forbidden => "permission denied connecting to "@ + path
            + "; this machine does not let you change your own password"@,
        ConnectFault::Other(e) => "cannot reach the authority at "@ + path + ": "@ + e@,
    }
}

pub fn connect_message(path: &str, f: ConnectFault) -> (s: String)
    ensures
        s@ == connect_text(path@, f),
{
    let mut v: Vec<char> = Vec::new();
    match f {
        ConnectFault::Absent => {
            extend_str(&mut v, "cannot reach the authority at ");
            extend_str(&mut v, path);
            extend_str(&mut v, "; is authd running?");
        },
        ConnectFault::Forbidden => {
            extend_str(&mut v, "permission denied connecting to ");
            extend_str(&mut v, path);
            extend_str(&mut v, "; this machine does not let you change your own password");
        },
        ConnectFault::Other(e) => {
            extend_str(&mut v, "cannot reach the authority at ");
            extend_str(&mut v, path);
            extend_str(&mut v, ": ");
            extend_str(&mut v, e.as_str());
        },
    }
    string_from_chars(&v)
}

/// Only `Changed` ends the conversation in success.
pub proof fn lemma_success_only_on_changed(r: Reply, n: Next)
    requires
        next_of(r, n),
    ensures
        (n matches Next::Finished(Ok(()))) <==> (r is Changed),
{
}

} // verus!
