//! What `part`'s commands report: the confirmations a destructive command
//! needs, and the lines each command prints once it has done its work.
use crate::part::error::PartError;
use crate::part::guid::{guid_text, Guid};
use crate::part::size::{human, human_text};
use crate::text::{debug_quoted, debug_str, decimal, extend_chars, extend_str, string_from_chars, u64_decimal};
use vstd::prelude::*;

verus! {

/// The refusal for a destructive command run without `--yes`.
pub open spec fn unconfirmed_text(path: Seq<char>) -> Seq<char> {
    path + " would be modified; pass --yes to confirm"@
}

/// A destructive command needs `--yes`: without it, refuse and say so.
pub fn confirm(path: &str, yes: bool) -> (r: Result<(), PartError>)
    ensures
        yes ==> r is Ok,
        !yes ==> (r matches Err(PartError::Refused(m)) && m@ == unconfirmed_text(path@)),
{
    if yes {
        return Ok(());
    }
    let mut v: Vec<char> = Vec::new();
    extend_str(&mut v, path);
    extend_str(&mut v, " would be modified; pass --yes to confirm");
    Err(PartError::Refused(string_from_chars(&v)))
}

/// The usage error for a partition type that is neither an alias nor a GUID.
pub fn unknown_type(spec: &str) -> (e: PartError)
    ensures
        e matches PartError::Usage(m) && m@ == "unknown partition type "@ + debug_str(spec@),
{
    let mut v: Vec<char> = Vec::new();
    extend_str(&mut v, "unknown partition type ");
    extend_str(&mut v, debug_quoted(spec).as_str());
    PartError::Usage(string_from_chars(&v))
}

/// What `part verify` says: a healthy table is sound; otherwise each
/// problem, after the device's name, and a failure counting them.
pub open spec fn verify_lines(path: Seq<char>, problems: Seq<Seq<char>>) -> Seq<Seq<char>> {
    if problems.len() == 0 {
        seq![path + ": GPT is structurally sound"@]
    } else {
        problems.map_values(|p: Seq<char>| path + ": "@ + p)
    }
}

/// The report of `part verify` on a table with `problems`: the lines to
/// print (to standard output when the table is sound, else to standard
/// error), and the outcome.
pub fn verify_report(path: &str, problems: &[String]) -> (r: (Vec<String>, Result<(), PartError>))
    ensures
        r.0@.map_values(|s: String| s@) == verify_lines(path@, problems@.map_values(|s: String| s@)),
        problems@.len() == 0 ==> r.1 is Ok,
        problems@.len() > 0 ==> (r.1 matches Err(PartError::Damaged(m)) && m@ == decimal(
            problems@.len(),
        ) + " problem(s) found"@),
{
    let ghost ps = problems@.map_values(|s: String| s@);
    let mut out: Vec<String> = Vec::new();
    if problems.len() == 0 {
        let mut v: Vec<char> = Vec::new();
        extend_str(&mut v, path);
        extend_str(&mut v, ": GPT is structurally sound");
        out.push(string_from_chars(&v));
        assert(out@.map_values(|s: String| s@) =~= verify_lines(path@, ps));
        return (out, Ok(()));
    }
    let mut i: usize = 0;
    while i < problems.len()
        invariant
            i <= problems@.len(),
            ps == problems@.map_values(|s: String| s@),
            out@.map_values(|s: String| s@) == ps.take(i as int).map_values(|p: Seq<char>| path@ + ": "@ + p),
        decreases problems@.len() - i,
    {
        let mut v: Vec<char> = Vec::new();
        extend_str(&mut v, path);
        extend_str(&mut v, ": ");
        extend_str(&mut v, problems[i].as_str());
        let s = string_from_chars(&v);
        assert(out@.push(s).map_values(|s: String| s@) =~= out@.map_values(|s: String| s@).push(s@));
        out.push(s);
        i += 1;
        assert(ps.take(i as int).map_values(|p: Seq<char>| path@ + ": "@ + p) =~= ps.take(i - 1).map_values(
            |p: Seq<char>| path@ + ": "@ + p,
        ).push(path@ + ": "@ + ps[i - 1]));
    }
    assert(ps.take(problems@.len() as int) =~= ps);
    let mut m: Vec<char> = Vec::new();
    extend_chars(&mut m, &u64_decimal(problems.len() as u64));
    extend_str(&mut m, " problem(s) found");
    (out, Err(PartError::Damaged(string_from_chars(&m))))
}

/// What `part create` prints once the table is written.
pub fn created_line(path: &str, disk_guid: &Guid) -> (s: String)
    ensures
        s@ == path@ + ": wrote a new GPT ("@ + guid_text(disk_guid.0@) + ")"@,
{
    let mut v: Vec<char> = Vec::new();
    extend_str(&mut v, path);
    extend_str(&mut v, ": wrote a new GPT (");
    extend_str(&mut v, disk_guid.to_text().as_str());
    extend_str(&mut v, ")");
    string_from_chars(&v)
}

/// What `part add` prints: where the new partition lies and its size.
pub fn added_line(path: &str, index: usize, start: u64, end: u64, bytes: u64) -> (s: String)
    ensures
        s@ == path@ + ": partition "@ + decimal(index as nat) + " at "@ + decimal(start as nat) + ".."@
            + decimal(end as nat) + " ("@ + human_text(bytes) + ")"@,
{
    let mut v: Vec<char> = Vec::new();
    extend_str(&mut v, path);
    extend_str(&mut v, ": partition ");
    extend_chars(&mut v, &u64_decimal(index as u64));
    extend_str(&mut v, " at ");
    extend_chars(&mut v, &u64_decimal(start));
    extend_str(&mut v, "..");
    extend_chars(&mut v, &u64_decimal(end));
    extend_str(&mut v, " (");
    extend_str(&mut v, human(bytes).as_str());
    extend_str(&mut v, ")");
    string_from_chars(&v)
}

/// What `part del` prints.
pub fn removed_line(path: &str, index: usize) -> (s: String)
    ensures
        s@ == path@ + ": removed partition "@ + decimal(index as nat),
{
    let mut v: Vec<char> = Vec::new();
    extend_str(&mut v, path);
    extend_str(&mut v, ": removed partition ");
    extend_chars(&mut v, &u64_decimal(index as u64));
    string_from_chars(&v)
}

} // verus!
