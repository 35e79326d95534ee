//! Partition type GUIDs, and the short names people actually type.
//!
//! The aliases are deliberately few: `--type` also takes a raw GUID, so
//! nothing is out of reach for want of an alias.
use crate::part::guid::{guid_text, parse_guid, Guid};
use crate::text::{ascii_lowercase, chars_eq, chars_of, lower_ascii_seq};
use vstd::prelude::*;

verus! {

/// EFI system partition.
pub const ESP: &'static str = "C12A7328-F81F-11D2-BA4B-00A0C93EC93B";

/// "Linux filesystem data".
pub const LINUX: &'static str = "0FC63DAF-8483-4772-8E79-3D69D8477DE4";

/// Linux swap.
pub const SWAP: &'static str = "0657FD6D-A4AB-43C4-84E5-0933C84B4F4F";

/// Microsoft basic data.
pub const MSDATA: &'static str = "EBD0A0A2-B9E5-4433-87C0-68B6B72699C7";

/// Number of aliases.
pub const N_ALIASES: usize = 4;

/// `(alias, guid, description)`, in the order `part --help` lists them.
pub open spec fn alias_table() -> Seq<(Seq<char>, Seq<char>, Seq<char>)> {
    seq![
        ("esp"@, ESP@, "EFI system partition"@),
        ("linux"@, LINUX@, "Linux filesystem data"@),
        ("swap"@, SWAP@, "Linux swap"@),
        ("msdata"@, MSDATA@, "Microsoft basic data"@),
    ]
}

/// The first alias at or after `k` spelled `l`.
pub open spec fn alias_from(l: Seq<char>, k: int) -> Option<int>
    decreases 4 - k,
{
    if k < 0 || k >= 4 {
        None
    } else if alias_table()[k].0 == l {
        Some(k)
    } else {
        alias_from(l, k + 1)
    }
}

/// The first alias at or after `k` whose GUID equals `t`, ignoring ASCII case.
pub open spec fn guid_from(t: Seq<char>, k: int) -> Option<int>
    decreases 4 - k,
{
    if k < 0 || k >= 4 {
        None
    } else if lower_ascii_seq(alias_table()[k].1) == lower_ascii_seq(t) {
        Some(k)
    } else {
        guid_from(t, k + 1)
    }
}

proof fn lemma_guid_from_range(t: Seq<char>, k: int)
    requires
        0 <= k,
    ensures
        guid_from(t, k) matches Some(i) ==> k <= i < 4,
    decreases 4 - k,
{
    if k < 4 {
        lemma_guid_from_range(t, k + 1);
    }
}

/// The text `--type` is parsed from: an alias's GUID, or the spec itself.
pub open spec fn resolved_text(spec: Seq<char>) -> Seq<char> {
    match alias_from(lower_ascii_seq(spec), 0) {
        Some(i) => alias_table()[i].1,
        None => spec,
    }
}

/// The table row a GUID belongs to, if any.
pub open spec fn row_of(g: Guid) -> Option<int> {
    guid_from(guid_text(g.0@), 0)
}

/// One row of the alias table.
pub fn alias_row(i: usize) -> (r: (&'static str, &'static str, &'static str))
    requires
        i < N_ALIASES,
    ensures
        r.0@ == alias_table()[i as int].0,
        r.1@ == alias_table()[i as int].1,
        r.2@ == alias_table()[i as int].2,
{
    if i == 0 {
        ("esp", ESP, "EFI system partition")
    } else if i == 1 {
        ("linux", LINUX, "Linux filesystem data")
    } else if i == 2 {
        ("swap", SWAP, "Linux swap")
    } else {
        ("msdata", MSDATA, "Microsoft basic data")
    }
}

/// The whole alias table, in order.
pub fn aliases() -> (r: Vec<(&'static str, &'static str, &'static str)>)
    ensures
        r@.len() == 4,
        forall|i: int|
            0 <= i < 4 ==> (#[trigger] r@[i]).0@ == alias_table()[i].0 && r@[i].1@
                == alias_table()[i].1 && r@[i].2@ == alias_table()[i].2,
{
    let mut r: Vec<(&'static str, &'static str, &'static str)> = Vec::new();
    let mut i: usize = 0;
    while i < N_ALIASES
        invariant
            i <= 4,
            r@.len() == i,
            forall|k: int|
                0 <= k < i ==> (#[trigger] r@[k]).0@ == alias_table()[k].0 && r@[k].1@
                    == alias_table()[k].1 && r@[k].2@ == alias_table()[k].2,
        decreases 4 - i,
    {
        r.push(alias_row(i));
        i += 1;
    }
    r
}

/// Resolve `--type`: an alias (any case), or a raw GUID.
pub fn resolve(spec: &str) -> (r: Option<Guid>)
    ensures
        parse_guid(resolved_text(spec@)) is None ==> r is None,
        parse_guid(resolved_text(spec@)) matches Some(b) ==> (r matches Some(g) && g.0@ == b),
{
    let lower = ascii_lowercase(&chars_of(spec));
    let mut i: usize = 0;
    while i < N_ALIASES
        invariant
            i <= 4,
            lower@ == lower_ascii_seq(spec@),
            alias_from(lower@, 0) == alias_from(lower@, i as int),
        decreases 4 - i,
    {
        let (a, g, _) = alias_row(i);
        if chars_eq(&chars_of(a), &lower) {
            return Guid::parse(g);
        }
        i += 1;
    }
    Guid::parse(spec)
}

/// The table row whose GUID is `g`'s, compared without regard to case.
pub fn lookup(g: &Guid) -> (r: Option<usize>)
    ensures
        r is None <==> row_of(*g) is None,
        r matches Some(j) ==> row_of(*g) == Some(j as int) && j < N_ALIASES,
{
    proof {
        lemma_guid_from_range(guid_text(g.0@), 0);
    }
    let t = chars_of(g.to_text().as_str());
    let lt = ascii_lowercase(&t);
    let mut i: usize = 0;
    while i < N_ALIASES
        invariant
            i <= 4,
            lt@ == lower_ascii_seq(guid_text(g.0@)),
            guid_from(guid_text(g.0@), 0) == guid_from(guid_text(g.0@), i as int),
        decreases 4 - i,
    {
        let (_, s, _) = alias_row(i);
        let ls = ascii_lowercase(&chars_of(s));
        if chars_eq(&ls, &lt) {
            return Some(i);
        }
        i += 1;
    }
    None
}

/// The human description for a GUID, when there is one.
pub fn describe(g: &Guid) -> (r: Option<&'static str>)
    ensures
        match row_of(*g) {
            Some(i) => r matches Some(d) && d@ == alias_table()[i].2,
            None => r is None,
        },
{
    match lookup(g) {
        Some(i) => Some(alias_row(i).2),
        None => None,
    }
}

/// The short alias for a GUID, when there is one: what `part list` puts in
/// its TYPE column.
pub fn alias(g: &Guid) -> (r: Option<&'static str>)
    ensures
        match row_of(*g) {
            Some(i) => r matches Some(a) && a@ == alias_table()[i].0,
            None => r is None,
        },
{
    match lookup(g) {
        Some(i) => Some(alias_row(i).0),
        None => None,
    }
}

} // verus!
