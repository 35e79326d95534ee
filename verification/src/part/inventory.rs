//! What `part list` prints when it is given no device: every disk on the
//! system, one line each, with what was found on it and the partitions the
//! kernel created beneath it.
//!
//! A disk that cannot be opened or probed is still listed, with what sysfs
//! knows and a `?` for its table: the disk you cannot read is exactly the one
//! you most want to be told about.
use crate::part::error::PartError;
use crate::part::gpt::{used_idx, Gpt};
use crate::part::guid::Guid;
use crate::part::label::{state_text, type_column, DiskState};
use crate::part::report::{left_in, right_in};
use crate::part::size::{human, human_text};
use crate::part::types::alias;
use crate::text::{decimal, extend_chars, extend_str, skip_ws_backward, slice_chars, string_from_chars, trim_end, u64_decimal};
use vstd::prelude::*;

verus! {

/// Linux's `ENOMEDIUM`: no medium in the drive.
pub const ENOMEDIUM: i32 = 123;

/// Linux's `EACCES`.
pub const EACCES: i32 = 13;

/// Linux's `EPERM`.
pub const EPERM: i32 = 1;

/// Linux's `EBUSY`.
pub const EBUSY: i32 = 16;

/// Why a device could not be read, given the OS error code of the failure.
/// An empty drive is not a broken disk, and a refusal is not a fault.
pub open spec fn reason_text(code: Option<i32>) -> Seq<char> {
    match code {
        Some(c) => if c == ENOMEDIUM {
            "(no medium)"@
        } else if c == EACCES || c == EPERM {
            "?  (not permitted to read this device)"@
        } else if c == EBUSY {
            "?  (device is busy)"@
        } else {
            "?  (cannot read this device)"@
        },
        None => "?  (cannot read this device)"@,
    }
}

/// The placeholder for a disk nothing more can be said of.
pub open spec fn unprobed() -> Seq<char> {
    "?  (cannot be probed)"@
}

/// The words for an I/O failure with OS error code `code`.
pub fn reason_for(code: Option<i32>) -> (s: String)
    ensures
        s@ == reason_text(code),
{
    match code {
        Some(c) => if c == ENOMEDIUM {
            "(no medium)".to_owned()
        } else if c == EACCES || c == EPERM {
            "?  (not permitted to read this device)".to_owned()
        } else if c == EBUSY {
            "?  (device is busy)".to_owned()
        } else {
            "?  (cannot read this device)".to_owned()
        },
        None => "?  (cannot read this device)".to_owned(),
    }
}

/// `std::io::Error::raw_os_error`: the OS error code the error carries, if it
/// came from the OS. Nothing is stated of which code that is.
#[verifier::external_body]
fn raw_os_error(e: &std::io::Error) -> (r: Option<i32>) {
    e.raw_os_error()
}

/// Why a device could not be opened, in words rather than an errno: the code
/// of an I/O failure decides; any other failure cannot be probed.
pub fn unreadable_reason(e: &PartError) -> (s: String)
    ensures
        !(*e is Io) ==> s@ == unprobed(),
        *e is Io ==> exists|c: Option<i32>| s@ == reason_text(c),
{
    match e {
        PartError::Io { source, .. } => {
            let code = raw_os_error(source);
            reason_for(code)
        },
        _ => "?  (cannot be probed)".to_owned(),
    }
}

/// "gpt, N partition(s)".
pub open spec fn count_text(n: nat) -> Seq<char> {
    "gpt, "@ + decimal(n) + " partition"@ + (if n == 1 {
        Seq::<char>::empty()
    } else {
        "s"@
    })
}

/// The CONTENTS column of a disk: its GPT's partition count, else what was
/// found on it, else why it could not be read.
pub open spec fn summary_text(state: Option<DiskState>, unreadable: Option<Seq<char>>) -> Seq<char> {
    match state {
        Some(DiskState::Gpt(g)) => count_text(used_idx(g.entries@).len()),
        Some(s) => state_text(s),
        None => match unreadable {
            Some(w) => w,
            None => unprobed(),
        },
    }
}

/// The GPT a probe found, if it found one.
pub open spec fn gpt_of(state: Option<DiskState>) -> Option<Gpt> {
    match state {
        Some(DiskState::Gpt(g)) => Some(*g),
        _ => None,
    }
}

/// The detail shown beside partition `index` (1-based): its type and name
/// from the GPT, when the GPT has such a partition, trimmed at the end.
pub open spec fn detail_text(g: Option<Gpt>, index: int) -> Seq<char> {
    match g {
        Some(t) => if 1 <= index <= t.entries@.len() && t.entries@[index - 1].spec_is_used() {
            trim_end(
                left_in(type_column(t.entries@[index - 1].type_guid), 10) + " "@ + t.entries@[index
                    - 1].name@,
            )
        } else {
            Seq::empty()
        },
        None => Seq::empty(),
    }
}

/// A partition's SIZE column: its size, from 512-byte sectors, or `?`.
pub open spec fn size_column(sectors: Option<u64>) -> Seq<char> {
    match sectors {
        Some(s) => human_text((s * 512) as u64),
        None => "?"@,
    }
}

/// The heading of the listing.
pub open spec fn heading() -> Seq<char> {
    left_in("DEVICE"@, 14) + " "@ + right_in("SIZE"@, 8) + "  "@ + "CONTENTS"@ + "\n"@
}

/// One disk's line.
pub open spec fn disk_row(path: Seq<char>, size_bytes: u64, summary: Seq<char>) -> Seq<char> {
    left_in(path, 14) + " "@ + right_in(human_text(size_bytes), 8) + "  "@ + summary + "\n"@
}

/// One partition's line beneath its disk.
pub open spec fn member_row(name: Seq<char>, sectors: Option<u64>, detail: Seq<char>) -> Seq<char> {
    "  "@ + left_in(name, 12) + " "@ + right_in(size_column(sectors), 8) + "  "@ + detail + "\n"@
}

/// One whole disk, as far as it could be read.
pub struct DiskListing {
    /// The `/dev` path.
    pub path: String,
    pub size_bytes: u64,
    /// What probing found, when the disk could be opened and probed.
    pub state: Option<DiskState>,
    /// Why the disk could not be opened, when it could not.
    pub unreadable: Option<String>,
    /// Each partition node the kernel created: its name, its 1-based index,
    /// and its size in 512-byte sectors when sysfs gave one.
    pub members: Vec<(String, usize, Option<u64>)>,
}

/// The lines of some partitions of a disk whose GPT (if any) is `g`.
pub open spec fn members_text(ms: Seq<(String, usize, Option<u64>)>, g: Option<Gpt>) -> Seq<char>
    decreases ms.len(),
{
    if ms.len() == 0 {
        Seq::empty()
    } else {
        let m = ms.last();
        members_text(ms.drop_last(), g) + member_row(m.0@, m.2, detail_text(g, m.1 as int))
    }
}

pub open spec fn unreadable_view(u: Option<String>) -> Option<Seq<char>> {
    match u {
        Some(w) => Some(w@),
        None => None,
    }
}

/// One disk's block: its line, then its partitions'.
pub open spec fn disk_text(d: DiskListing) -> Seq<char> {
    disk_row(d.path@, d.size_bytes, summary_text(d.state, unreadable_view(d.unreadable)))
        + members_text(d.members@, gpt_of(d.state))
}

pub open spec fn disks_text(ds: Seq<DiskListing>) -> Seq<char>
    decreases ds.len(),
{
    if ds.len() == 0 {
        Seq::empty()
    } else {
        disks_text(ds.drop_last()) + disk_text(ds.last())
    }
}

/// The whole inventory.
pub open spec fn inventory_text(ds: Seq<DiskListing>) -> Seq<char> {
    if ds.len() == 0 {
        "no block devices\n"@
    } else {
        heading() + disks_text(ds)
    }
}

/// A size in 512-byte sectors that fits a `u64` in bytes.
pub open spec fn fits_bytes(sectors: Option<u64>) -> bool {
    match sectors {
        Some(s) => s * 512 <= u64::MAX,
        None => true,
    }
}

/// Every partition size fits a `u64` in bytes.
pub open spec fn sizes_fit(ds: Seq<DiskListing>) -> bool {
    forall|i: int, k: int|
        0 <= i < ds.len() && 0 <= k < ds[i].members@.len() ==> fits_bytes((#[trigger] ds[i].members@[k]).2)
}

fn push_spaces(v: &mut Vec<char>, n: usize)
    ensures
        final(v)@ == old(v)@ + crate::reg::render::spaces(n as int),
{
    let mut i: usize = 0;
    while i < n
        invariant
            i <= n,
            v@ == old(v)@ + crate::reg::render::spaces(i as int),
        decreases n - i,
    {
        v.push(' ');
        i += 1;
        assert(v@ =~= old(v)@ + crate::reg::render::spaces(i as int));
    }
}

fn push_left(v: &mut Vec<char>, s: &str, w: usize)
    ensures
        final(v)@ == old(v)@ + left_in(s@, w as int),
{
    let c = crate::text::chars_of(s);
    let n = c.len();
    extend_chars(v, &c);
    if n < w {
        push_spaces(v, w - n);
    } else {
        assert(crate::reg::render::spaces(w - s@.len()) =~= Seq::<char>::empty());
    }
}

fn push_right(v: &mut Vec<char>, s: &str, w: usize)
    ensures
        final(v)@ == old(v)@ + right_in(s@, w as int),
{
    let c = crate::text::chars_of(s);
    let n = c.len();
    if n < w {
        push_spaces(v, w - n);
    } else {
        assert(crate::reg::render::spaces(w - s@.len()) =~= Seq::<char>::empty());
    }
    extend_chars(v, &c);
}

/// What the TYPE column shows for a type GUID.
fn type_label(g: &Guid) -> (s: String)
    ensures
        s@ == type_column(*g),
{
    match alias(g) {
        Some(a) => a.to_owned(),
        None => g.to_text(),
    }
}

/// The detail beside partition `index` of a disk whose GPT (if any) is `g`.
pub fn detail(g: Option<&Gpt>, index: usize) -> (s: String)
    ensures
        s@ == detail_text(
            match g {
                Some(t) => Some(*t),
                None => None,
            },
            index as int,
        ),
{
    match g {
        Some(t) => {
            if index >= 1 && index <= t.entries.len() && t.entries[index - 1].is_used() {
                let e = &t.entries[index - 1];
                let mut v: Vec<char> = Vec::new();
                let label = type_label(&e.type_guid);
                push_left(&mut v, label.as_str(), 10);
                extend_str(&mut v, " ");
                extend_str(&mut v, e.name.as_str());
                let n = v.len();
                let b = skip_ws_backward(&v, 0, n);
                assert(v@.subrange(0, n as int) =~= v@);
                let out = slice_chars(&v, 0, b);
                assert(out@ =~= trim_end(v@));
                string_from_chars(&out)
            } else {
                String::new()
            }
        },
        None => String::new(),
    }
}

/// A disk's CONTENTS column.
pub fn summary(state: Option<&DiskState>, unreadable: Option<&String>) -> (s: String)
    ensures
        s@ == summary_text(
            match state {
                Some(x) => Some(*x),
                None => None,
            },
            match unreadable {
                Some(w) => Some(w@),
                None => None,
            },
        ),
{
    match state {
        Some(DiskState::Gpt(g)) => {
            let n = g.partitions().len();
            let mut v: Vec<char> = Vec::new();
            extend_str(&mut v, "gpt, ");
            extend_chars(&mut v, &u64_decimal(n as u64));
            extend_str(&mut v, " partition");
            if n != 1 {
                extend_str(&mut v, "s");
            }
            assert(v@ =~= count_text(used_idx(g.entries@).len()));
            string_from_chars(&v)
        },
        Some(other) => other.describe(),
        None => match unreadable {
            Some(w) => w.clone(),
            None => "?  (cannot be probed)".to_owned(),
        },
    }
}

/// Appends one partition's line.
fn push_member(v: &mut Vec<char>, m: &(String, usize, Option<u64>), g: Option<&Gpt>)
    requires
        fits_bytes(m.2),
    ensures
        final(v)@ == old(v)@ + member_row(
            m.0@,
            m.2,
            detail_text(
                match g {
                    Some(t) => Some(*t),
                    None => None,
                },
                m.1 as int,
            ),
        ),
{
    let size = match m.2 {
        Some(s) => human(s * 512),
        None => "?".to_owned(),
    };
    assert(size@ == size_column(m.2));
    let d = detail(g, m.1);
    extend_str(v, "  ");
    push_left(v, m.0.as_str(), 12);
    extend_str(v, " ");
    push_right(v, size.as_str(), 8);
    extend_str(v, "  ");
    extend_str(v, d.as_str());
    extend_str(v, "\n");
    assert(v@ =~= old(v)@ + member_row(m.0@, m.2, detail_text(
        match g {
            Some(t) => Some(*t),
            None => None,
        },
        m.1 as int,
    )));
}

/// Appends one disk's own line.
fn push_disk_row(v: &mut Vec<char>, d: &DiskListing)
    ensures
        final(v)@ == old(v)@ + disk_row(d.path@, d.size_bytes, summary_text(d.state, unreadable_view(d.unreadable))),
{
    let s = summary(d.state.as_ref(), d.unreadable.as_ref());
    assert(s@ == summary_text(d.state, unreadable_view(d.unreadable)));
    push_left(v, d.path.as_str(), 14);
    extend_str(v, " ");
    let size = human(d.size_bytes);
    push_right(v, size.as_str(), 8);
    extend_str(v, "  ");
    extend_str(v, s.as_str());
    extend_str(v, "\n");
    assert(v@ =~= old(v)@ + disk_row(d.path@, d.size_bytes, summary_text(d.state, unreadable_view(d.unreadable))));
}

/// Appends the lines of a disk's partitions.
fn push_members(v: &mut Vec<char>, ms: &Vec<(String, usize, Option<u64>)>, g: Option<&Gpt>)
    requires
        forall|k: int| 0 <= k < ms@.len() ==> fits_bytes((#[trigger] ms@[k]).2),
    ensures
        final(v)@ == old(v)@ + members_text(
            ms@,
            match g {
                Some(t) => Some(*t),
                None => None,
            },
        ),
{
    let ghost gs = match g {
        Some(t) => Some(*t),
        None => None,
    };
    let mut i: usize = 0;
    while i < ms.len()
        invariant
            i <= ms@.len(),
            gs == (match g {
                Some(t) => Some(*t),
                None => None,
            }),
            forall|k: int| 0 <= k < ms@.len() ==> fits_bytes((#[trigger] ms@[k]).2),
            v@ == old(v)@ + members_text(ms@.take(i as int), gs),
        decreases ms@.len() - i,
    {
        let m = &ms[i];
        assert(ms@.take(i + 1).drop_last() =~= ms@.take(i as int));
        assert(ms@.take(i + 1).last() == ms@[i as int]);
        push_member(v, m, g);
        i += 1;
    }
    assert(ms@.take(ms@.len() as int) =~= ms@);
}

/// What `part list` prints with no device: a heading, then each disk and
/// its partitions; or, when there are no disks, that there are none.
pub fn inventory(disks: &[DiskListing]) -> (s: String)
    requires
        sizes_fit(disks@),
    ensures
        s@ == inventory_text(disks@),
{
    if disks.len() == 0 {
        return "no block devices\n".to_owned();
    }
    let mut v: Vec<char> = Vec::new();
    push_left(&mut v, "DEVICE", 14);
    extend_str(&mut v, " ");
    push_right(&mut v, "SIZE", 8);
    extend_str(&mut v, "  ");
    extend_str(&mut v, "CONTENTS");
    extend_str(&mut v, "\n");
    assert(v@ =~= heading());
    let mut i: usize = 0;
    while i < disks.len()
        invariant
            i <= disks@.len(),
            sizes_fit(disks@),
            v@ == heading() + disks_text(disks@.take(i as int)),
        decreases disks@.len() - i,
    {
        let d = &disks[i];
        assert(disks@.take(i + 1).drop_last() =~= disks@.take(i as int));
        assert(disks@.take(i + 1).last() == disks@[i as int]);
        let ghost before = v@;
        push_disk_row(&mut v, d);
        let g: Option<&Gpt> = match &d.state {
            Some(DiskState::Gpt(b)) => Some(&**b),
            _ => None,
        };
        assert forall|k: int| 0 <= k < d.members@.len() implies fits_bytes((#[trigger] d.members@[k]).2) by {
            assert(disks@[i as int].members@[k] == d.members@[k]);
        }
        push_members(&mut v, &d.members, g);
        assert(v@ =~= before + disk_text(*d));
        i += 1;
    }
    assert(disks@.take(disks@.len() as int) =~= disks@);
    string_from_chars(&v)
}

} // verus!
