//! The seam between "what is on this disk" and "what `part` can do with it".
//!
//! Only GPT is implemented; [`DiskLabel`] is what the command layer is written
//! against. What a disk holds is answered with a [`DiskState`], which tells a
//! blank disk apart from one carrying somebody else's table.
use crate::part::device::Geometry;
use crate::part::entry::GptEntry;
use crate::part::error::{PartError, Result};
use crate::part::gpt::{array_fault, array_fault_error, header_u32, spec_array_sectors, used_idx, Gpt, views, problem_list};
use crate::part::guid::guid_text;
use crate::part::header::{fault_error, header_fault, GptHeader, HeaderFault};
use crate::part::mbr::{is_protective, is_real_mbr, spec_is_protective, spec_is_real_mbr};
use crate::part::types::{alias, alias_table, row_of};
use crate::text::{chars_eq, chars_of, decimal, extend_chars, extend_str, string_from_chars, u64_decimal};
use vstd::prelude::*;

verus! {

/// One partition, as any label would describe it.
#[derive(Clone, Debug, PartialEq, Eq)]
pub struct PartitionView {
    pub index: usize,
    pub start: u64,
    pub end: u64,
    pub sectors: u64,
    pub type_label: String,
    pub name: String,
    pub uuid: String,
}

/// What the TYPE column shows for a type GUID: its alias, else the GUID.
pub open spec fn type_column(g: crate::part::guid::Guid) -> Seq<char> {
    match row_of(g) {
        Some(i) => alias_table()[i].0,
        None => guid_text(g.0@),
    }
}

/// Is `v` the view of entry `e`, which sits at 1-based `index`?
pub open spec fn view_of(index: int, e: GptEntry, v: PartitionView) -> bool {
    &&& v.index == index
    &&& v.start == e.starting_lba
    &&& v.end == e.ending_lba
    &&& v.sectors == e.spec_sectors()
    &&& v.type_label@ == type_column(e.type_guid)
    &&& v.name@ == e.name@
    &&& v.uuid@ == guid_text(e.unique_guid.0@)
}

/// No used entry spans every sector a `u64` can number, so each length fits.
pub open spec fn lengths_fit(es: Seq<GptEntry>) -> bool {
    forall|i: int| 0 <= i < es.len() ==> (#[trigger] es[i]).spec_sectors() <= u64::MAX
}

/// What a partition table must be able to tell `part`.
pub trait DiskLabel {
    /// What the label needs of itself before it can be listed or written.
    spec fn sound(&self) -> bool;

    /// Does `v` list this label's partitions, in order?
    spec fn lists(&self, v: Seq<PartitionView>) -> bool;

    /// Are `w` the writes that commit this label, in order?
    spec fn commits(&self, w: Seq<(u64, Vec<u8>)>) -> bool;

    /// The structural problems of this label, as text.
    spec fn problem_lines(&self) -> Seq<Seq<char>>;

    /// Short name for the format, as `part list` prints it.
    fn kind(&self) -> &'static str;

    fn partitions(&self) -> (out: Vec<PartitionView>)
        requires
            self.sound(),
        ensures
            self.lists(out@),
    ;

    /// Writes to commit, in the order they must be issued.
    fn writes(&self) -> (w: Vec<(u64, Vec<u8>)>)
        requires
            self.sound(),
        ensures
            self.commits(w@),
    ;

    /// Structural problems; empty means healthy.
    fn problems(&self) -> (out: Vec<String>)
        requires
            self.sound(),
        ensures
            views(out@) == self.problem_lines(),
    ;
}

pub fn view_entry(index: usize, e: &GptEntry) -> (v: PartitionView)
    requires
        e.spec_sectors() <= u64::MAX,
    ensures
        view_of(index as int, *e, v),
{
    let type_label = match alias(&e.type_guid) {
        Some(a) => a.to_owned(),
        None => e.type_guid.to_text(),
    };
    PartitionView {
        index,
        start: e.starting_lba,
        end: e.ending_lba,
        sectors: e.sectors(),
        type_label,
        name: e.name.clone(),
        uuid: e.unique_guid.to_text(),
    }
}

impl DiskLabel for Gpt {
    open spec fn sound(&self) -> bool {
        self.wf() && lengths_fit(self.entries@)
    }

    open spec fn lists(&self, v: Seq<PartitionView>) -> bool {
        &&& v.len() == used_idx(self.entries@).len()
        &&& forall|k: int|
            0 <= k < v.len() ==> view_of(
                used_idx(self.entries@)[k] + 1,
                self.entries@[used_idx(self.entries@)[k]],
                #[trigger] v[k],
            )
    }

    open spec fn commits(&self, w: Seq<(u64, Vec<u8>)>) -> bool {
        self.planned_writes(w)
    }

    open spec fn problem_lines(&self) -> Seq<Seq<char>> {
        problem_list(*self)
    }

    fn kind(&self) -> (r: &'static str)
        ensures
            r@ == "gpt"@,
    {
        "gpt"
    }

    fn partitions(&self) -> (out: Vec<PartitionView>) {
        let ps = Gpt::partitions(self);
        let ghost u = used_idx(self.entries@);
        let mut out: Vec<PartitionView> = Vec::new();
        let mut k: usize = 0;
        proof {
            crate::part::gpt::lemma_used_idx(self.entries@);
        }
        while k < ps.len()
            invariant
                k <= ps@.len(),
                ps@.len() == u.len(),
                u == used_idx(self.entries@),
                lengths_fit(self.entries@),
                forall|j: int|
                    0 <= j < ps@.len() ==> (#[trigger] ps@[j]).0 == u[j] + 1 && *ps@[j].1
                        == self.entries@[u[j]],
                forall|j: int| 0 <= j < u.len() ==> 0 <= #[trigger] u[j] < self.entries@.len(),
                out@.len() == k,
                forall|j: int|
                    0 <= j < k ==> view_of(u[j] + 1, self.entries@[u[j]], #[trigger] out@[j]),
            decreases ps@.len() - k,
        {
            let (index, e) = ps[k];
            assert(self.entries@[u[k as int]] == *e);
            out.push(view_entry(index, e));
            k += 1;
        }
        out
    }

    fn writes(&self) -> (w: Vec<(u64, Vec<u8>)>) {
        Gpt::writes(self)
    }

    fn problems(&self) -> (out: Vec<String>) {
        Gpt::problems(self)
    }
}

/// What was found on a disk.
#[derive(Debug)]
pub enum DiskState {
    /// A healthy GPT.
    Gpt(Box<Gpt>),
    /// GPT structures are present but wrong. Reported, never silently repaired.
    Damaged(String),
    /// A partition table `part` does not manage.
    Foreign { kind: String },
    /// A filesystem written straight to the disk, with no partition table.
    Filesystem { fstype: String },
    /// Nothing recognisable.
    Blank,
}

/// How a foreign label's kind is named in prose.
pub open spec fn kind_text(k: Seq<char>) -> Seq<char> {
    if k == "dos"@ {
        "an MBR (dos)"@
    } else if k == "mac"@ {
        "an Apple Partition Map"@
    } else if k == "bsd"@ {
        "a BSD disklabel"@
    } else if k == "sun"@ {
        "a Sun disklabel"@
    } else if k == "sgi"@ {
        "an SGI disklabel"@
    } else if k == "atari"@ {
        "an Atari"@
    } else {
        "a "@ + k
    }
}

/// The line `describe` gives for a state.
pub open spec fn state_text(s: DiskState) -> Seq<char> {
    match s {
        DiskState::Gpt(_) => "GPT"@,
        DiskState::Damaged(m) => "a damaged GPT ("@ + m@ + ")"@,
        DiskState::Foreign { kind } => kind_text(kind@) + " partition table"@,
        DiskState::Filesystem { fstype } => "a "@ + fstype@
            + " filesystem written directly to the disk, with no partition table"@,
        DiskState::Blank => "no partition table"@,
    }
}

/// The refusal `permit_destructive` gives for a state.
pub open spec fn refusal_text(s: DiskState) -> Seq<char> {
    "this disk carries "@ + state_text(s)
        + ", which part cannot manage; pass --force to replace it \u{2014} every partition on it will be lost"@
}

fn same_word(a: &str, b: &str) -> (r: bool)
    ensures
        r == (a@ == b@),
{
    chars_eq(&chars_of(a), &chars_of(b))
}

/// Prose name for a foreign label kind.
pub fn pretty_kind(kind: &str) -> (s: String)
    ensures
        s@ == kind_text(kind@),
{
    if same_word(kind, "dos") {
        "an MBR (dos)".to_owned()
    } else if same_word(kind, "mac") {
        "an Apple Partition Map".to_owned()
    } else if same_word(kind, "bsd") {
        "a BSD disklabel".to_owned()
    } else if same_word(kind, "sun") {
        "a Sun disklabel".to_owned()
    } else if same_word(kind, "sgi") {
        "an SGI disklabel".to_owned()
    } else if same_word(kind, "atari") {
        "an Atari".to_owned()
    } else {
        let mut v: Vec<char> = Vec::new();
        extend_str(&mut v, "a ");
        extend_str(&mut v, kind);
        string_from_chars(&v)
    }
}

impl DiskState {
    /// One line describing the disk, for `part list` and for refusals.
    pub fn describe(&self) -> (s: String)
        ensures
            s@ == state_text(*self),
    {
        match self {
            DiskState::Gpt(_) => "GPT".to_owned(),
            DiskState::Damaged(m) => {
                let mut v: Vec<char> = Vec::new();
                extend_str(&mut v, "a damaged GPT (");
                extend_str(&mut v, m.as_str());
                extend_str(&mut v, ")");
                string_from_chars(&v)
            },
            DiskState::Foreign { kind } => {
                let mut v: Vec<char> = Vec::new();
                let p = pretty_kind(kind.as_str());
                extend_str(&mut v, p.as_str());
                extend_str(&mut v, " partition table");
                string_from_chars(&v)
            },
            DiskState::Filesystem { fstype } => {
                let mut v: Vec<char> = Vec::new();
                extend_str(&mut v, "a ");
                extend_str(&mut v, fstype.as_str());
                extend_str(
                    &mut v,
                    " filesystem written directly to the disk, with no partition table",
                );
                string_from_chars(&v)
            },
            DiskState::Blank => "no partition table".to_owned(),
        }
    }

    /// May a destructive operation proceed? A healthy GPT or a blank disk,
    /// always; anything else only with `--force`.
    pub fn permit_destructive(&self, force: bool) -> (r: Result<()>)
        ensures
            (*self is Gpt || *self is Blank || force) ==> r is Ok,
            !(*self is Gpt || *self is Blank || force) ==> (r matches Err(PartError::Foreign(m))
                && m@ == refusal_text(*self)),
    {
        match self {
            DiskState::Gpt(_) | DiskState::Blank => Ok(()),
            _ => {
                if force {
                    Ok(())
                } else {
                    let mut v: Vec<char> = Vec::new();
                    extend_str(&mut v, "this disk carries ");
                    let d = self.describe();
                    extend_str(&mut v, d.as_str());
                    extend_str(
                        &mut v,
                        ", which part cannot manage; pass --force to replace it \u{2014} every partition on it will be lost",
                    );
                    Err(PartError::Foreign(string_from_chars(&v)))
                }
            },
        }
    }
}

/// What the probe asks for next, or what it found.
#[derive(Debug)]
pub enum Probe {
    /// Read `sectors` sectors at `lba` (the entry array the header
    /// describes) and probe again with them.
    ReadEntries { lba: u64, sectors: u64 },
    /// Neither GPT nor MBR: ask libblkid, and hand its answer to `probe_blkid`.
    AskBlkid,
    /// The answer.
    Found(DiskState),
}

/// What libblkid reported of a disk: its partition-table type and its
/// filesystem type, each when it found one.
#[derive(Clone, Debug, PartialEq, Eq)]
pub struct BlkidAnswer {
    pub pttype: Option<String>,
    pub fstype: Option<String>,
}

/// The verdict from sector 0 once no usable GPT header was found.
pub open spec fn mbr_outcome(s0: Seq<u8>, r: Probe) -> bool {
    if spec_is_protective(s0) && !spec_is_real_mbr(s0) {
        r matches Probe::Found(DiskState::Damaged(m)) && m@
            == "a protective MBR is present but there is no valid GPT header"@
    } else if spec_is_real_mbr(s0) {
        r matches Probe::Found(DiskState::Foreign { kind }) && kind@ == "dos"@
    } else {
        r is AskBlkid
    }
}

/// The damage reported for an entry array that could not fit on the disk.
pub open spec fn misfit_text(n: u32, lba: u64) -> Seq<char> {
    "header describes a "@ + decimal(n as nat) + "-entry array at LBA "@ + decimal(lba as nat)
        + ", which does not fit on this disk"@
}

fn mbr_verdict(sector0: &[u8]) -> (r: Probe)
    ensures
        mbr_outcome(sector0@, r),
{
    let is_mbr = is_real_mbr(sector0);
    if is_protective(sector0) && !is_mbr {
        return Probe::Found(
            DiskState::Damaged(
                "a protective MBR is present but there is no valid GPT header".to_owned(),
            ),
        );
    }
    if is_mbr {
        return Probe::Found(DiskState::Foreign { kind: "dos".to_owned() });
    }
    Probe::AskBlkid
}

/// Decide what is on a disk from its first two sectors, and from the entry
/// array once the header has said where it is. Our own parse is the
/// authority on GPT: the array read is the one the header describes, and a
/// header claiming an array that cannot fit is damage, not a read to make.
pub fn probe_sectors(geom: Geometry, sector0: &[u8], header: &[u8], entries: Option<&[u8]>) -> (r:
    Probe)
    requires
        geom.sector_size > 0,
        entries matches Some(e) ==> e@.len() < usize::MAX,
    ensures
        match header_fault(header@) {
            Some(HeaderFault::NoSignature) => mbr_outcome(sector0@, r),
            Some(f) => r matches Probe::Found(DiskState::Damaged(m)) && fault_error(
                f,
                PartError::Damaged(m),
            ),
            None => {
                let n = header_u32(header@, 80);
                let lba = vstd::bytes::spec_u64_from_le_bytes(header@.subrange(72, 80));
                let secs = spec_array_sectors(n, header_u32(header@, 84), geom.sector_size);
                if secs == 0 || lba + secs > geom.sectors {
                    r matches Probe::Found(DiskState::Damaged(m)) && m@ == misfit_text(n, lba)
                } else {
                    match entries {
                        None => r matches Probe::ReadEntries { lba: l, sectors: c } && l == lba && c
                            == secs,
                        Some(eb) => match array_fault(header@, eb@) {
                            Some(f) => r matches Probe::Found(DiskState::Damaged(m))
                                && array_fault_error(f, PartError::Damaged(m)),
                            None => r matches Probe::Found(DiskState::Gpt(g)) && g.decodes(
                                geom.sectors,
                                geom.sector_size,
                                header@,
                                eb@,
                            ),
                        },
                    }
                }
            },
        },
{
    match GptHeader::parse(header) {
        Ok(h) => {
            let secs = Gpt::array_sectors_for(h.num_entries, h.entry_size, geom.sector_size);
            let fits = match h.entry_array_lba.checked_add(secs) {
                Some(end) => end <= geom.sectors,
                None => false,
            };
            if secs == 0 || !fits {
                let mut v: Vec<char> = Vec::new();
                extend_str(&mut v, "header describes a ");
                extend_chars(&mut v, &u64_decimal(h.num_entries as u64));
                extend_str(&mut v, "-entry array at LBA ");
                extend_chars(&mut v, &u64_decimal(h.entry_array_lba));
                extend_str(&mut v, ", which does not fit on this disk");
                return Probe::Found(DiskState::Damaged(string_from_chars(&v)));
            }
            match entries {
                None => Probe::ReadEntries { lba: h.entry_array_lba, sectors: secs },
                Some(eb) => match Gpt::parse(geom.sectors, geom.sector_size, header, eb) {
                    Ok(g) => Probe::Found(DiskState::Gpt(Box::new(g))),
                    Err(PartError::Damaged(m)) => Probe::Found(DiskState::Damaged(m)),
                    Err(_) => {
                        assert(false);
                        Probe::AskBlkid
                    },
                },
            }
        },
        Err(PartError::Damaged(m)) => Probe::Found(DiskState::Damaged(m)),
        Err(PartError::NoGpt) => mbr_verdict(sector0),
        Err(_) => {
            assert(false);
            Probe::AskBlkid
        },
    }
}

/// The verdict once GPT and MBR are ruled out: what libblkid found, if it
/// could probe at all. A libblkid that cannot answer is no evidence of
/// anything, so that reads as blank.
pub fn probe_blkid(answer: Option<BlkidAnswer>) -> (s: DiskState)
    ensures
        match answer {
            None => s is Blank,
            Some(a) => match (a.pttype, a.fstype) {
                (Some(p), _) if p@ != "gpt"@ => s matches DiskState::Foreign { kind } && kind@ == p@,
                (_, Some(f)) => s matches DiskState::Filesystem { fstype } && fstype@ == f@,
                _ => s is Blank,
            },
        },
{
    match answer {
        None => DiskState::Blank,
        Some(a) => {
            let foreign = match &a.pttype {
                Some(p) => !same_word(p.as_str(), "gpt"),
                None => false,
            };
            if foreign {
                match a.pttype {
                    Some(p) => DiskState::Foreign { kind: p },
                    None => DiskState::Blank,
                }
            } else {
                match a.fstype {
                    Some(f) => DiskState::Filesystem { fstype: f },
                    None => DiskState::Blank,
                }
            }
        },
    }
}

/// The healthy GPT a state holds, or why there is none: damage is reported
/// as such, anything else as a disk with no GPT to modify.
pub fn load_gpt(state: DiskState) -> (r: Result<Gpt>)
    ensures
        match state {
            DiskState::Gpt(g) => r matches Ok(x) && x == *g,
            DiskState::Damaged(m) => r matches Err(PartError::Damaged(x)) && x@ == m@,
            _ => r matches Err(PartError::Foreign(x)) && x@ == "this disk carries "@ + state_text(
                state,
            ) + " \u{2014} there is no GPT to modify"@,
        },
{
    match state {
        DiskState::Gpt(g) => Ok(*g),
        DiskState::Damaged(m) => Err(PartError::Damaged(m)),
        other => {
            let mut v: Vec<char> = Vec::new();
            extend_str(&mut v, "this disk carries ");
            let d = other.describe();
            extend_str(&mut v, d.as_str());
            extend_str(&mut v, " \u{2014} there is no GPT to modify");
            Err(PartError::Foreign(string_from_chars(&v)))
        },
    }
}

} // verus!
