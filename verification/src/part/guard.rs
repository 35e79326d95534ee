//! The decisions behind opening a device: its geometry from what the kernel
//! or the file system reports, and the safety guards that refuse a partition
//! or a mounted disk before anything is written.
//!
//! What sysfs, `/proc/mounts` and the file system say is read elsewhere and
//! handed in as plain values; everything decided from them is here.
use crate::part::device::{two_words, words, Geometry, FILE_SECTOR_SIZE};
use crate::part::error::{PartError, Result};
use crate::regman::markdown::{lines_from, lines_of, strs};
use crate::text::{chars_eq, chars_have_at, chars_of, decimal, extend_chars, extend_str, has_at, slice_chars, string_from_chars, u64_decimal};
use vstd::prelude::*;

verus! {

/// The refusal for something that is neither a block device nor a regular file.
pub open spec fn not_a_disk_text(path: Seq<char>) -> Seq<char> {
    path + ": not a block device or regular file"@
}

/// The refusal for a file too small to hold a partition table.
pub open spec fn too_small_text(path: Seq<char>, len: u64) -> Seq<char> {
    path + ": "@ + decimal(len as nat) + " bytes is too small to hold a partition table"@
}

/// The geometry of a regular file of `len` bytes (`None`: the path is not a
/// regular file): 512-byte sectors, as many as fit whole.
pub fn file_geometry(path: &str, len: Option<u64>) -> (r: Result<Geometry>)
    ensures
        match len {
            None => r matches Err(PartError::Usage(m)) && m@ == not_a_disk_text(path@),
            Some(l) => if l < FILE_SECTOR_SIZE {
                r matches Err(PartError::Usage(m)) && m@ == too_small_text(path@, l)
            } else {
                r matches Ok(g) && g.sector_size == FILE_SECTOR_SIZE && g.sectors == l / 512
            },
        },
{
    match len {
        None => {
            let mut v: Vec<char> = Vec::new();
            extend_str(&mut v, path);
            extend_str(&mut v, ": not a block device or regular file");
            Err(PartError::Usage(string_from_chars(&v)))
        },
        Some(l) => {
            if l < 512 {
                let mut v: Vec<char> = Vec::new();
                extend_str(&mut v, path);
                extend_str(&mut v, ": ");
                extend_chars(&mut v, &u64_decimal(l));
                extend_str(&mut v, " bytes is too small to hold a partition table");
                Err(PartError::Usage(string_from_chars(&v)))
            } else {
                Ok(Geometry { sector_size: FILE_SECTOR_SIZE, sectors: l / 512 })
            }
        },
    }
}

/// The logical sector size of a block device: what sysfs reports, else what
/// the `BLKSSZGET` ioctl answered when it answered a positive size, else 512.
pub open spec fn chosen_sector_size(sysfs: Option<u64>, ioctl: Option<i32>) -> nat {
    match sysfs {
        Some(s) => s as nat,
        None => match ioctl {
            Some(x) => if x > 0 {
                x as nat
            } else {
                512
            },
            None => 512,
        },
    }
}

/// The refusal for a block device whose size cannot be found.
pub open spec fn unsized_text(path: Seq<char>) -> Seq<char> {
    path + ": cannot determine device size"@
}

/// The geometry of a block device, from its sysfs logical block size (or the
/// ioctl's answer) and its sysfs size, which is always in 512-byte units
/// whatever the logical sector size is.
pub fn block_geometry(path: &str, sysfs_size: Option<u64>, ioctl_size: Option<i32>, sectors_512: Option<u64>) -> (r:
    Result<Geometry>)
    requires
        sysfs_size matches Some(s) ==> s <= usize::MAX,
        sectors_512 matches Some(n) ==> (n * 512 <= u64::MAX && chosen_sector_size(sysfs_size, ioctl_size) > 0),
    ensures
        match sectors_512 {
            None => r matches Err(PartError::Usage(m)) && m@ == unsized_text(path@),
            Some(n) => r matches Ok(g) && g.sector_size == chosen_sector_size(sysfs_size, ioctl_size)
                && g.sectors == (n * 512) / (chosen_sector_size(sysfs_size, ioctl_size) as int),
        },
{
    let size: usize = match sysfs_size {
        Some(s) => s as usize,
        None => match ioctl_size {
            Some(x) => if x > 0 {
                x as usize
            } else {
                512
            },
            None => 512,
        },
    };
    match sectors_512 {
        None => {
            let mut v: Vec<char> = Vec::new();
            extend_str(&mut v, path);
            extend_str(&mut v, ": cannot determine device size");
            Err(PartError::Usage(string_from_chars(&v)))
        },
        Some(n) => Ok(Geometry { sector_size: size, sectors: n * 512 / (size as u64) }),
    }
}

/// The refusal for choosing the sector size of a real device.
pub open spec fn not_ours_text() -> Seq<char> {
    "the sector size of a block device is not ours to choose"@
}

/// The geometry of a file image viewed with another sector size, for
/// exercising 4Kn layouts: the same bytes, counted in `size`-byte sectors.
/// On a real device the kernel's answer is the only correct one.
pub fn with_sector_size(geom: Geometry, is_block: bool, size: usize) -> (r: Result<Geometry>)
    requires
        size > 0,
        geom.sectors * geom.sector_size <= u64::MAX,
    ensures
        is_block ==> (r matches Err(PartError::Usage(m)) && m@ == not_ours_text()),
        !is_block ==> (r matches Ok(g) && g.sector_size == size && g.sectors == (geom.sectors
            * geom.sector_size) / (size as int)),
{
    if is_block {
        return Err(PartError::Usage("the sector size of a block device is not ours to choose".to_owned()));
    }
    let bytes = geom.sectors * (geom.sector_size as u64);
    Ok(Geometry { sector_size: size, sectors: bytes / (size as u64) })
}

/// The whole disk a partition belongs to, from its parent's `uevent` text:
/// the `DEVNAME=` line, as a `/dev` path.
pub open spec fn devname(lines: Seq<Seq<char>>) -> Option<Seq<char>>
    decreases lines.len(),
{
    if lines.len() == 0 {
        None
    } else if has_at(lines[0], 0, "DEVNAME="@) {
        Some("/dev/"@ + lines[0].skip("DEVNAME="@.len() as int))
    } else {
        devname(lines.drop_first())
    }
}

/// The `/dev` path a `uevent` text's `DEVNAME=` line names.
fn parent_of(u: &str) -> (r: Option<Vec<char>>)
    ensures
        match r {
            Some(p) => devname(lines_from(u@, 0)) == Some(p@),
            None => devname(lines_from(u@, 0)) is None,
        },
{
    let lines = lines_of(u);
    let ghost ls = strs(lines@);
    let key = chars_of("DEVNAME=");
    let mut i: usize = 0;
    assert(ls.skip(0) =~= ls);
    while i < lines.len()
        invariant
            i <= lines@.len(),
            ls == strs(lines@),
            ls == lines_from(u@, 0),
            key@ == "DEVNAME="@,
            devname(ls) == devname(ls.skip(i as int)),
        decreases lines@.len() - i,
    {
        assert(ls.skip(i as int).drop_first() =~= ls.skip(i + 1));
        assert(ls.skip(i as int)[0] == lines@[i as int]@);
        let l = chars_of(lines[i].as_str());
        if chars_have_at(&l, 0, &key) {
            let mut p: Vec<char> = Vec::new();
            extend_str(&mut p, "/dev/");
            let rest = slice_chars(&l, key.len(), l.len());
            assert(rest@ =~= l@.skip("DEVNAME="@.len() as int));
            extend_chars(&mut p, &rest);
            assert(devname(ls) == Some(p@));
            return Some(p);
        }
        i += 1;
    }
    assert(ls.skip(lines@.len() as int) =~= Seq::<Seq<char>>::empty());
    None
}

/// The refusal for a partition named where a whole disk was wanted.
pub open spec fn partition_text(path: Seq<char>, uevent: Option<Seq<char>>) -> Seq<char> {
    let parent = match uevent {
        Some(u) => match devname(lines_from(u, 0)) {
            Some(p) => p,
            None => "the whole disk"@,
        },
        None => "the whole disk"@,
    };
    path + " is a partition, not a whole disk; did you mean "@ + parent + "?"@
}

/// Refuse a partition where a whole disk was wanted, naming the disk it
/// belongs to when its parent's `uevent` text says. Writing a GPT inside a
/// partition would leave a table visible to nothing that matters.
pub fn partition_refusal(path: &str, uevent: Option<&str>) -> (e: PartError)
    ensures
        e matches PartError::Refused(m) && m@ == partition_text(
            path@,
            match uevent {
                Some(u) => Some(u@),
                None => None,
            },
        ),
{
    let parent = match uevent {
        Some(u) => parent_of(u),
        None => None,
    };
    let mut v: Vec<char> = Vec::new();
    extend_str(&mut v, path);
    extend_str(&mut v, " is a partition, not a whole disk; did you mean ");
    match parent {
        Some(p) => extend_chars(&mut v, &p),
        None => extend_str(&mut v, "the whole disk"),
    }
    extend_str(&mut v, "?");
    PartError::Refused(string_from_chars(&v))
}

/// The first mount line whose source is one of `targets`: its source and
/// its mount point.
pub open spec fn mount_clash(targets: Seq<Seq<char>>, lines: Seq<Seq<char>>) -> Option<(Seq<char>, Seq<char>)>
    decreases lines.len(),
{
    if lines.len() == 0 {
        None
    } else {
        let w = words(lines[0]);
        if w.len() >= 2 && targets.contains(w[0]) {
            Some((w[0], w[1]))
        } else {
            mount_clash(targets, lines.drop_first())
        }
    }
}

/// The refusal for a disk with something mounted.
pub open spec fn mounted_text(source: Seq<char>, target: Seq<char>, path: Seq<char>) -> Seq<char> {
    source + " is mounted at "@ + target + "; refusing to touch "@ + path
}

fn listed(targets: &[String], s: &str) -> (r: bool)
    ensures
        r == strs(targets@).contains(s@),
{
    let sv = chars_of(s);
    let mut i: usize = 0;
    while i < targets.len()
        invariant
            i <= targets@.len(),
            sv@ == s@,
            forall|k: int| 0 <= k < i ==> targets@[k]@ != s@,
        decreases targets@.len() - i,
    {
        if chars_eq(&chars_of(targets[i].as_str()), &sv) {
            assert(strs(targets@)[i as int] == s@);
            return true;
        }
        i += 1;
    }
    assert forall|k: int| 0 <= k < strs(targets@).len() implies strs(targets@)[k] != s@ by {
        assert(strs(targets@)[k] == targets@[k]@);
    }
    false
}

/// Refuse a disk any of whose `targets` (the device, its resolved path and its
/// partitions) is the source of a line of `mounts`, the text of
/// `/proc/mounts`. Matched on the whole source field, never a substring.
pub fn mounted_refusal(path: &str, targets: &[String], mounts: &str) -> (r: Result<()>)
    ensures
        match mount_clash(strs(targets@), lines_from(mounts@, 0)) {
            None => r is Ok,
            Some((s, t)) => r matches Err(PartError::Refused(m)) && m@ == mounted_text(s, t, path@),
        },
{
    let lines = lines_of(mounts);
    let ghost ls = strs(lines@);
    let ghost ts = strs(targets@);
    let mut i: usize = 0;
    assert(ls.skip(0) =~= ls);
    while i < lines.len()
        invariant
            i <= lines@.len(),
            ls == strs(lines@),
            ls == lines_from(mounts@, 0),
            ts == strs(targets@),
            mount_clash(ts, ls) == mount_clash(ts, ls.skip(i as int)),
        decreases lines@.len() - i,
    {
        assert(ls.skip(i as int).drop_first() =~= ls.skip(i + 1));
        assert(ls.skip(i as int)[0] == lines@[i as int]@);
        let (a, b) = two_words(lines[i].as_str());
        match (a, b) {
            (Some(src), Some(target)) => {
                if listed(targets, src.as_str()) {
                    let mut v: Vec<char> = Vec::new();
                    extend_str(&mut v, src.as_str());
                    extend_str(&mut v, " is mounted at ");
                    extend_str(&mut v, target.as_str());
                    extend_str(&mut v, "; refusing to touch ");
                    extend_str(&mut v, path);
                    return Err(PartError::Refused(string_from_chars(&v)));
                }
            },
            _ => {},
        }
        i += 1;
    }
    assert(ls.skip(lines@.len() as int) =~= Seq::<Seq<char>>::empty());
    Ok(())
}

/// What holds a partition, for the message of a table the kernel would not
/// re-read: its mount point when it is mounted, else an exclusive opener.
pub open spec fn hold_text(node: Seq<char>, mount_target: Option<Seq<char>>) -> Seq<char> {
    match mount_target {
        Some(t) => node + " is mounted on "@ + t,
        None => node + " is open in another program"@,
    }
}

pub fn hold_of(node: &str, mount_target: Option<&str>) -> (s: String)
    ensures
        s@ == hold_text(
            node@,
            match mount_target {
                Some(t) => Some(t@),
                None => None,
            },
        ),
{
    let mut v: Vec<char> = Vec::new();
    extend_str(&mut v, node);
    match mount_target {
        Some(t) => {
            extend_str(&mut v, " is mounted on ");
            extend_str(&mut v, t);
        },
        None => extend_str(&mut v, " is open in another program"),
    }
    string_from_chars(&v)
}

/// What the mount guard checks: the device as named, its resolved path when
/// that differs, then every partition node beneath it.
pub open spec fn guard_targets(path: Seq<char>, resolved: Option<Seq<char>>, nodes: Seq<Seq<char>>) -> Seq<Seq<char>> {
    match resolved {
        Some(r) => if r != path {
            seq![path, r] + nodes
        } else {
            seq![path] + nodes
        },
        None => seq![path] + nodes,
    }
}

pub fn targets_of(path: &str, resolved: Option<String>, nodes: Vec<String>) -> (out: Vec<String>)
    ensures
        strs(out@) == guard_targets(
            path@,
            match resolved {
                Some(r) => Some(r@),
                None => None,
            },
            strs(nodes@),
        ),
{
    let ghost rv = match &resolved {
        Some(r) => Some(r@),
        None => None,
    };
    let mut out: Vec<String> = Vec::new();
    out.push(string_from_chars(&chars_of(path)));
    if let Some(r) = resolved {
        if !chars_eq(&chars_of(r.as_str()), &chars_of(path)) {
            out.push(r);
        }
    }
    let ghost start = out@;
    let mut i: usize = 0;
    let mut ns = nodes;
    let ghost orig = ns@;
    let total = ns.len();
    while ns.len() > 0
        invariant
            i + ns@.len() == total,
            total == orig.len(),
            out@ == start + orig.take(i as int),
            ns@ == orig.skip(i as int),
            i <= orig.len(),
        decreases ns@.len(),
    {
        let n = ns.remove(0);
        assert(orig.skip(i as int)[0] == n);
        out.push(n);
        assert(orig.skip(i as int).drop_first() =~= orig.skip(i + 1));
        i += 1;
        assert(out@ =~= start + orig.take(i as int));
    }
    assert(orig.take(i as int) =~= orig);
    assert(strs(out@) =~= strs(start) + strs(orig));
    proof {
        assert(strs(start) =~= (match rv {
            Some(r) => if r != path@ {
                seq![path@, r]
            } else {
                seq![path@]
            },
            None => seq![path@],
        }));
    }
    out
}

} // verus!
