//! The protective MBR (UEFI 2.10 §5.2.3).
//!
//! LBA 0 of a GPT disk holds a legacy MBR describing one partition of type
//! `0xEE` spanning the whole disk, so that MBR-only tools see a full disk.
use crate::bytes::{write_at, zeros};
use vstd::bytes::{spec_u32_to_le_bytes, u32_to_le_bytes};
use vstd::prelude::*;

verus! {

/// The `0xEE` OS type that marks a protective MBR partition record.
pub const PROTECTIVE_TYPE: u8 = 0xEE;

/// The size field of the protective record: sectors after LBA 0, clamped to
/// `u32::MAX` rather than wrapped.
pub open spec fn protective_size(disk_sectors: u64) -> u32 {
    if disk_sectors == 0 {
        0
    } else if disk_sectors - 1 > u32::MAX {
        u32::MAX
    } else {
        (disk_sectors - 1) as u32
    }
}

/// The protective partition record (16 bytes).
pub open spec fn protective_record(disk_sectors: u64) -> Seq<u8> {
    seq![0x00u8, 0x00u8, 0x02u8, 0x00u8, 0xEEu8, 0xFFu8, 0xFFu8, 0xFFu8] + spec_u32_to_le_bytes(1)
        + spec_u32_to_le_bytes(protective_size(disk_sectors))
}

/// The protective MBR sector.
pub open spec fn protective_image(disk_sectors: u64, sector_size: nat) -> Seq<u8> {
    zeros(446) + protective_record(disk_sectors) + zeros(48) + seq![0x55u8, 0xAAu8] + zeros(
        (sector_size - 512) as nat,
    )
}

/// Type byte of record `i` (0..4) of an MBR sector.
pub open spec fn record_type(s: Seq<u8>, i: int) -> u8 {
    s[446 + i * 16 + 4]
}

pub open spec fn has_boot_signature(s: Seq<u8>) -> bool {
    s.len() >= 512 && s[510] == 0x55 && s[511] == 0xAA
}

pub open spec fn spec_is_protective(s: Seq<u8>) -> bool {
    has_boot_signature(s) && exists|i: int| 0 <= i < 4 && #[trigger] record_type(s, i) == PROTECTIVE_TYPE
}

pub open spec fn spec_is_real_mbr(s: Seq<u8>) -> bool {
    has_boot_signature(s) && exists|i: int|
        0 <= i < 4 && #[trigger] record_type(s, i) != 0 && record_type(s, i) != PROTECTIVE_TYPE
}

/// Build the protective MBR sector.
pub fn protective(disk_sectors: u64, sector_size: usize) -> (s: Vec<u8>)
    requires
        sector_size >= 512,
    ensures
        s@ == protective_image(disk_sectors, sector_size as nat),
{
    let mut s = crate::bytes::zeroed(sector_size);
    let size: u32 = if disk_sectors == 0 {
        0
    } else if disk_sectors - 1 > 0xFFFF_FFFF {
        0xFFFF_FFFF
    } else {
        (disk_sectors - 1) as u32
    };
    let mut rec: Vec<u8> = vec![0x00u8, 0x00u8, 0x02u8, 0x00u8, PROTECTIVE_TYPE, 0xFFu8, 0xFFu8, 0xFFu8];
    let mut one = u32_to_le_bytes(1);
    rec.append(&mut one);
    let mut sz = u32_to_le_bytes(size);
    rec.append(&mut sz);
    assert(rec@ =~= protective_record(disk_sectors));
    write_at(&mut s, 446, rec.as_slice());
    s.set(510, 0x55);
    s.set(511, 0xAA);
    assert(s@ =~= protective_image(disk_sectors, sector_size as nat));
    s
}

/// Does this sector look like a protective MBR — the boot signature plus a
/// `0xEE` partition record?
pub fn is_protective(sector: &[u8]) -> (r: bool)
    ensures
        r == spec_is_protective(sector@),
{
    if sector.len() < 512 || sector[510] != 0x55 || sector[511] != 0xAA {
        return false;
    }
    let mut i: usize = 0;
    while i < 4
        invariant
            0 <= i <= 4,
            has_boot_signature(sector@),
            forall|j: int| 0 <= j < i ==> #[trigger] record_type(sector@, j) != PROTECTIVE_TYPE,
        decreases 4 - i,
    {
        if sector[446 + i * 16 + 4] == PROTECTIVE_TYPE {
            assert(record_type(sector@, i as int) == PROTECTIVE_TYPE);
            return true;
        }
        i += 1;
    }
    false
}

/// Does this sector carry a real MBR — a boot signature and at least one
/// non-empty record that is not the protective marker?
pub fn is_real_mbr(sector: &[u8]) -> (r: bool)
    ensures
        r == spec_is_real_mbr(sector@),
{
    if sector.len() < 512 || sector[510] != 0x55 || sector[511] != 0xAA {
        return false;
    }
    let mut i: usize = 0;
    while i < 4
        invariant
            0 <= i <= 4,
            has_boot_signature(sector@),
            forall|j: int|
                0 <= j < i ==> #[trigger] record_type(sector@, j) == 0 || record_type(sector@, j)
                    == PROTECTIVE_TYPE,
        decreases 4 - i,
    {
        let t = sector[446 + i * 16 + 4];
        if t != 0x00 && t != PROTECTIVE_TYPE {
            assert(record_type(sector@, i as int) == t);
            return true;
        }
        i += 1;
    }
    false
}

/// A protective MBR is recognised as one, and not as a real MBR.
pub proof fn lemma_protective_is_recognised(disk_sectors: u64, sector_size: nat)
    requires
        sector_size >= 512,
    ensures
        spec_is_protective(protective_image(disk_sectors, sector_size)),
        !spec_is_real_mbr(protective_image(disk_sectors, sector_size)),
{
    let s = protective_image(disk_sectors, sector_size);
    let r = protective_record(disk_sectors);
    vstd::bytes::lemma_auto_spec_u32_to_from_le_bytes();
    assert(r.len() == 16);
    assert(s.len() == sector_size);
    assert(s[510] == 0x55 && s[511] == 0xAA);
    assert(s[450] == r[4]);
    assert(record_type(s, 0) == PROTECTIVE_TYPE);
    assert(s[466] == 0 && s[482] == 0 && s[498] == 0);
    assert forall|i: int| 0 <= i < 4 implies #[trigger] record_type(s, i) == 0 || record_type(s, i)
        == PROTECTIVE_TYPE by {
        if i == 1 {
            assert(record_type(s, i) == s[466]);
        } else if i == 2 {
            assert(record_type(s, i) == s[482]);
        } else if i == 3 {
            assert(record_type(s, i) == s[498]);
        }
    }
}

} // verus!
