//! A GPT as a value: build it, mutate it, serialise it.
//!
//! Nothing here touches a device. The whole table is assembled in memory and
//! handed to the device layer as a list of (LBA, bytes) writes.
//!
//! ```text
//!   LBA 0                     protective MBR
//!   LBA 1                     primary header
//!   LBA 2 .. 2+E-1            primary entry array      (E = ceil(16384/sector))
//!   first_usable = 2+E        partitions live here
//!   last_usable = L-E-1
//!   LBA L-E .. L-1            backup entry array
//!   LBA L                     backup header            (L = disk_sectors-1)
//! ```
use crate::bytes::{write_at, zeros};
use crate::part::entry::{entry_decodes, entry_image, validate_name, GptEntry};
use crate::part::error::{PartError, Result};
use crate::part::guid::Guid;
use crate::part::header::{
    crc32, crc32_iso_hdlc, header_decodes, header_fault, hex32, GptHeader, ENTRY_SIZE, NUM_ENTRIES,
};
use crate::part::mbr;
use crate::text::{decimal, extend_chars, extend_str, string_from_chars, u64_decimal};
use vstd::prelude::*;

verus! {

broadcast use vstd::array::group_array_axioms;

/// Partition alignment, in bytes: 1 MiB.
pub const ALIGN_BYTES: u64 = 1024 * 1024;

/// A parsed or freshly built GPT. The array geometry and usable range are
/// carried, not recomputed, so a table with more than 128 entries keeps them.
#[derive(Clone, Debug, PartialEq, Eq)]
pub struct Gpt {
    pub sector_size: usize,
    pub disk_sectors: u64,
    pub disk_guid: Guid,
    pub num_entries: u32,
    pub entry_size: u32,
    pub entry_array_lba: u64,
    pub first_usable_lba: u64,
    pub last_usable_lba: u64,
    /// Always `num_entries` long; unused slots are `GptEntry::default()`.
    pub entries: Vec<GptEntry>,
}

/// An inclusive run of unallocated sectors, with `start` already aligned.
#[derive(Clone, Copy, Debug, PartialEq, Eq)]
pub struct FreeExtent {
    pub start: u64,
    pub end: u64,
}

/// `ceil(a / b)`.
pub open spec fn div_ceil(a: int, b: int) -> int {
    (a + b - 1) / b
}

/// `v` rounded up to a multiple of `align`.
pub open spec fn align_up(v: int, align: int) -> int {
    div_ceil(v, align) * align
}

/// `e + 1`, saturating at `u64::MAX`.
pub open spec fn succ_sat(e: u64) -> int {
    if e == u64::MAX {
        u64::MAX as int
    } else {
        e + 1
    }
}

pub open spec fn spec_array_sectors(num_entries: u32, entry_size: u32, sector_size: usize) -> int {
    div_ceil(num_entries * entry_size, sector_size as int)
}

pub open spec fn spec_align_sectors(sector_size: usize) -> int {
    if (ALIGN_BYTES as int) / (sector_size as int) >= 1 {
        (ALIGN_BYTES as int) / (sector_size as int)
    } else {
        1
    }
}

pub open spec fn spec_minimum_sectors(sector_size: usize) -> int {
    3 + 2 * spec_array_sectors(128, 128, sector_size) + spec_align_sectors(sector_size)
}

/// `n` is a power of two.
pub open spec fn is_pow2(n: nat) -> bool
    decreases n,
{
    if n == 0 {
        false
    } else if n == 1 {
        true
    } else {
        n % 2 == 0 && is_pow2(n / 2)
    }
}

fn is_power_of_two(n: usize) -> (r: bool)
    ensures
        r == is_pow2(n as nat),
{
    let mut m = n;
    while m > 1
        invariant
            is_pow2(n as nat) == is_pow2(m as nat),
        decreases m,
    {
        if m % 2 != 0 {
            return false;
        }
        m = m / 2;
    }
    m == 1
}

impl FreeExtent {
    pub open spec fn spec_sectors(&self) -> int {
        if self.end >= self.start {
            self.end - self.start + 1
        } else {
            1
        }
    }

    /// Length in sectors (one, for an extent whose end precedes its start).
    pub fn sectors(&self) -> (r: u64)
        requires
            self.spec_sectors() <= u64::MAX,
        ensures
            r == self.spec_sectors(),
    {
        let d = if self.end >= self.start {
            self.end - self.start
        } else {
            0
        };
        d + 1
    }
}

impl Gpt {
    pub open spec fn spec_last_lba(&self) -> int {
        self.disk_sectors - 1
    }

    pub open spec fn spec_array_sectors_of(&self) -> int {
        spec_array_sectors(self.num_entries, self.entry_size, self.sector_size)
    }

    pub open spec fn spec_backup_entries_lba(&self) -> int {
        self.spec_last_lba() - self.spec_array_sectors_of()
    }

    /// The facts every table `create` and `parse` produce keep, which the
    /// serialisers rely on.
    pub open spec fn wf(&self) -> bool {
        &&& self.sector_size >= 512
        &&& self.disk_sectors >= 1
        &&& self.entries@.len() == self.num_entries
        &&& self.entry_size >= 128
        &&& self.entry_size % 8 == 0
        &&& self.spec_backup_entries_lba() >= 0
        &&& self.num_entries * self.entry_size <= usize::MAX
        &&& self.spec_array_sectors_of() * self.sector_size <= usize::MAX
        &&& forall|i: int| 0 <= i < self.entries@.len() ==> #[trigger] self.entries@[i].type_guid.0@.len() == 16
    }

    pub open spec fn spec_align(&self) -> int {
        spec_align_sectors(self.sector_size)
    }

    /// A used entry that lies inside the usable range, ends no earlier than
    /// it starts, and starts on an alignment boundary.
    pub open spec fn entry_healthy(&self, e: GptEntry) -> bool {
        &&& e.starting_lba >= self.first_usable_lba
        &&& e.ending_lba <= self.last_usable_lba
        &&& e.ending_lba >= e.starting_lba
        &&& (e.starting_lba as int) % self.spec_align() == 0
    }

    /// No two used entries overlap.
    pub open spec fn no_overlaps(&self) -> bool {
        forall|i: int, j: int|
            0 <= i < j < self.entries@.len() && self.entries@[i].spec_is_used()
                && self.entries@[j].spec_is_used() ==> !(#[trigger] self.entries@[i]).spec_overlaps(
                (#[trigger] self.entries@[j]).starting_lba,
                self.entries@[j].ending_lba,
            )
    }

    /// What `problems` checks: every used entry healthy, none overlapping.
    pub open spec fn healthy(&self) -> bool {
        &&& forall|i: int|
            0 <= i < self.entries@.len() && (#[trigger] self.entries@[i]).spec_is_used()
                ==> self.entry_healthy(self.entries@[i])
        &&& self.no_overlaps()
    }

    /// Sectors occupied by one copy of the default (128 x 128) entry array.
    pub fn entry_array_sectors(sector_size: usize) -> (r: u64)
        requires
            sector_size > 0,
        ensures
            r == spec_array_sectors(128, 128, sector_size),
    {
        Self::array_sectors_for(NUM_ENTRIES, ENTRY_SIZE, sector_size)
    }

    /// Sectors occupied by one copy of this table's entry array.
    pub fn array_sectors(&self) -> (r: u64)
        requires
            self.sector_size > 0,
        ensures
            r == self.spec_array_sectors_of(),
    {
        Self::array_sectors_for(self.num_entries, self.entry_size, self.sector_size)
    }

    pub fn array_sectors_for(num_entries: u32, entry_size: u32, sector_size: usize) -> (r: u64)
        requires
            sector_size > 0,
        ensures
            r == spec_array_sectors(num_entries, entry_size, sector_size),
    {
        assert((num_entries as int) * (entry_size as int) <= 0xFFFF_FFFF_FFFF_FFFF)
            by (nonlinear_arith)
            requires
                num_entries <= 0xFFFF_FFFF,
                entry_size <= 0xFFFF_FFFF,
        ;
        let total = (num_entries as u64) * (entry_size as u64);
        let ss = sector_size as u64;
        let q = total / ss;
        if total % ss == 0 {
            assert(div_ceil(total as int, ss as int) == q) by (nonlinear_arith)
                requires
                    ss > 0,
                    total % ss == 0,
                    q == total / ss,
            ;
            q
        } else {
            assert(div_ceil(total as int, ss as int) == q + 1) by (nonlinear_arith)
                requires
                    ss > 0,
                    total % ss != 0,
                    q == total / ss,
            ;
            assert(q < 0xFFFF_FFFF_FFFF_FFFF) by (nonlinear_arith)
                requires
                    ss > 0,
                    q == total / ss,
                    total % ss != 0,
            ;
            q + 1
        }
    }

    /// The smallest disk that can hold a GPT with room for one aligned partition.
    pub fn minimum_sectors(sector_size: usize) -> (r: u64)
        requires
            sector_size > 0,
        ensures
            r == spec_minimum_sectors(sector_size),
    {
        let e = Self::entry_array_sectors(sector_size);
        assert(e <= 16384) by (nonlinear_arith)
            requires
                e == div_ceil(128 * 128int, sector_size as int),
                sector_size >= 1,
        ;
        3 + 2 * e + Self::align_sectors(sector_size)
    }

    /// Alignment in sectors, never zero even if a sector exceeds 1 MiB.
    pub fn align_sectors(sector_size: usize) -> (r: u64)
        requires
            sector_size > 0,
        ensures
            r == spec_align_sectors(sector_size),
            1 <= r <= ALIGN_BYTES,
    {
        let a = ALIGN_BYTES / (sector_size as u64);
        assert(a <= ALIGN_BYTES) by (nonlinear_arith)
            requires
                a == (ALIGN_BYTES as int) / (sector_size as int),
                sector_size >= 1,
        ;
        if a >= 1 {
            a
        } else {
            1
        }
    }

    pub fn first_usable(&self) -> (r: u64)
        ensures
            r == self.first_usable_lba,
    {
        self.first_usable_lba
    }

    pub fn last_usable(&self) -> (r: u64)
        ensures
            r == self.last_usable_lba,
    {
        self.last_usable_lba
    }

    pub fn last_lba(&self) -> (r: u64)
        requires
            self.disk_sectors >= 1,
        ensures
            r == self.spec_last_lba(),
    {
        self.disk_sectors - 1
    }

    pub fn backup_entries_lba(&self) -> (r: u64)
        requires
            self.disk_sectors >= 1,
            self.sector_size > 0,
            self.spec_backup_entries_lba() >= 0,
        ensures
            r == self.spec_backup_entries_lba(),
    {
        self.last_lba() - self.array_sectors()
    }

    /// A fresh, empty table.
    pub fn create(disk_sectors: u64, sector_size: usize) -> (r: Result<Gpt>)
        ensures
            !(is_pow2(sector_size as nat) && 512 <= sector_size <= 65536) ==> (r matches Err(
                PartError::Usage(m),
            ) && m@ == "implausible logical sector size "@ + decimal(sector_size as nat)),
            is_pow2(sector_size as nat) && 512 <= sector_size <= 65536 && disk_sectors
                < spec_minimum_sectors(sector_size) ==> (r matches Err(PartError::Usage(m)) && m@
                == "disk is "@ + decimal(disk_sectors as nat)
                + " sectors; a GPT with usable space needs at least "@ + decimal(
                spec_minimum_sectors(sector_size) as nat,
            )),
            is_pow2(sector_size as nat) && 512 <= sector_size <= 65536 && disk_sectors
                >= spec_minimum_sectors(sector_size) ==> (r matches Ok(g) && g.wf() && g.sector_size
                == sector_size && g.disk_sectors == disk_sectors && g.num_entries == 128
                && g.entry_size == 128 && g.entry_array_lba == 2 && g.first_usable_lba == 2
                + spec_array_sectors(128, 128, sector_size) && g.last_usable_lba == disk_sectors - 2
                - spec_array_sectors(128, 128, sector_size) && (forall|i: int|
                0 <= i < 128 ==> !(#[trigger] g.entries@[i]).spec_is_used()) && g.healthy()),
    {
        if !is_power_of_two(sector_size) || !(512 <= sector_size && sector_size <= 65536) {
            let mut v: Vec<char> = Vec::new();
            extend_str(&mut v, "implausible logical sector size ");
            let d = u64_decimal(sector_size as u64);
            extend_chars(&mut v, &d);
            return Err(PartError::Usage(string_from_chars(&v)));
        }
        let min = Self::minimum_sectors(sector_size);
        if disk_sectors < min {
            let mut v: Vec<char> = Vec::new();
            extend_str(&mut v, "disk is ");
            let d = u64_decimal(disk_sectors);
            extend_chars(&mut v, &d);
            extend_str(&mut v, " sectors; a GPT with usable space needs at least ");
            let m = u64_decimal(min);
            extend_chars(&mut v, &m);
            return Err(PartError::Usage(string_from_chars(&v)));
        }
        let array = Self::entry_array_sectors(sector_size);
        assert(array <= 32) by (nonlinear_arith)
            requires
                array == div_ceil(128 * 128int, sector_size as int),
                sector_size >= 512,
        ;
        let mut entries: Vec<GptEntry> = Vec::new();
        let mut i: usize = 0;
        while i < 128
            invariant
                0 <= i <= 128,
                entries@.len() == i,
                forall|j: int|
                    0 <= j < i ==> (#[trigger] entries@[j]).type_guid.0@ == zeros(16)
                        && entries@[j].unique_guid.0@ == zeros(16),
            decreases 128 - i,
        {
            entries.push(GptEntry::default());
            i += 1;
        }
        let g = Gpt {
            sector_size,
            disk_sectors,
            disk_guid: Guid::random(),
            num_entries: NUM_ENTRIES,
            entry_size: ENTRY_SIZE,
            entry_array_lba: 2,
            first_usable_lba: 2 + array,
            last_usable_lba: disk_sectors - 1 - array - 1,
            entries,
        };
        proof {
            assert forall|j: int| 0 <= j < 128 implies !(#[trigger] g.entries@[j]).spec_is_used() by {
                assert(g.entries@[j].type_guid.0@[0] == 0);
                assert(g.entries@[j].type_guid.spec_is_zero());
            }
            assert(spec_array_sectors(128, 128, sector_size) * sector_size <= 32 * 65536)
                by (nonlinear_arith)
                requires
                    spec_array_sectors(128, 128, sector_size) <= 32,
                    sector_size <= 65536,
            ;
        }
        Ok(g)
    }
}

/// One entry's stride of the array: its image, then reserved zeros.
pub open spec fn entry_chunk(e: GptEntry, stride: nat) -> Seq<u8> {
    entry_image(e) + zeros((stride - 128) as nat)
}

/// The chunks of `es`, one after another.
pub open spec fn chunks(es: Seq<GptEntry>, stride: nat) -> Seq<u8>
    decreases es.len(),
{
    if es.len() == 0 {
        Seq::empty()
    } else {
        chunks(es.drop_last(), stride) + entry_chunk(es.last(), stride)
    }
}

pub proof fn lemma_chunks(es: Seq<GptEntry>, stride: nat)
    requires
        stride >= 128,
        forall|i: int| 0 <= i < es.len() ==> (#[trigger] es[i]).type_guid.0@.len() == 16
            && es[i].unique_guid.0@.len() == 16,
    ensures
        chunks(es, stride).len() == es.len() * stride,
        forall|i: int|
            0 <= i < es.len() ==> #[trigger] chunks(es, stride).subrange(i * stride, i * stride + 128)
                == entry_image(es[i]),
    decreases es.len(),
{
    if es.len() > 0 {
        let init = es.drop_last();
        lemma_chunks(init, stride);
        lemma_entry_image_len(es.last());
        let c = chunks(es, stride);
        assert(c.len() == es.len() * stride) by (nonlinear_arith)
            requires
                c.len() == init.len() * stride + stride,
                init.len() == es.len() - 1,
        ;
        assert forall|i: int| 0 <= i < es.len() implies #[trigger] c.subrange(
            i * stride,
            i * stride + 128,
        ) == entry_image(es[i]) by {
            if i < init.len() {
                assert(i * stride + 128 <= init.len() * stride) by (nonlinear_arith)
                    requires
                        i < init.len(),
                        stride >= 128,
                ;
                assert(c.subrange(i * stride, i * stride + 128) =~= chunks(init, stride).subrange(
                    i * stride,
                    i * stride + 128,
                ));
                assert(init[i] == es[i]);
            } else {
                assert(i * stride == init.len() * stride);
                assert(c.subrange(i * stride, i * stride + 128) =~= entry_image(es.last()));
            }
        }
    }
}

pub proof fn lemma_entry_image_len(e: GptEntry)
    requires
        e.type_guid.0@.len() == 16,
        e.unique_guid.0@.len() == 16,
    ensures
        entry_image(e).len() == 128,
{
    vstd::bytes::lemma_auto_spec_u64_to_from_le_bytes();
    let u = crate::part::entry::name_units(e.name@);
    crate::bytes::lemma_units_le(u);
    assert(u.len() <= 36);
}

impl Gpt {
    /// The entries the array holds: the first `num_entries` of them.
    pub open spec fn stored_entries(&self) -> Seq<GptEntry> {
        if self.entries@.len() <= self.num_entries {
            self.entries@
        } else {
            self.entries@.take(self.num_entries as int)
        }
    }

    /// The entry array, zero-padded to `num_entries * entry_size` bytes.
    pub open spec fn array_image(&self) -> Seq<u8> {
        chunks(self.stored_entries(), self.entry_size as nat) + zeros(
            ((self.num_entries - self.stored_entries().len()) * self.entry_size) as nat,
        )
    }

    /// The array as written: padded with zeros to a whole number of sectors.
    pub open spec fn padded_array(&self) -> Seq<u8> {
        self.array_image() + zeros(
            (self.spec_array_sectors_of() * self.sector_size - self.array_image().len()) as nat,
        )
    }

    /// The header this table writes, primary or backup.
    pub open spec fn header_spec(&self, primary: bool, entries_crc: u32) -> GptHeader {
        GptHeader {
            my_lba: if primary {
                1
            } else {
                self.spec_last_lba() as u64
            },
            alternate_lba: if primary {
                self.spec_last_lba() as u64
            } else {
                1
            },
            first_usable_lba: self.first_usable_lba,
            last_usable_lba: self.last_usable_lba,
            disk_guid: self.disk_guid,
            entry_array_lba: if primary {
                self.entry_array_lba
            } else {
                self.spec_backup_entries_lba() as u64
            },
            num_entries: self.num_entries,
            entry_size: self.entry_size,
            entries_crc32: entries_crc,
        }
    }

    /// Serialise the entry array, zero-padded to its full size.
    fn entry_array(&self) -> (out: Vec<u8>)
        requires
            self.wf(),
        ensures
            out@ == self.array_image(),
    {
        let stride = self.entry_size as usize;
        let n = if self.entries.len() <= self.num_entries as usize {
            self.entries.len()
        } else {
            self.num_entries as usize
        };
        let mut out: Vec<u8> = Vec::new();
        let mut i: usize = 0;
        proof {
            assert(self.stored_entries().len() == n);
        }
        while i < n
            invariant
                self.wf(),
                stride == self.entry_size,
                n == self.stored_entries().len(),
                n <= self.num_entries,
                n <= self.entries@.len(),
                0 <= i <= n,
                out@ == chunks(self.stored_entries().take(i as int), stride as nat),
                out@.len() == i * stride,
            decreases n - i,
        {
            let b = self.entries[i].to_bytes();
            let mut k: usize = 0;
            let ghost before = out@;
            proof {
                lemma_entry_image_len(self.entries@[i as int]);
            }
            while k < 128
                invariant
                    0 <= k <= 128,
                    b@ == entry_image(self.entries@[i as int]),
                    b@.len() == 128,
                    out@ == before + b@.take(k as int),
                decreases 128 - k,
            {
                out.push(b[k]);
                k += 1;
                assert(out@ =~= before + b@.take(k as int));
            }
            let mut k: usize = 128;
            let ghost mid = out@;
            while k < stride
                invariant
                    128 <= k <= stride,
                    out@ == mid + zeros((k - 128) as nat),
                decreases stride - k,
            {
                out.push(0u8);
                k += 1;
                assert(out@ =~= mid + zeros((k - 128) as nat));
            }
            proof {
                assert(b@.take(128) =~= b@);
                let es = self.stored_entries();
                assert(es.take(i + 1).drop_last() =~= es.take(i as int));
                assert(es[i as int] == self.entries@[i as int]);
                assert(out@ =~= chunks(es.take(i + 1), stride as nat));
                assert(out@.len() == (i + 1) * stride) by (nonlinear_arith)
                    requires
                        out@.len() == i * stride + stride,
                ;
            }
            i += 1;
        }
        let total = (self.num_entries as usize) * stride;
        let ghost full = out@;
        proof {
            assert(self.stored_entries().take(n as int) =~= self.stored_entries());
            assert(n * stride <= self.num_entries * stride) by (nonlinear_arith)
                requires
                    n <= self.num_entries,
            ;
        }
        while out.len() < total
            invariant
                out@.len() <= total,
                out@.len() >= full.len(),
                out@ == full + zeros((out@.len() - full.len()) as nat),
            decreases total - out@.len(),
        {
            out.push(0u8);
            assert(out@ =~= full + zeros((out@.len() - full.len()) as nat));
        }
        proof {
            assert((self.num_entries - n) * stride == total - n * stride) by (nonlinear_arith)
                requires
                    total == self.num_entries * stride,
            ;
        }
        out
    }

    fn header_for(&self, primary: bool, entries_crc: u32) -> (h: GptHeader)
        requires
            self.wf(),
        ensures
            h == self.header_spec(primary, entries_crc),
    {
        GptHeader {
            my_lba: if primary {
                1
            } else {
                self.last_lba()
            },
            alternate_lba: if primary {
                self.last_lba()
            } else {
                1
            },
            first_usable_lba: self.first_usable_lba,
            last_usable_lba: self.last_usable_lba,
            disk_guid: self.disk_guid,
            entry_array_lba: if primary {
                self.entry_array_lba
            } else {
                self.backup_entries_lba()
            },
            num_entries: self.num_entries,
            entry_size: self.entry_size,
            entries_crc32: entries_crc,
        }
    }

    /// The writes that commit this table: protective MBR, primary array,
    /// backup array, primary header, backup header.
    pub open spec fn planned_writes(&self, w: Seq<(u64, Vec<u8>)>) -> bool {
        &&& w.len() == 5
        &&& w[0].0 == 0 && w[0].1@ == mbr::protective_image(self.disk_sectors, self.sector_size as nat)
        &&& w[1].0 == self.entry_array_lba && w[1].1@ == self.padded_array()
        &&& w[2].0 == self.spec_backup_entries_lba() && w[2].1@ == self.padded_array()
        &&& w[3].0 == 1 && w[3].1@ == crate::part::header::header_sector(
            self.header_spec(true, crc32_iso_hdlc(self.array_image())),
            self.sector_size as nat,
        )
        &&& w[4].0 == self.spec_last_lba() && w[4].1@ == crate::part::header::header_sector(
            self.header_spec(false, crc32_iso_hdlc(self.array_image())),
            self.sector_size as nat,
        )
    }

    /// The complete set of writes, in the order they must be issued: the
    /// protective MBR, both entry arrays, then both headers — so the disk never
    /// holds a valid header pointing at an entry array that was not written.
    pub fn writes(&self) -> (w: Vec<(u64, Vec<u8>)>)
        requires
            self.wf(),
        ensures
            self.planned_writes(w@),
            w@.len() == 5,
            w@[0].0 == 0 && w@[0].1@ == mbr::protective_image(
                self.disk_sectors,
                self.sector_size as nat,
            ),
            w@[1].0 == self.entry_array_lba && w@[1].1@ == self.padded_array(),
            w@[2].0 == self.spec_backup_entries_lba() && w@[2].1@ == self.padded_array(),
            w@[3].0 == 1 && w@[3].1@ == crate::part::header::header_sector(
                self.header_spec(true, crc32_iso_hdlc(self.array_image())),
                self.sector_size as nat,
            ),
            w@[4].0 == self.spec_last_lba() && w@[4].1@ == crate::part::header::header_sector(
                self.header_spec(false, crc32_iso_hdlc(self.array_image())),
                self.sector_size as nat,
            ),
    {
        let array = self.entry_array();
        let crc = crc32(array.as_slice());
        let nsec = self.array_sectors();
        assert(nsec <= usize::MAX) by (nonlinear_arith)
            requires
                nsec * self.sector_size <= usize::MAX,
                self.sector_size >= 1,
        ;
        let want = (nsec as usize) * self.sector_size;
        let mut padded = array;
        let ghost arr = padded@;
        proof {
            lemma_array_image_len(*self);
            assert(arr.len() <= want) by (nonlinear_arith)
                requires
                    arr.len() == self.num_entries * self.entry_size,
                    want == div_ceil(arr.len() as int, self.sector_size as int) * self.sector_size,
                    self.sector_size > 0,
            {
                let q = div_ceil(arr.len() as int, self.sector_size as int);
                assert(arr.len() <= q * self.sector_size);
            }
            lemma_array_image_len(*self);
        }
        while padded.len() < want
            invariant
                padded@.len() <= want,
                padded@.len() >= arr.len(),
                padded@ == arr + zeros((padded@.len() - arr.len()) as nat),
            decreases want - padded@.len(),
        {
            padded.push(0u8);
            assert(padded@ =~= arr + zeros((padded@.len() - arr.len()) as nat));
        }
        let copy = padded.clone();
        let mut w: Vec<(u64, Vec<u8>)> = Vec::new();
        w.push((0, mbr::protective(self.disk_sectors, self.sector_size)));
        w.push((self.entry_array_lba, copy));
        w.push((self.backup_entries_lba(), padded));
        w.push((1, self.header_for(true, crc).to_sector(self.sector_size)));
        w.push((self.last_lba(), self.header_for(false, crc).to_sector(self.sector_size)));
        w
    }
}

proof fn lemma_array_image_len(g: Gpt)
    requires
        g.wf(),
    ensures
        g.array_image().len() == g.num_entries * g.entry_size,
{
    let es = g.stored_entries();
    assert forall|i: int| 0 <= i < es.len() implies (#[trigger] es[i]).type_guid.0@.len() == 16
        && es[i].unique_guid.0@.len() == 16 by {
        assert(es[i] == g.entries@[i]);
        assert(g.entries@[i].type_guid.0@.len() == 16);
    }
    lemma_chunks(es, g.entry_size as nat);
    assert(es.len() <= g.num_entries);
    assert(es.len() * g.entry_size + (g.num_entries - es.len()) * g.entry_size == g.num_entries
        * g.entry_size) by (nonlinear_arith);
}

/// `num_entries * entry_size`, saturating at `usize::MAX`.
pub open spec fn wanted_bytes(num_entries: u32, entry_size: u32) -> int {
    if num_entries * entry_size > usize::MAX {
        usize::MAX as int
    } else {
        num_entries * entry_size
    }
}

/// The entry-array checks `Gpt::parse` makes once the header has parsed.
pub enum ArrayFault {
    Short,
    BadCrc(u32, u32),
}

pub open spec fn header_u32(b: Seq<u8>, at: int) -> u32 {
    vstd::bytes::spec_u32_from_le_bytes(b.subrange(at, at + 4))
}

pub open spec fn array_fault(hs: Seq<u8>, eb: Seq<u8>) -> Option<ArrayFault> {
    let want = wanted_bytes(header_u32(hs, 80), header_u32(hs, 84));
    if want > eb.len() {
        Some(ArrayFault::Short)
    } else if crc32_iso_hdlc(eb.take(want)) != header_u32(hs, 88) {
        Some(ArrayFault::BadCrc(header_u32(hs, 88), crc32_iso_hdlc(eb.take(want))))
    } else {
        None
    }
}

pub open spec fn array_fault_error(f: ArrayFault, e: PartError) -> bool {
    match f {
        ArrayFault::Short => e matches PartError::Damaged(m) && m@
            == "entry array is shorter than the header claims"@,
        ArrayFault::BadCrc(stored, actual) => e matches PartError::Damaged(m) && m@
            == "partition entry CRC mismatch (stored "@ + hex32(stored) + ", computed "@ + hex32(
            actual,
        ) + ")"@,
    }
}

impl Gpt {
    /// Does `self` hold the table that the header sector `hs` and entry bytes
    /// `eb` describe, on a disk of this size?
    pub open spec fn decodes(&self, disk_sectors: u64, sector_size: usize, hs: Seq<u8>, eb: Seq<u8>) -> bool {
        &&& self.sector_size == sector_size
        &&& self.disk_sectors == disk_sectors
        &&& self.disk_guid.0@ == hs.subrange(56, 72)
        &&& self.num_entries == header_u32(hs, 80)
        &&& self.entry_size == header_u32(hs, 84)
        &&& self.entry_array_lba == vstd::bytes::spec_u64_from_le_bytes(hs.subrange(72, 80))
        &&& self.first_usable_lba == vstd::bytes::spec_u64_from_le_bytes(hs.subrange(40, 48))
        &&& self.last_usable_lba == vstd::bytes::spec_u64_from_le_bytes(hs.subrange(48, 56))
        &&& self.entries@.len() == self.num_entries
        &&& forall|i: int|
            0 <= i < self.num_entries ==> entry_decodes(
                eb.subrange(i * self.entry_size, i * self.entry_size + self.entry_size),
                #[trigger] self.entries@[i],
            )
    }

    /// Rebuild from the bytes the device layer read: the primary header's
    /// sector and the primary entry array. The entry-array CRC is checked, so a
    /// table whose entries did not survive is reported as damaged.
    pub fn parse(disk_sectors: u64, sector_size: usize, header_sector: &[u8], entry_bytes: &[u8]) -> (r:
        Result<Gpt>)
        requires
            entry_bytes@.len() < usize::MAX,
        ensures
            header_fault(header_sector@) matches Some(f) ==> (r matches Err(e) && crate::part::header::fault_error(f, e)),
            header_fault(header_sector@) is None ==> (array_fault(header_sector@, entry_bytes@) matches Some(f)
                ==> (r matches Err(e) && array_fault_error(f, e))),
            header_fault(header_sector@) is None && array_fault(header_sector@, entry_bytes@) is None
                ==> (r matches Ok(g) && g.decodes(disk_sectors, sector_size, header_sector@, entry_bytes@)),
    {
        let h = match GptHeader::parse(header_sector) {
            Ok(h) => h,
            Err(e) => {
                return Err(e);
            },
        };
        proof {
            assert(header_sector@.subrange(80, 84) == header_sector@.subrange(80, 80 + 4int));
        }
        assert((h.num_entries as int) * (h.entry_size as int) <= 0xFFFF_FFFF_FFFF_FFFF)
            by (nonlinear_arith)
            requires
                h.num_entries <= 0xFFFF_FFFF,
                h.entry_size <= 0xFFFF_FFFF,
        ;
        let p: u128 = (h.num_entries as u128) * (h.entry_size as u128);
        let want: usize = if p > (usize::MAX as u128) {
            usize::MAX
        } else {
            p as usize
        };
        assert(want == wanted_bytes(h.num_entries, h.entry_size));
        if want > entry_bytes.len() {
            let m = crate::text::chars_of("entry array is shorter than the header claims");
            return Err(PartError::Damaged(string_from_chars(&m)));
        }
        assert(want as int == p);
        let array = &entry_bytes[0..want];
        assert(array@ =~= entry_bytes@.take(want as int));
        let actual = crc32(array);
        if actual != h.entries_crc32 {
            let mut v: Vec<char> = Vec::new();
            extend_str(&mut v, "partition entry CRC mismatch (stored ");
            let a = crate::part::header::hex32_text(h.entries_crc32);
            extend_chars(&mut v, &a);
            extend_str(&mut v, ", computed ");
            let b = crate::part::header::hex32_text(actual);
            extend_chars(&mut v, &b);
            extend_str(&mut v, ")");
            return Err(PartError::Damaged(string_from_chars(&v)));
        }
        let n = h.num_entries as usize;
        let sz = h.entry_size as usize;
        assert(n * sz == want) by {
            assert(p == (h.num_entries as int) * (h.entry_size as int));
            assert(want as int == p);
        }
        let mut entries: Vec<GptEntry> = Vec::new();
        let mut i: usize = 0;
        while i < n
            invariant
                0 <= i <= n,
                n * sz == want,
                want <= entry_bytes@.len(),
                array@ == entry_bytes@.take(want as int),
                sz >= 128,
                entries@.len() == i,
                forall|j: int|
                    0 <= j < i ==> entry_decodes(
                        entry_bytes@.subrange(j * sz, j * sz + sz),
                        #[trigger] entries@[j],
                    ),
            decreases n - i,
        {
            assert(i * sz + sz <= n * sz) by (nonlinear_arith)
                requires
                    i < n,
            ;
            let off = i * sz;
            let chunk = &array[off..off + sz];
            assert(chunk@ =~= entry_bytes@.subrange(off as int, off + sz));
            match GptEntry::parse(chunk) {
                Some(e) => {
                    entries.push(e);
                },
                None => {
                    let mut v: Vec<char> = Vec::new();
                    extend_str(&mut v, "entry ");
                    let d = u64_decimal((i as u64) + 1);
                    extend_chars(&mut v, &d);
                    extend_str(&mut v, " is malformed");
                    return Err(PartError::Damaged(string_from_chars(&v)));
                },
            }
            i += 1;
        }
        Ok(
            Gpt {
                sector_size,
                disk_sectors,
                disk_guid: h.disk_guid,
                num_entries: h.num_entries,
                entry_size: h.entry_size,
                entry_array_lba: h.entry_array_lba,
                first_usable_lba: h.first_usable_lba,
                last_usable_lba: h.last_usable_lba,
                entries,
            },
        )
    }
}

/// Two entries that hold the same bytes and name.
pub open spec fn same_entry(a: GptEntry, b: GptEntry) -> bool {
    &&& a.type_guid.0@ == b.type_guid.0@
    &&& a.unique_guid.0@ == b.unique_guid.0@
    &&& a.starting_lba == b.starting_lba
    &&& a.ending_lba == b.ending_lba
    &&& a.attributes == b.attributes
    &&& a.name@ == b.name@
}

/// Two tables that describe the same disk layout and the same partitions.
pub open spec fn same_table(a: Gpt, b: Gpt) -> bool {
    &&& a.sector_size == b.sector_size
    &&& a.disk_sectors == b.disk_sectors
    &&& a.disk_guid.0@ == b.disk_guid.0@
    &&& a.num_entries == b.num_entries
    &&& a.entry_size == b.entry_size
    &&& a.entry_array_lba == b.entry_array_lba
    &&& a.first_usable_lba == b.first_usable_lba
    &&& a.last_usable_lba == b.last_usable_lba
    &&& a.entries@.len() == b.entries@.len()
    &&& forall|i: int| 0 <= i < a.entries@.len() ==> same_entry(#[trigger] a.entries@[i], b.entries@[i])
}

/// Every name can be stored and read back: at most 36 UTF-16 units, no NUL.
pub open spec fn names_storable(g: Gpt) -> bool {
    forall|i: int|
        0 <= i < g.entries@.len() ==> crate::text::utf16((#[trigger] g.entries@[i]).name@).len() <= 36
            && (forall|k: int| 0 <= k < g.entries@[i].name@.len() ==> g.entries@[i].name@[k] != '\0')
}

proof fn lemma_entry_decodes_prefix(b: Seq<u8>, c: Seq<u8>, e: GptEntry)
    requires
        b.len() >= 128,
        c.len() >= 128,
        b.take(128) == c.take(128),
        entry_decodes(b, e),
    ensures
        entry_decodes(c, e),
{
    assert(b.subrange(0, 16) =~= c.subrange(0, 16)) by {
        assert(b.subrange(0, 16) =~= b.take(128).subrange(0, 16));
        assert(c.subrange(0, 16) =~= c.take(128).subrange(0, 16));
    }
    assert(b.subrange(16, 32) =~= b.take(128).subrange(16, 32));
    assert(c.subrange(16, 32) =~= c.take(128).subrange(16, 32));
    assert(b.subrange(32, 40) =~= b.take(128).subrange(32, 40));
    assert(c.subrange(32, 40) =~= c.take(128).subrange(32, 40));
    assert(b.subrange(40, 48) =~= b.take(128).subrange(40, 48));
    assert(c.subrange(40, 48) =~= c.take(128).subrange(40, 48));
    assert(b.subrange(48, 56) =~= b.take(128).subrange(48, 56));
    assert(c.subrange(48, 56) =~= c.take(128).subrange(48, 56));
    assert forall|i: int| 0 <= i < 36 implies #[trigger] crate::part::entry::stored_units(b)[i]
        == crate::part::entry::stored_units(c)[i] by {
        assert(b.subrange(56 + 2 * i, 58 + 2 * i) =~= b.take(128).subrange(56 + 2 * i, 58 + 2 * i));
        assert(c.subrange(56 + 2 * i, 58 + 2 * i) =~= c.take(128).subrange(56 + 2 * i, 58 + 2 * i));
        assert(b.subrange(56 + 2 * i, 58 + 2 * i) =~= c.subrange(56 + 2 * i, 58 + 2 * i));
    }
    assert(crate::part::entry::stored_units(b) =~= crate::part::entry::stored_units(c));
}

proof fn lemma_same_decoding(b: Seq<u8>, x: GptEntry, y: GptEntry)
    requires
        entry_decodes(b, x),
        entry_decodes(b, y),
    ensures
        same_entry(x, y),
{
}

/// Serialising a table and parsing back its primary header and entry array
/// gives the same table, whenever every name can be stored.
pub proof fn lemma_gpt_round_trip(g: Gpt, back: Gpt)
    requires
        g.wf(),
        names_storable(g),
        (g.sector_size as int) % 0x1_0000_0000 >= 92,
        back.decodes(
            g.disk_sectors,
            g.sector_size,
            crate::part::header::header_sector(
                g.header_spec(true, crc32_iso_hdlc(g.array_image())),
                g.sector_size as nat,
            ),
            g.padded_array(),
        ),
    ensures
        header_fault(
            crate::part::header::header_sector(
                g.header_spec(true, crc32_iso_hdlc(g.array_image())),
                g.sector_size as nat,
            ),
        ) is None,
        array_fault(
            crate::part::header::header_sector(
                g.header_spec(true, crc32_iso_hdlc(g.array_image())),
                g.sector_size as nat,
            ),
            g.padded_array(),
        ) is None,
        same_table(back, g),
{
    let crc = crc32_iso_hdlc(g.array_image());
    let hdr = g.header_spec(true, crc);
    let hs = crate::part::header::header_sector(hdr, g.sector_size as nat);
    let eb = g.padded_array();
    assert(hdr.disk_guid.0@.len() == 16);
    crate::part::header::lemma_header_round_trip(hdr, g.sector_size as nat);
    assert(hs.subrange(80, 84) == hs.subrange(80, 80 + 4int));
    assert(hs.subrange(84, 88) == hs.subrange(84, 84 + 4int));
    assert(hs.subrange(88, 92) == hs.subrange(88, 88 + 4int));
    lemma_array_image_len(g);
    let want = g.num_entries * g.entry_size;
    assert(wanted_bytes(g.num_entries, g.entry_size) == want);
    assert(eb.take(want) =~= g.array_image());
    let es = g.stored_entries();
    assert(es =~= g.entries@);
    assert forall|i: int| 0 <= i < es.len() implies (#[trigger] es[i]).type_guid.0@.len() == 16
        && es[i].unique_guid.0@.len() == 16 by {
        assert(es[i] == g.entries@[i]);
    }
    lemma_chunks(es, g.entry_size as nat);
    let sz = g.entry_size as int;
    assert forall|i: int| 0 <= i < g.entries@.len() implies same_entry(
        #[trigger] back.entries@[i],
        g.entries@[i],
    ) by {
        let e = g.entries@[i];
        assert(es[i] == e);
        assert(i * sz + sz <= g.num_entries * sz) by (nonlinear_arith)
            requires
                0 <= i < g.num_entries,
                sz >= 0,
        ;
        let chunk = eb.subrange(i * sz, i * sz + sz);
        let img = entry_image(e);
        lemma_entry_image_len(e);
        assert(chunks(es, sz as nat).subrange(i * sz, i * sz + 128) == img);
        assert(chunk.take(128) =~= img.take(128)) by {
            assert forall|k: int| 0 <= k < 128 implies chunk[k] == img[k] by {
                assert(chunk[k] == eb[i * sz + k]);
                assert(eb[i * sz + k] == g.array_image()[i * sz + k]);
                assert(g.array_image()[i * sz + k] == chunks(es, sz as nat)[i * sz + k]);
                assert(chunks(es, sz as nat).subrange(i * sz, i * sz + 128)[k] == chunks(
                    es,
                    sz as nat,
                )[i * sz + k]);
            }
        }
        crate::part::entry::lemma_entry_round_trip(e);
        lemma_entry_decodes_prefix(img, chunk, e);
        assert(entry_decodes(chunk, back.entries@[i]));
        lemma_same_decoding(chunk, back.entries@[i], e);
    }
}

/// What `writes` plans reads back: both arrays are the same bytes, and each
/// header sector parses without fault to the header it was made from, the
/// primary at LBA 1 pointing at the backup on the last LBA and back, both
/// carrying the CRC of the entry array.
pub proof fn lemma_writes_read_back(g: Gpt, w: Seq<(u64, Vec<u8>)>)
    requires
        g.wf(),
        (g.sector_size as int) % 0x1_0000_0000 >= 92,
        g.planned_writes(w),
    ensures
        w[1].1@ == w[2].1@,
        header_fault(w[3].1@) is None,
        header_fault(w[4].1@) is None,
        header_decodes(w[3].1@, g.header_spec(true, crc32_iso_hdlc(g.array_image()))),
        header_decodes(w[4].1@, g.header_spec(false, crc32_iso_hdlc(g.array_image()))),
        g.header_spec(true, crc32_iso_hdlc(g.array_image())).my_lba == 1,
        g.header_spec(true, crc32_iso_hdlc(g.array_image())).alternate_lba == w[4].0,
        g.header_spec(false, crc32_iso_hdlc(g.array_image())).my_lba == w[4].0,
        g.header_spec(false, crc32_iso_hdlc(g.array_image())).alternate_lba == 1,
{
    let c = crc32_iso_hdlc(g.array_image());
    assert(g.disk_guid.0@.len() == 16);
    crate::part::header::lemma_header_round_trip(g.header_spec(true, c), g.sector_size as nat);
    crate::part::header::lemma_header_round_trip(g.header_spec(false, c), g.sector_size as nat);
}

/// The primary header sector a table writes.
pub open spec fn primary_sector(g: Gpt) -> Seq<u8> {
    crate::part::header::header_sector(g.header_spec(true, crc32_iso_hdlc(g.array_image())), g.sector_size as nat)
}

/// A written entry array with any one of its entry bytes changed is caught
/// by the entry CRC, and one shorter than the entries it should hold is
/// refused as short: `parse` answers either with `Damaged`.
pub proof fn lemma_corrupted_array_is_caught(g: Gpt, k: int, v: u8, short: Seq<u8>)
    requires
        g.wf(),
        (g.sector_size as int) % 0x1_0000_0000 >= 92,
        0 <= k < g.num_entries * g.entry_size,
        v != g.padded_array()[k],
        short.len() < g.num_entries * g.entry_size,
    ensures
        header_fault(primary_sector(g)) is None,
        array_fault(primary_sector(g), g.padded_array().update(k, v)) matches Some(ArrayFault::BadCrc(_, _)),
        array_fault(primary_sector(g), short) matches Some(ArrayFault::Short),
{
    let c = crc32_iso_hdlc(g.array_image());
    let h = g.header_spec(true, c);
    let hs = primary_sector(g);
    assert(g.disk_guid.0@.len() == 16);
    crate::part::header::lemma_header_round_trip(h, g.sector_size as nat);
    assert(header_u32(hs, 80) == g.num_entries);
    assert(header_u32(hs, 84) == g.entry_size);
    assert(header_u32(hs, 88) == c);
    let n = g.num_entries * g.entry_size;
    assert(wanted_bytes(g.num_entries, g.entry_size) == n);
    lemma_array_image_len(g);
    let img = g.array_image();
    let pad = g.padded_array();
    assert(pad.len() >= n);
    assert(pad[k] == img[k]);
    assert(pad.update(k, v).take(n) =~= img.update(k, v));
    crate::part::header::lemma_crc_detects_byte_change(img, k, v);
}

// --------------------------------------------------------------------------
// Free space.

/// Lexicographic order on `(start, end)` pairs, as `sort_unstable` uses.
pub open spec fn pair_le(a: (u64, u64), b: (u64, u64)) -> bool {
    a.0 < b.0 || (a.0 == b.0 && a.1 <= b.1)
}

/// Insert `x` before the first element it does not exceed.
pub open spec fn insert_sorted(x: (u64, u64), s: Seq<(u64, u64)>) -> Seq<(u64, u64)>
    decreases s.len(),
{
    if s.len() == 0 {
        seq![x]
    } else if pair_le(x, s[0]) {
        seq![x] + s
    } else {
        seq![s[0]] + insert_sorted(x, s.drop_first())
    }
}

/// `s` in ascending order.
pub open spec fn sort_pairs(s: Seq<(u64, u64)>) -> Seq<(u64, u64)>
    decreases s.len(),
{
    if s.len() == 0 {
        Seq::empty()
    } else {
        insert_sorted(s.last(), sort_pairs(s.drop_last()))
    }
}

pub open spec fn pairs_sorted(s: Seq<(u64, u64)>) -> bool {
    forall|i: int, j: int| 0 <= i < j < s.len() ==> pair_le(#[trigger] s[i], #[trigger] s[j])
}

/// `(start, end)` of every used entry, in table order.
pub open spec fn used_pairs(es: Seq<GptEntry>) -> Seq<(u64, u64)>
    decreases es.len(),
{
    if es.len() == 0 {
        Seq::empty()
    } else if es.last().spec_is_used() {
        used_pairs(es.drop_last()).push((es.last().starting_lba, es.last().ending_lba))
    } else {
        used_pairs(es.drop_last())
    }
}

/// The free runs `free_extents` reports, walking the sorted used ranges from
/// cursor `c`.
pub open spec fn walk(c: int, s: Seq<(u64, u64)>, last: int, al: int) -> Seq<(int, int)>
    decreases s.len(),
{
    if s.len() == 0 {
        if c <= last {
            seq![(c, last)]
        } else {
            Seq::empty()
        }
    } else {
        let st = s[0].0 as int;
        let nc = if c >= align_up(succ_sat(s[0].1), al) {
            c
        } else {
            align_up(succ_sat(s[0].1), al)
        };
        (if st > c {
            seq![(c, st - 1)]
        } else {
            Seq::empty()
        }) + walk(nc, s.drop_first(), last, al)
    }
}

proof fn lemma_insert_sorted(x: (u64, u64), s: Seq<(u64, u64)>)
    requires
        pairs_sorted(s),
    ensures
        pairs_sorted(insert_sorted(x, s)),
        insert_sorted(x, s).len() == s.len() + 1,
        forall|y: (u64, u64)| #[trigger] insert_sorted(x, s).contains(y) <==> (y == x || s.contains(y)),
    decreases s.len(),
{
    let r = insert_sorted(x, s);
    if s.len() == 0 {
        assert forall|y: (u64, u64)| #[trigger] r.contains(y) <==> (y == x || s.contains(y)) by {
            if r.contains(y) {
                let k = choose|k: int| 0 <= k < r.len() && r[k] == y;
                assert(k == 0);
            }
            if y == x {
                assert(r[0] == x);
            }
        }
    } else if pair_le(x, s[0]) {
        assert forall|i: int, j: int| 0 <= i < j < r.len() implies pair_le(#[trigger] r[i], #[trigger] r[j]) by {
            if i == 0 {
                assert(r[j] == s[j - 1]);
                if j - 1 > 0 {
                    assert(pair_le(s[0], s[j - 1]));
                }
            } else {
                assert(r[i] == s[i - 1] && r[j] == s[j - 1]);
            }
        }
        assert forall|y: (u64, u64)| #[trigger] r.contains(y) <==> (y == x || s.contains(y)) by {
            if r.contains(y) {
                let k = choose|k: int| 0 <= k < r.len() && r[k] == y;
                if k > 0 {
                    assert(s[k - 1] == y);
                }
            }
            if y == x {
                assert(r[0] == x);
            }
            if s.contains(y) {
                let k = choose|k: int| 0 <= k < s.len() && s[k] == y;
                assert(r[k + 1] == y);
            }
        }
    } else {
        let t = s.drop_first();
        assert forall|i: int, j: int| 0 <= i < j < t.len() implies pair_le(#[trigger] t[i], #[trigger] t[j]) by {
            assert(t[i] == s[i + 1] && t[j] == s[j + 1]);
        }
        lemma_insert_sorted(x, t);
        let rt = insert_sorted(x, t);
        assert(r == seq![s[0]] + rt);
        assert forall|i: int, j: int| 0 <= i < j < r.len() implies pair_le(#[trigger] r[i], #[trigger] r[j]) by {
            if i == 0 {
                let y = rt[j - 1];
                assert(rt.contains(y));
                if y == x {
                } else {
                    let k = choose|k: int| 0 <= k < t.len() && t[k] == y;
                    assert(pair_le(s[0], s[k + 1]));
                }
            } else {
                assert(r[i] == rt[i - 1] && r[j] == rt[j - 1]);
            }
        }
        assert forall|y: (u64, u64)| #[trigger] r.contains(y) <==> (y == x || s.contains(y)) by {
            if r.contains(y) {
                let k = choose|k: int| 0 <= k < r.len() && r[k] == y;
                if k > 0 {
                    assert(rt[k - 1] == y);
                    assert(rt.contains(y));
                    if t.contains(y) {
                        let m = choose|m: int| 0 <= m < t.len() && t[m] == y;
                        assert(s[m + 1] == y);
                    }
                } else {
                    assert(s[0] == y);
                }
            }
            if y == x {
                assert(rt.contains(x));
                let k = choose|k: int| 0 <= k < rt.len() && rt[k] == x;
                assert(r[k + 1] == x);
            }
            if s.contains(y) {
                let k = choose|k: int| 0 <= k < s.len() && s[k] == y;
                if k == 0 {
                    assert(r[0] == y);
                } else {
                    assert(t[k - 1] == y);
                    assert(rt.contains(y));
                    let m = choose|m: int| 0 <= m < rt.len() && rt[m] == y;
                    assert(r[m + 1] == y);
                }
            }
        }
    }
}

proof fn lemma_sort_pairs(s: Seq<(u64, u64)>)
    ensures
        pairs_sorted(sort_pairs(s)),
        sort_pairs(s).len() == s.len(),
        forall|y: (u64, u64)| #[trigger] sort_pairs(s).contains(y) <==> s.contains(y),
    decreases s.len(),
{
    if s.len() > 0 {
        lemma_sort_pairs(s.drop_last());
        lemma_insert_sorted(s.last(), sort_pairs(s.drop_last()));
        assert forall|y: (u64, u64)| #[trigger] sort_pairs(s).contains(y) <==> s.contains(y) by {
            if s.contains(y) {
                let k = choose|k: int| 0 <= k < s.len() && s[k] == y;
                if k < s.len() - 1 {
                    assert(s.drop_last()[k] == y);
                    assert(s.drop_last().contains(y));
                }
            }
            if s.drop_last().contains(y) {
                let k = choose|k: int| 0 <= k < s.drop_last().len() && s.drop_last()[k] == y;
                assert(s[k] == y);
            }
        }
    }
}

proof fn lemma_used_pairs(es: Seq<GptEntry>)
    ensures
        forall|y: (u64, u64)| #[trigger] used_pairs(es).contains(y) <==> exists|i: int|
            0 <= i < es.len() && (#[trigger] es[i]).spec_is_used() && y == (
                es[i].starting_lba,
                es[i].ending_lba,
            ),
    decreases es.len(),
{
    if es.len() > 0 {
        let init = es.drop_last();
        lemma_used_pairs(init);
        assert forall|y: (u64, u64)| #[trigger] used_pairs(es).contains(y) <==> exists|i: int|
            0 <= i < es.len() && (#[trigger] es[i]).spec_is_used() && y == (
                es[i].starting_lba,
                es[i].ending_lba,
            ) by {
            let u = used_pairs(es);
            if u.contains(y) {
                let k = choose|k: int| 0 <= k < u.len() && u[k] == y;
                if k < used_pairs(init).len() {
                    assert(used_pairs(init)[k] == y);
                    assert(used_pairs(init).contains(y));
                    let i = choose|i: int|
                        0 <= i < init.len() && (#[trigger] init[i]).spec_is_used() && y == (
                            init[i].starting_lba,
                            init[i].ending_lba,
                        );
                    assert(es[i] == init[i]);
                } else {
                    assert(es[es.len() - 1] == es.last());
                }
            }
            if exists|i: int|
                0 <= i < es.len() && (#[trigger] es[i]).spec_is_used() && y == (
                    es[i].starting_lba,
                    es[i].ending_lba,
                ) {
                let i = choose|i: int|
                    0 <= i < es.len() && (#[trigger] es[i]).spec_is_used() && y == (
                        es[i].starting_lba,
                        es[i].ending_lba,
                    );
                if i < es.len() - 1 {
                    assert(init[i] == es[i]);
                    assert(used_pairs(init).contains(y));
                    let k = choose|k: int| 0 <= k < used_pairs(init).len() && used_pairs(init)[k] == y;
                    assert(u[k] == y);
                } else {
                    assert(u[u.len() - 1] == y);
                }
            }
        }
    }
}

pub proof fn lemma_align_up(v: int, al: int)
    requires
        al >= 1,
        v >= 0,
    ensures
        align_up(v, al) >= v,
        align_up(v, al) % al == 0,
        align_up(v, al) < v + al,
{
    let q = (v + al - 1) / al;
    assert(align_up(v, al) == q * al);
    assert(q * al >= v && q * al < v + al) by (nonlinear_arith)
        requires
            q == (v + al - 1) / al,
            al >= 1,
            v >= 0,
    ;
    assert((q * al) % al == 0) by (nonlinear_arith)
        requires
            al >= 1,
    ;
}

/// The facts about free runs that adding a partition relies on.
pub proof fn lemma_walk(c: int, s: Seq<(u64, u64)>, last: int, al: int)
    requires
        al >= 1,
        c >= 0,
        c % al == 0,
        forall|i: int, j: int| 0 <= i < j < s.len() ==> (#[trigger] s[i]).0 <= (#[trigger] s[j]).0,
        forall|i: int| 0 <= i < s.len() ==> (#[trigger] s[i]).0 <= last + 1 && s[i].1 < u64::MAX,
    ensures
        forall|k: int|
            0 <= k < walk(c, s, last, al).len() ==> {
                let x = #[trigger] walk(c, s, last, al)[k];
                &&& x.0 >= c
                &&& x.0 % al == 0
                &&& x.0 <= x.1
                &&& x.1 <= last
                &&& forall|i: int|
                    0 <= i < s.len() ==> !((#[trigger] s[i]).0 <= x.1 && x.0 <= s[i].1)
            },
    decreases s.len(),
{
    let w = walk(c, s, last, al);
    if s.len() > 0 {
        let st = s[0].0 as int;
        let e = s[0].1 as int;
        lemma_align_up(e + 1, al);
        let a = align_up(succ_sat(s[0].1), al);
        let nc = if c >= a {
            c
        } else {
            a
        };
        let t = s.drop_first();
        assert forall|i: int, j: int| 0 <= i < j < t.len() implies (#[trigger] t[i]).0 <= (
        #[trigger] t[j]).0 by {
            assert(t[i] == s[i + 1] && t[j] == s[j + 1]);
        }
        assert forall|i: int| 0 <= i < t.len() implies (#[trigger] t[i]).0 <= last + 1 && t[i].1
            < u64::MAX by {
            assert(t[i] == s[i + 1]);
        }
        lemma_walk(nc, t, last, al);
        let head = if st > c {
            seq![(c, st - 1)]
        } else {
            Seq::<(int, int)>::empty()
        };
        let rest = walk(nc, t, last, al);
        assert(w == head + rest);
        assert forall|k: int| 0 <= k < w.len() implies {
            let x = #[trigger] w[k];
            &&& x.0 >= c
            &&& x.0 % al == 0
            &&& x.0 <= x.1
            &&& x.1 <= last
            &&& forall|i: int| 0 <= i < s.len() ==> !((#[trigger] s[i]).0 <= x.1 && x.0 <= s[i].1)
        } by {
            let x = w[k];
            if k < head.len() {
                assert(x == (c, st - 1));
                assert forall|i: int| 0 <= i < s.len() implies !((#[trigger] s[i]).0 <= x.1 && x.0
                    <= s[i].1) by {
                    if i > 0 {
                        assert(s[0].0 <= s[i].0);
                    }
                }
            } else {
                assert(x == rest[k - head.len()]);
                assert forall|i: int| 0 <= i < s.len() implies !((#[trigger] s[i]).0 <= x.1 && x.0
                    <= s[i].1) by {
                    if i > 0 {
                        assert(s[i] == t[i - 1]);
                    }
                }
            }
        }
    }
}

/// The runs `free_extents` reports for a table, as `(start, end)`.
pub open spec fn spec_free_extents(g: Gpt) -> Seq<(int, int)> {
    walk(
        align_up(g.first_usable_lba as int, spec_align_sectors(g.sector_size)),
        sort_pairs(used_pairs(g.entries@)),
        g.last_usable_lba as int,
        spec_align_sectors(g.sector_size),
    )
}

impl Gpt {
    /// The rounding `free_extents` does stays within `u64`.
    pub open spec fn extents_computable(&self) -> bool {
        &&& self.sector_size > 0
        &&& align_up(self.first_usable_lba as int, spec_align_sectors(self.sector_size)) <= u64::MAX
        &&& forall|i: int|
            0 <= i < self.entries@.len() && (#[trigger] self.entries@[i]).spec_is_used() ==> align_up(
                succ_sat(self.entries@[i].ending_lba),
                spec_align_sectors(self.sector_size),
            ) <= u64::MAX
    }

    /// Unallocated runs, aligned and in ascending order.
    pub fn free_extents(&self) -> (out: Vec<FreeExtent>)
        requires
            self.extents_computable(),
        ensures
            out@.len() == spec_free_extents(*self).len(),
            forall|k: int|
                0 <= k < out@.len() ==> (#[trigger] out@[k]).start == spec_free_extents(*self)[k].0
                    && out@[k].end == spec_free_extents(*self)[k].1,
    {
        let align = Self::align_sectors(self.sector_size);
        let mut used: Vec<(u64, u64)> = Vec::new();
        let mut i: usize = 0;
        while i < self.entries.len()
            invariant
                0 <= i <= self.entries@.len(),
                used@ == sort_pairs(used_pairs(self.entries@.take(i as int))),
            decreases self.entries@.len() - i,
        {
            let ghost es = self.entries@.take(i + 1);
            assert(es.drop_last() =~= self.entries@.take(i as int));
            let e = &self.entries[i];
            if e.is_used() {
                let x = (e.starting_lba, e.ending_lba);
                insert_pair(&mut used, x);
                assert(used_pairs(es).drop_last() =~= used_pairs(self.entries@.take(i as int)));
            }
            i += 1;
        }
        proof {
            assert(self.entries@.take(self.entries@.len() as int) =~= self.entries@);
            lemma_sort_pairs(used_pairs(self.entries@));
            lemma_used_pairs(self.entries@);
        }
        let ghost sorted = used@;
        let ghost last = self.last_usable_lba as int;
        let ghost al = align as int;
        let mut out: Vec<FreeExtent> = Vec::new();
        let mut cursor = align_up_exec(self.first_usable_lba, align);
        let ghost c0 = cursor as int;
        let mut k: usize = 0;
        proof {
            assert(sorted.skip(0) =~= sorted);
            assert forall|j: int| 0 <= j < sorted.len() implies align_up(
                succ_sat((#[trigger] sorted[j]).1),
                al,
            ) <= u64::MAX by {
                let y = sorted[j];
                assert(sorted.contains(y));
                assert(used_pairs(self.entries@).contains(y));
                let i = choose|i: int|
                    0 <= i < self.entries@.len() && (#[trigger] self.entries@[i]).spec_is_used()
                        && y == (self.entries@[i].starting_lba, self.entries@[i].ending_lba);
            }
        }
        while k < used.len()
            invariant
                used@ == sorted,
                al == align,
                1 <= align,
                0 <= k <= sorted.len(),
                last == self.last_usable_lba,
                forall|j: int| 0 <= j < sorted.len() ==> align_up(succ_sat((#[trigger] sorted[j]).1), al) <= u64::MAX,
                ({
                    let done = Seq::new(out@.len(), |j: int| (out@[j].start as int, out@[j].end as int));
                    done + walk(cursor as int, sorted.skip(k as int), last, al) == walk(c0, sorted, last, al)
                }),
            decreases sorted.len() - k,
        {
            let (s, e) = used[k];
            let ghost old_out = out@;
            let ghost rest = sorted.skip(k as int);
            assert(rest[0] == (s, e));
            assert(rest.drop_first() =~= sorted.skip(k + 1));
            if s > cursor {
                out.push(FreeExtent { start: cursor, end: s - 1 });
            }
            let next = align_up_exec(succ_sat_exec(e), align);
            if next > cursor {
                cursor = next;
            }
            k += 1;
            proof {
                let done = Seq::new(out@.len(), |j: int| (out@[j].start as int, out@[j].end as int));
                let done0 = Seq::new(old_out.len(), |j: int| (old_out[j].start as int, old_out[j].end as int));
                assert(done =~= done0 + (if (s as int) > (cursor as int) || true {
                    Seq::new((out@.len() - old_out.len()) as nat, |j: int| (out@[old_out.len() + j].start as int, out@[old_out.len() + j].end as int))
                } else {
                    Seq::empty()
                }));
            }
        }
        if cursor <= self.last_usable_lba {
            out.push(FreeExtent { start: cursor, end: self.last_usable_lba });
        }
        proof {
            let done = Seq::new(out@.len(), |j: int| (out@[j].start as int, out@[j].end as int));
            assert(sorted.skip(sorted.len() as int) =~= Seq::<(u64, u64)>::empty());
            assert(done =~= spec_free_extents(*self));
        }
        out
    }
}

fn succ_sat_exec(e: u64) -> (r: u64)
    ensures
        r == succ_sat(e),
{
    if e == u64::MAX {
        u64::MAX
    } else {
        e + 1
    }
}

/// `v.div_ceil(align) * align`.
fn align_up_exec(v: u64, align: u64) -> (r: u64)
    requires
        align >= 1,
        align_up(v as int, align as int) <= u64::MAX,
    ensures
        r == align_up(v as int, align as int),
{
    let q = v / align;
    assert(v % align != 0 ==> q < u64::MAX) by (nonlinear_arith)
        requires
            align >= 1,
            q == v / align,
    ;
    let d = if v % align == 0 {
        q
    } else {
        q + 1
    };
    assert(d == div_ceil(v as int, align as int)) by (nonlinear_arith)
        requires
            align >= 1,
            q == v / align,
            v % align == 0 ==> d == q,
            v % align != 0 ==> d == q + 1,
    ;
    assert(d * align == align_up(v as int, align as int));
    d * align
}

/// What `add(sectors, ..)` needs of a table for its arithmetic to stay
/// within `u64`.
pub open spec fn add_arith_fits(g: Gpt, sectors: Option<u64>) -> bool {
    &&& g.extents_computable()
    &&& extent_lengths_fit(spec_free_extents(g))
    &&& match sectors {
        Some(n) => {
            let x = spec_free_extents(g);
            first_fit(x, n as int) < x.len() ==> x[first_fit(x, n as int)].0 + n <= u64::MAX
        },
        None => true,
    }
}

/// Does `v` rounded up to a multiple of `align` fit in a `u64`?
fn align_fits(v: u64, align: u64) -> (r: bool)
    requires
        align >= 1,
    ensures
        r == (align_up(v as int, align as int) <= u64::MAX),
{
    let q = v / align;
    assert(v % align != 0 ==> q < u64::MAX) by (nonlinear_arith)
        requires
            align >= 1,
            q == v / align,
    ;
    let d = if v % align == 0 {
        q
    } else {
        q + 1
    };
    assert(d == div_ceil(v as int, align as int)) by (nonlinear_arith)
        requires
            align >= 1,
            q == v / align,
            v % align == 0 ==> d == q,
            v % align != 0 ==> d == q + 1,
    ;
    assert(d * align == align_up(v as int, align as int));
    d.checked_mul(align).is_some()
}

impl Gpt {
    /// Does the rounding `free_extents` does stay within `u64` for this
    /// table? The test to pass before `free_extents` or `add` is called.
    pub fn extents_in_range(&self) -> (r: bool)
        ensures
            r == self.extents_computable(),
    {
        if self.sector_size == 0 {
            return false;
        }
        let al = Self::align_sectors(self.sector_size);
        if !align_fits(self.first_usable_lba, al) {
            return false;
        }
        let mut i: usize = 0;
        while i < self.entries.len()
            invariant
                0 <= i <= self.entries@.len(),
                self.sector_size > 0,
                al == spec_align_sectors(self.sector_size),
                al >= 1,
                align_up(self.first_usable_lba as int, al as int) <= u64::MAX,
                forall|j: int|
                    0 <= j < i && (#[trigger] self.entries@[j]).spec_is_used() ==> align_up(
                        succ_sat(self.entries@[j].ending_lba),
                        al as int,
                    ) <= u64::MAX,
            decreases self.entries@.len() - i,
        {
            let e = &self.entries[i];
            if e.is_used() && !align_fits(succ_sat_exec(e.ending_lba), al) {
                return false;
            }
            i += 1;
        }
        true
    }

    /// Does `add(sectors, ..)` keep its arithmetic within `u64` on this
    /// table? The test to pass before `add` is called.
    pub fn add_in_range(&self, sectors: Option<u64>) -> (r: bool)
        ensures
            r == add_arith_fits(*self, sectors),
    {
        if !self.extents_in_range() {
            return false;
        }
        let xs = self.free_extents();
        let ghost x = spec_free_extents(*self);
        let mut k: usize = 0;
        while k < xs.len()
            invariant
                0 <= k <= xs@.len(),
                x == spec_free_extents(*self),
                xs@.len() == x.len(),
                forall|j: int|
                    0 <= j < xs@.len() ==> (#[trigger] xs@[j]).start == x[j].0 && xs@[j].end == x[j].1,
                forall|j: int| 0 <= j < k ==> ext_sectors(#[trigger] x[j]) <= u64::MAX,
            decreases xs@.len() - k,
        {
            if xs[k].start == 0 && xs[k].end == u64::MAX {
                assert(ext_sectors(x[k as int]) > u64::MAX);
                return false;
            }
            k += 1;
        }
        let n = match sectors {
            None => {
                return true;
            },
            Some(n) => n,
        };
        let mut k: usize = 0;
        while k < xs.len()
            invariant
                0 <= k <= xs@.len(),
                x == spec_free_extents(*self),
                xs@.len() == x.len(),
                forall|j: int|
                    0 <= j < xs@.len() ==> (#[trigger] xs@[j]).start == x[j].0 && xs@[j].end == x[j].1,
                extent_lengths_fit(x),
                self.extents_computable(),
                sectors == Some(n),
                forall|j: int| 0 <= j < k ==> ext_sectors(#[trigger] x[j]) < n,
            decreases xs@.len() - k,
        {
            let len = xs[k].sectors();
            if len >= n {
                proof {
                    lemma_first_fit(x, n as int);
                    let ff = first_fit(x, n as int);
                    if ff < k {
                        assert(ext_sectors(x[ff]) < n);
                    }
                    if ff > k {
                        assert(ext_sectors(x[k as int]) < n);
                    }
                }
                return xs[k].start.checked_add(n).is_some();
            }
            k += 1;
        }
        proof {
            lemma_first_fit(x, n as int);
        }
        true
    }
}

/// Insert `x` into the ascending vector `v` before the first element it does
/// not exceed.
fn insert_pair(v: &mut Vec<(u64, u64)>, x: (u64, u64))
    ensures
        final(v)@ == insert_sorted(x, old(v)@),
{
    let mut k: usize = 0;
    while k < v.len() && !(x.0 < v[k].0 || (x.0 == v[k].0 && x.1 <= v[k].1))
        invariant
            0 <= k <= v@.len(),
            v@ == old(v)@,
            forall|j: int| 0 <= j < k ==> !pair_le(x, #[trigger] v@[j]),
        decreases v@.len() - k,
    {
        k += 1;
    }
    proof {
        lemma_insert_at(x, v@, k as int);
    }
    v.insert(k, x);
    assert(final(v)@ =~= old(v)@.take(k as int).push(x) + old(v)@.skip(k as int));
}

proof fn lemma_insert_at(x: (u64, u64), s: Seq<(u64, u64)>, k: int)
    requires
        0 <= k <= s.len(),
        forall|j: int| 0 <= j < k ==> !pair_le(x, #[trigger] s[j]),
        k < s.len() ==> pair_le(x, s[k]),
    ensures
        insert_sorted(x, s) == s.take(k).push(x) + s.skip(k),
    decreases k,
{
    if k == 0 {
        if s.len() == 0 {
            assert(s.take(0).push(x) + s.skip(0) =~= seq![x]);
        } else {
            assert(s.take(0).push(x) + s.skip(0) =~= seq![x] + s);
        }
    } else {
        let t = s.drop_first();
        assert forall|j: int| 0 <= j < k - 1 implies !pair_le(x, #[trigger] t[j]) by {
            assert(t[j] == s[j + 1]);
        }
        lemma_insert_at(x, t, k - 1);
        assert(!pair_le(x, s[0]));
        assert(s.take(k).push(x) + s.skip(k) =~= seq![s[0]] + (t.take(k - 1).push(x) + t.skip(k - 1)));
    }
}

// --------------------------------------------------------------------------
// Adding and removing partitions.

/// Length of a run as `FreeExtent::sectors` reports it.
pub open spec fn ext_sectors(x: (int, int)) -> int {
    if x.1 >= x.0 {
        x.1 - x.0 + 1
    } else {
        1
    }
}

/// Index of the first run holding at least `n` sectors, or `x.len()`.
pub open spec fn first_fit(x: Seq<(int, int)>, n: int) -> int
    decreases x.len(),
{
    if x.len() == 0 {
        0
    } else if ext_sectors(x[0]) >= n {
        0
    } else {
        1 + first_fit(x.drop_first(), n)
    }
}

/// The largest run length, or 0 when there are none.
pub open spec fn max_ext(x: Seq<(int, int)>) -> int
    decreases x.len(),
{
    if x.len() == 0 {
        0
    } else if ext_sectors(x.last()) >= max_ext(x.drop_last()) {
        ext_sectors(x.last())
    } else {
        max_ext(x.drop_last())
    }
}

/// Index of the last run of the largest length (`max_by_key` keeps the last).
pub open spec fn last_max(x: Seq<(int, int)>) -> int
    decreases x.len(),
{
    if x.len() <= 1 {
        0
    } else if ext_sectors(x.last()) >= max_ext(x.drop_last()) {
        x.len() - 1
    } else {
        last_max(x.drop_last())
    }
}

/// The run `add` takes for `n` sectors is the first that holds them: every
/// run before it is shorter than `n`; when none holds them, every run is.
pub proof fn lemma_first_fit(x: Seq<(int, int)>, n: int)
    ensures
        0 <= first_fit(x, n) <= x.len(),
        forall|k: int| 0 <= k < first_fit(x, n) ==> ext_sectors(#[trigger] x[k]) < n,
        first_fit(x, n) < x.len() ==> ext_sectors(x[first_fit(x, n)]) >= n,
    decreases x.len(),
{
    if x.len() > 0 && ext_sectors(x[0]) < n {
        lemma_first_fit(x.drop_first(), n);
        assert forall|k: int| 0 <= k < first_fit(x, n) implies ext_sectors(#[trigger] x[k]) < n by {
            if k > 0 {
                assert(x[k] == x.drop_first()[k - 1]);
            }
        }
    }
}

/// The run `add` takes when no size is given is a largest one, and the
/// length `NoSpace` reports is the largest run length: no run is longer.
pub proof fn lemma_max_ext(x: Seq<(int, int)>)
    ensures
        x.len() > 0 ==> 0 <= last_max(x) < x.len() && ext_sectors(x[last_max(x)]) == max_ext(x),
        forall|k: int| 0 <= k < x.len() ==> ext_sectors(#[trigger] x[k]) <= max_ext(x),
    decreases x.len(),
{
    if x.len() > 0 {
        lemma_max_ext(x.drop_last());
        assert forall|k: int| 0 <= k < x.len() implies ext_sectors(#[trigger] x[k]) <= max_ext(x) by {
            if k < x.len() - 1 {
                assert(x[k] == x.drop_last()[k]);
            }
        }
        if x.len() > 1 && ext_sectors(x.last()) < max_ext(x.drop_last()) {
            assert(x[last_max(x)] == x.drop_last()[last_max(x.drop_last())]);
        }
        if x.len() == 1 {
            assert(max_ext(x.drop_last()) == 0);
        }
    }
}

/// Every run is at most `u64::MAX` sectors long.
pub open spec fn extent_lengths_fit(x: Seq<(int, int)>) -> bool {
    forall|k: int| 0 <= k < x.len() ==> ext_sectors(#[trigger] x[k]) <= u64::MAX
}

impl Gpt {
    /// Everything but the entries is the same in both tables.
    pub open spec fn same_geometry(&self, other: Gpt) -> bool {
        &&& self.sector_size == other.sector_size
        &&& self.disk_sectors == other.disk_sectors
        &&& self.disk_guid == other.disk_guid
        &&& self.num_entries == other.num_entries
        &&& self.entry_size == other.entry_size
        &&& self.entry_array_lba == other.entry_array_lba
        &&& self.first_usable_lba == other.first_usable_lba
        &&& self.last_usable_lba == other.last_usable_lba
    }

    /// `self` is `old` with slot `slot` replaced by a new partition.
    pub open spec fn placed(
        &self,
        old: Gpt,
        slot: int,
        start: int,
        end: int,
        type_guid: Guid,
        unique: Option<Guid>,
        name: Seq<char>,
    ) -> bool {
        &&& self.same_geometry(old)
        &&& self.entries@.len() == old.entries@.len()
        &&& 0 <= slot < old.entries@.len()
        &&& forall|j: int|
            0 <= j < old.entries@.len() && j != slot ==> #[trigger] self.entries@[j]
                == old.entries@[j]
        &&& self.entries@[slot].type_guid == type_guid
        &&& (unique matches Some(u) ==> self.entries@[slot].unique_guid == u)
        &&& self.entries@[slot].starting_lba == start
        &&& self.entries@[slot].ending_lba == end
        &&& self.entries@[slot].attributes == 0
        &&& self.entries@[slot].name@ == name
    }

    /// Is slot `slot` the first unused one?
    pub open spec fn first_free_slot(&self, slot: int) -> bool {
        &&& 0 <= slot < self.entries@.len()
        &&& !self.entries@[slot].spec_is_used()
        &&& forall|j: int| 0 <= j < slot ==> (#[trigger] self.entries@[j]).spec_is_used()
    }

    pub open spec fn all_slots_used(&self) -> bool {
        forall|j: int| 0 <= j < self.entries@.len() ==> (#[trigger] self.entries@[j]).spec_is_used()
    }

    /// Add a partition of `sectors` (or the largest free run when `None`).
    /// Returns the 1-based index it landed in.
    pub fn add(&mut self, sectors: Option<u64>, type_guid: Guid, name: &str, unique: Option<Guid>) -> (r:
        Result<usize>)
        requires
            add_arith_fits(*old(self), sectors),
        ensures
            r is Err ==> *final(self) == *old(self),
            crate::text::utf16(name@).len() > 36 ==> (r matches Err(PartError::Usage(m)) && m@
                == "partition name is "@ + decimal(crate::text::utf16(name@).len())
                + " UTF-16 code units; the limit is 36"@),
            crate::text::utf16(name@).len() <= 36 && type_guid.spec_is_zero() ==> (r matches Err(
                PartError::Usage(m),
            ) && m@ == "a partition type GUID of all zeroes means 'unused'"@),
            crate::text::utf16(name@).len() <= 36 && !type_guid.spec_is_zero() && old(self).all_slots_used()
                ==> (r matches Err(PartError::Usage(m)) && m@ == "all 128 partition slots are in use"@),
            crate::text::utf16(name@).len() <= 36 && !type_guid.spec_is_zero() && !old(self).all_slots_used()
                ==> ({
                let x = spec_free_extents(*old(self));
                match sectors {
                    Some(n) => if n == 0 {
                        r matches Err(PartError::Usage(m)) && m@ == "size must be non-zero"@
                    } else if first_fit(x, n as int) < x.len() {
                        r matches Ok(idx) && final(self).placed(
                            *old(self),
                            idx - 1,
                            x[first_fit(x, n as int)].0,
                            x[first_fit(x, n as int)].0 + n - 1,
                            type_guid,
                            unique,
                            name@,
                        ) && old(self).first_free_slot(idx - 1)
                    } else {
                        r matches Err(PartError::NoSpace { wanted, largest }) && wanted == n && largest
                            == max_ext(x)
                    },
                    None => if x.len() == 0 {
                        r matches Err(PartError::NoSpace { wanted, largest }) && wanted == 0 && largest
                            == 0
                    } else {
                        r matches Ok(idx) && old(self).first_free_slot(idx - 1) && final(self).placed(
                            *old(self),
                            idx - 1,
                            x[last_max(x)].0,
                            x[last_max(x)].1,
                            type_guid,
                            unique,
                            name@,
                        )
                    },
                }
            }),
            // Adding never breaks a healthy table.
            old(self).healthy() && old(self).last_usable_lba < u64::MAX && align_up(
                old(self).last_usable_lba + 1,
                spec_align_sectors(old(self).sector_size),
            ) <= u64::MAX && r is Ok ==> final(self).healthy() && final(self).extents_computable(),
    {
        match validate_name(name) {
            Ok(()) => {},
            Err(e) => {
                return Err(e);
            },
        }
        if type_guid.is_zero() {
            let m = crate::text::chars_of("a partition type GUID of all zeroes means 'unused'");
            return Err(PartError::Usage(string_from_chars(&m)));
        }
        let mut slot: usize = 0;
        while slot < self.entries.len() && self.entries[slot].is_used()
            invariant
                0 <= slot <= self.entries@.len(),
                forall|j: int| 0 <= j < slot ==> (#[trigger] self.entries@[j]).spec_is_used(),
            decreases self.entries@.len() - slot,
        {
            slot += 1;
        }
        if slot == self.entries.len() {
            let m = crate::text::chars_of("all 128 partition slots are in use");
            return Err(PartError::Usage(string_from_chars(&m)));
        }
        let extents = self.free_extents();
        let ghost x = spec_free_extents(*self);
        proof {
            lemma_first_fit(x, 0);
            lemma_max_ext(x);
            lemma_walk_ordered(
                align_up(self.first_usable_lba as int, spec_align_sectors(self.sector_size)),
                sort_pairs(used_pairs(self.entries@)),
                self.last_usable_lba as int,
                spec_align_sectors(self.sector_size),
            );
        }
        let (start, end) = match sectors {
            Some(n) => {
                if n == 0 {
                    let m = crate::text::chars_of("size must be non-zero");
                    return Err(PartError::Usage(string_from_chars(&m)));
                }
                proof {
                    lemma_first_fit(x, n as int);
                }
                let mut k: usize = 0;
                while k < extents.len() && extents[k].sectors() < n
                    invariant
                        0 <= k <= extents@.len(),
                        extents@.len() == x.len(),
                        extent_lengths_fit(x),
                        forall|j: int|
                            0 <= j < extents@.len() ==> (#[trigger] extents@[j]).start == x[j].0
                                && extents@[j].end == x[j].1,
                        forall|j: int| 0 <= j < k ==> ext_sectors(#[trigger] x[j]) < n,
                    decreases extents@.len() - k,
                {
                    assert(extents@[k as int].spec_sectors() == ext_sectors(x[k as int]));
                    k += 1;
                }
                if k == extents.len() {
                    let mut largest: u64 = 0;
                    let mut j: usize = 0;
                    while j < extents.len()
                        invariant
                            0 <= j <= extents@.len(),
                            extents@.len() == x.len(),
                            extent_lengths_fit(x),
                            forall|m: int|
                                0 <= m < extents@.len() ==> (#[trigger] extents@[m]).start == x[m].0
                                    && extents@[m].end == x[m].1,
                            largest == max_ext(x.take(j as int)),
                        decreases extents@.len() - j,
                    {
                        let sz = extents[j].sectors();
                        assert(x.take(j + 1).drop_last() =~= x.take(j as int));
                        if sz >= largest {
                            largest = sz;
                        }
                        j += 1;
                    }
                    assert(x.take(x.len() as int) =~= x);
                    proof {
                        if first_fit(x, n as int) < x.len() {
                            let f = first_fit(x, n as int);
                            assert(ext_sectors(x[f]) >= n);
                            assert(ext_sectors(x[f]) < n);
                        }
                    }
                    return Err(PartError::NoSpace { wanted: n, largest });
                }
                proof {
                    assert(ext_sectors(x[k as int]) >= n);
                    if first_fit(x, n as int) < k {
                        assert(ext_sectors(x[first_fit(x, n as int)]) < n);
                    }
                    assert(first_fit(x, n as int) == k);
                }
                let f = extents[k];
                (f.start, f.start + n - 1)
            },
            None => {
                if extents.len() == 0 {
                    return Err(PartError::NoSpace { wanted: 0, largest: 0 });
                }
                let mut best: usize = 0;
                let mut best_len: u64 = extents[0].sectors();
                let mut j: usize = 1;
                proof {
                    assert(x.take(1).drop_last() =~= Seq::<(int, int)>::empty());
                    assert(x.take(1).last() == x[0]);
                    assert(extents@[0].spec_sectors() == ext_sectors(x[0]));
                    assert(max_ext(x.take(1).drop_last()) == 0);
                    assert(max_ext(x.take(1)) == ext_sectors(x[0]));
                }
                while j < extents.len()
                    invariant
                        1 <= j <= extents@.len(),
                        extents@.len() == x.len(),
                        extent_lengths_fit(x),
                        forall|m: int|
                            0 <= m < extents@.len() ==> (#[trigger] extents@[m]).start == x[m].0
                                && extents@[m].end == x[m].1,
                        best_len == max_ext(x.take(j as int)),
                        best == last_max(x.take(j as int)),
                    decreases extents@.len() - j,
                {
                    let sz = extents[j].sectors();
                    assert(x.take(j + 1).drop_last() =~= x.take(j as int));
                    assert(x.take(j + 1).last() == x[j as int]);
                    if sz >= best_len {
                        best = j;
                        best_len = sz;
                    }
                    j += 1;
                }
                assert(x.take(x.len() as int) =~= x);
                let f = extents[best];
                (f.start, f.end)
            },
        };
        let g = match unique {
            Some(u) => u,
            None => Guid::random(),
        };
        let ghost old_self = *self;
        let e = GptEntry {
            type_guid,
            unique_guid: g,
            starting_lba: start,
            ending_lba: end,
            attributes: 0,
            name: string_from_chars(&crate::text::chars_of(name)),
        };
        self.entries.set(slot, e);
        proof {
            lemma_add_healthy(old_self, *self, slot as int);
        }
        Ok(slot + 1)
    }

    /// Clear a partition by 1-based index.
    pub fn remove(&mut self, index: usize) -> (r: Result<()>)
        ensures
            r is Err ==> *final(self) == *old(self),
            (index == 0 || index > old(self).entries@.len()) ==> (r matches Err(PartError::Usage(m))
                && m@ == "no partition "@ + decimal(index as nat)),
            1 <= index <= old(self).entries@.len() && !old(self).entries@[index - 1].spec_is_used()
                ==> (r matches Err(PartError::Usage(m)) && m@ == "partition "@ + decimal(index as nat)
                + " is not in use"@),
            1 <= index <= old(self).entries@.len() && old(self).entries@[index - 1].spec_is_used()
                ==> {
                &&& r is Ok
                &&& final(self).same_geometry(*old(self))
                &&& final(self).entries@.len() == old(self).entries@.len()
                &&& forall|j: int|
                    0 <= j < old(self).entries@.len() && j != index - 1 ==> #[trigger] final(self).entries@[j]
                        == old(self).entries@[j]
                &&& final(self).entries@[index - 1].type_guid.0@ == zeros(16)
                &&& final(self).entries@[index - 1].unique_guid.0@ == zeros(16)
                &&& final(self).entries@[index - 1].starting_lba == 0
                &&& final(self).entries@[index - 1].ending_lba == 0
                &&& final(self).entries@[index - 1].attributes == 0
                &&& final(self).entries@[index - 1].name@ == Seq::<char>::empty()
            },
            // Removing never breaks a healthy table, or the rounding of free runs.
            old(self).healthy() ==> final(self).healthy(),
            old(self).extents_computable() ==> final(self).extents_computable(),
    {
        if index == 0 || index - 1 >= self.entries.len() {
            let mut v: Vec<char> = Vec::new();
            extend_str(&mut v, "no partition ");
            let d = u64_decimal(index as u64);
            extend_chars(&mut v, &d);
            return Err(PartError::Usage(string_from_chars(&v)));
        }
        let slot = index - 1;
        if !self.entries[slot].is_used() {
            let mut v: Vec<char> = Vec::new();
            extend_str(&mut v, "partition ");
            let d = u64_decimal(index as u64);
            extend_chars(&mut v, &d);
            extend_str(&mut v, " is not in use");
            return Err(PartError::Usage(string_from_chars(&v)));
        }
        let ghost old_self = *self;
        self.entries.set(slot, GptEntry::default());
        proof {
            let e = self.entries@[slot as int];
            assert(e.type_guid.0@[0] == 0);
            assert(!e.spec_is_used());
            assert forall|i: int|
                0 <= i < self.entries@.len() && (#[trigger] self.entries@[i]).spec_is_used() implies i
                != slot && self.entries@[i] == old_self.entries@[i] by {}
        }
        Ok(())
    }

    /// Used partitions, as (1-based index, entry), in table order.
    pub fn partitions(&self) -> (out: Vec<(usize, &GptEntry)>)
        ensures
            out@.len() == used_idx(self.entries@).len(),
            forall|k: int|
                0 <= k < out@.len() ==> (#[trigger] out@[k]).0 == used_idx(self.entries@)[k] + 1
                    && *out@[k].1 == self.entries@[used_idx(self.entries@)[k]],
    {
        let mut out: Vec<(usize, &GptEntry)> = Vec::new();
        let mut i: usize = 0;
        while i < self.entries.len()
            invariant
                0 <= i <= self.entries@.len(),
                out@.len() == used_idx(self.entries@.take(i as int)).len(),
                forall|k: int|
                    0 <= k < out@.len() ==> (#[trigger] out@[k]).0 == used_idx(self.entries@.take(i as int))[k] + 1
                        && *out@[k].1 == self.entries@[used_idx(self.entries@.take(i as int))[k]],
            decreases self.entries@.len() - i,
        {
            let e = &self.entries[i];
            proof {
                let t = self.entries@.take(i + 1);
                assert(t.drop_last() =~= self.entries@.take(i as int));
                assert(t.last() == self.entries@[i as int]);
            }
            if e.is_used() {
                out.push((i + 1, e));
            }
            i += 1;
        }
        assert(self.entries@.take(self.entries@.len() as int) =~= self.entries@);
        out
    }
}

/// Indices of the used entries, in table order.
pub open spec fn used_idx(es: Seq<GptEntry>) -> Seq<int>
    decreases es.len(),
{
    if es.len() == 0 {
        Seq::empty()
    } else if es.last().spec_is_used() {
        used_idx(es.drop_last()).push(es.len() - 1)
    } else {
        used_idx(es.drop_last())
    }
}

proof fn lemma_add_healthy(old: Gpt, new: Gpt, slot: int)
    requires
        old.extents_computable(),
        0 <= slot < old.entries@.len(),
        !old.entries@[slot].spec_is_used(),
        new.same_geometry(old),
        new.entries@.len() == old.entries@.len(),
        forall|j: int| 0 <= j < old.entries@.len() && j != slot ==> #[trigger] new.entries@[j] == old.entries@[j],
        new.entries@[slot].spec_is_used(),
        new.entries@[slot].starting_lba <= new.entries@[slot].ending_lba,
        exists|k: int|
            0 <= k < spec_free_extents(old).len() && spec_free_extents(old)[k].0 == new.entries@[slot].starting_lba
                && new.entries@[slot].ending_lba <= spec_free_extents(old)[k].1,
    ensures
        old.healthy() && old.last_usable_lba < u64::MAX && align_up(
            old.last_usable_lba + 1,
            spec_align_sectors(old.sector_size),
        ) <= u64::MAX ==> new.healthy() && new.extents_computable(),
{
    if old.healthy() && old.last_usable_lba < u64::MAX && align_up(
        old.last_usable_lba + 1,
        spec_align_sectors(old.sector_size),
    ) <= u64::MAX {
        let al = spec_align_sectors(old.sector_size);
        assert(al >= 1) by (nonlinear_arith)
            requires
                al == spec_align_sectors(old.sector_size),
        ;
        let es = old.entries@;
        let up = used_pairs(es);
        let sorted = sort_pairs(up);
        lemma_used_pairs(es);
        lemma_sort_pairs(up);
        let c0 = align_up(old.first_usable_lba as int, al);
        lemma_align_up(old.first_usable_lba as int, al);
        assert forall|i: int, j: int| 0 <= i < j < sorted.len() implies (#[trigger] sorted[i]).0 <= (
        #[trigger] sorted[j]).0 by {
            assert(pair_le(sorted[i], sorted[j]));
        }
        assert forall|i: int| 0 <= i < sorted.len() implies (#[trigger] sorted[i]).0 <= old.last_usable_lba
            + 1 && sorted[i].1 < u64::MAX by {
            let y = sorted[i];
            assert(sorted.contains(y));
            assert(up.contains(y));
            let m = choose|m: int|
                0 <= m < es.len() && (#[trigger] es[m]).spec_is_used() && y == (
                    es[m].starting_lba,
                    es[m].ending_lba,
                );
            assert(old.entry_healthy(es[m]));
        }
        lemma_walk(c0, sorted, old.last_usable_lba as int, al);
        let x = spec_free_extents(old);
        let k = choose|k: int|
            0 <= k < x.len() && x[k].0 == new.entries@[slot].starting_lba && new.entries@[slot].ending_lba
                <= x[k].1;
        let ext = x[k];
        assert(ext.0 >= c0 && ext.0 % al == 0 && ext.0 <= ext.1 && ext.1 <= old.last_usable_lba);
        let ne = new.entries@[slot];
        // The new entry is healthy.
        assert(new.entry_healthy(ne));
        // It overlaps no other used entry.
        assert forall|j: int| 0 <= j < es.len() && j != slot && (#[trigger] new.entries@[j]).spec_is_used()
            implies !(ne.starting_lba <= new.entries@[j].ending_lba && new.entries@[j].starting_lba
            <= ne.ending_lba) by {
            let y = (es[j].starting_lba, es[j].ending_lba);
            assert(es[j] == new.entries@[j]);
            assert(up.contains(y));
            assert(sorted.contains(y));
            let m = choose|m: int| 0 <= m < sorted.len() && sorted[m] == y;
            assert(!((#[trigger] sorted[m]).0 <= ext.1 && ext.0 <= sorted[m].1));
        }
        assert forall|i: int|
            0 <= i < new.entries@.len() && (#[trigger] new.entries@[i]).spec_is_used() implies new.entry_healthy(
            new.entries@[i]) by {
            if i != slot {
                assert(new.entries@[i] == es[i]);
            }
        }
        assert forall|i: int, j: int|
            0 <= i < j < new.entries@.len() && new.entries@[i].spec_is_used()
                && new.entries@[j].spec_is_used() implies !(#[trigger] new.entries@[i]).spec_overlaps(
            (#[trigger] new.entries@[j]).starting_lba,
            new.entries@[j].ending_lba,
        ) by {
            if i != slot && j != slot {
                assert(new.entries@[i] == es[i] && new.entries@[j] == es[j]);
            }
        }
        // The rounding after the new entry stays in range.
        let last = old.last_usable_lba as int;
        assert(align_up(succ_sat(ne.ending_lba), al) <= align_up(last + 1, al)) by {
            assert(succ_sat(ne.ending_lba) == ne.ending_lba + 1);
            lemma_align_up_mono(ne.ending_lba + 1, last + 1, al);
        }
        assert forall|i: int|
            0 <= i < new.entries@.len() && (#[trigger] new.entries@[i]).spec_is_used() implies align_up(
            succ_sat(new.entries@[i].ending_lba),
            spec_align_sectors(new.sector_size),
        ) <= u64::MAX by {
            if i != slot {
                assert(new.entries@[i] == es[i]);
            }
        }
    }
}

/// Every run `walk` reports ends no earlier than it starts.
proof fn lemma_walk_ordered(c: int, s: Seq<(u64, u64)>, last: int, al: int)
    ensures
        forall|k: int| 0 <= k < walk(c, s, last, al).len() ==> (#[trigger] walk(c, s, last, al)[k]).0
            <= walk(c, s, last, al)[k].1,
    decreases s.len(),
{
    if s.len() > 0 {
        let nc = if c >= align_up(succ_sat(s[0].1), al) {
            c
        } else {
            align_up(succ_sat(s[0].1), al)
        };
        lemma_walk_ordered(nc, s.drop_first(), last, al);
        let st = s[0].0 as int;
        let head = if st > c {
            seq![(c, st - 1)]
        } else {
            Seq::<(int, int)>::empty()
        };
        let rest = walk(nc, s.drop_first(), last, al);
        assert(walk(c, s, last, al) == head + rest);
        assert forall|k: int| 0 <= k < walk(c, s, last, al).len() implies (#[trigger] walk(c, s, last, al)[k]).0
            <= walk(c, s, last, al)[k].1 by {
            if k >= head.len() {
                assert(walk(c, s, last, al)[k] == rest[k - head.len()]);
            }
        }
    }
}

proof fn lemma_align_up_mono(a: int, b: int, al: int)
    requires
        0 <= a <= b,
        al >= 1,
    ensures
        align_up(a, al) <= align_up(b, al),
{
    assert((a + al - 1) / al <= (b + al - 1) / al) by (nonlinear_arith)
        requires
            a <= b,
            al >= 1,
    ;
    assert(((a + al - 1) / al) * al <= ((b + al - 1) / al) * al) by (nonlinear_arith)
        requires
            (a + al - 1) / al <= (b + al - 1) / al,
            al >= 1,
    ;
}

/// The runs `walk` reports come in ascending order, apart from each other.
proof fn lemma_walk_ascending(c: int, s: Seq<(u64, u64)>, last: int, al: int)
    requires
        al >= 1,
        c >= 0,
        c % al == 0,
        forall|i: int, j: int| 0 <= i < j < s.len() ==> (#[trigger] s[i]).0 <= (#[trigger] s[j]).0,
        forall|i: int|
            0 <= i < s.len() ==> (#[trigger] s[i]).0 <= last + 1 && s[i].1 < u64::MAX && s[i].0 <= s[i].1,
    ensures
        forall|i: int, j: int|
            0 <= i < j < walk(c, s, last, al).len() ==> (#[trigger] walk(c, s, last, al)[i]).1 < (
            #[trigger] walk(c, s, last, al)[j]).0,
    decreases s.len(),
{
    if s.len() > 0 {
        let st = s[0].0 as int;
        lemma_align_up(s[0].1 + 1, al);
        let a = align_up(succ_sat(s[0].1), al);
        let nc = if c >= a {
            c
        } else {
            a
        };
        let t = s.drop_first();
        assert forall|i: int, j: int| 0 <= i < j < t.len() implies (#[trigger] t[i]).0 <= (
        #[trigger] t[j]).0 by {
            assert(t[i] == s[i + 1] && t[j] == s[j + 1]);
        }
        assert forall|i: int| 0 <= i < t.len() implies (#[trigger] t[i]).0 <= last + 1 && t[i].1
            < u64::MAX && t[i].0 <= t[i].1 by {
            assert(t[i] == s[i + 1]);
        }
        lemma_walk_ascending(nc, t, last, al);
        lemma_walk(nc, t, last, al);
        let head = if st > c {
            seq![(c, st - 1)]
        } else {
            Seq::<(int, int)>::empty()
        };
        let rest = walk(nc, t, last, al);
        let w = walk(c, s, last, al);
        assert(w == head + rest);
        assert forall|i: int, j: int| 0 <= i < j < w.len() implies (#[trigger] w[i]).1 < (
        #[trigger] w[j]).0 by {
            if i >= head.len() {
                assert(w[i] == rest[i - head.len()] && w[j] == rest[j - head.len()]);
            } else {
                assert(w[i] == (c, st - 1));
                assert(w[j] == rest[j - head.len()]);
                assert(rest[j - head.len()].0 >= nc);
            }
        }
    }
}

/// An aligned value at or past `v` is at or past `v` rounded up.
proof fn lemma_aligned_past(y: int, v: int, al: int)
    requires
        al >= 1,
        v >= 0,
        y >= v,
        y % al == 0,
    ensures
        y >= align_up(v, al),
{
    let q = y / al;
    assert(y == q * al) by (nonlinear_arith)
        requires
            al >= 1,
            y % al == 0,
            q == y / al,
    ;
    assert((v + al - 1) / al <= q) by (nonlinear_arith)
        requires
            al >= 1,
            v >= 0,
            y >= v,
            y == q * al,
    ;
    assert(((v + al - 1) / al) * al <= q * al) by (nonlinear_arith)
        requires
            al >= 1,
            (v + al - 1) / al <= q,
    ;
}

/// Every aligned value from the cursor to `last` that no used range holds
/// lies in a run `walk` reports.
proof fn lemma_walk_covers(c: int, s: Seq<(u64, u64)>, last: int, al: int, y: int)
    requires
        al >= 1,
        c >= 0,
        c % al == 0,
        forall|i: int, j: int| 0 <= i < j < s.len() ==> (#[trigger] s[i]).0 <= (#[trigger] s[j]).0,
        forall|i: int|
            0 <= i < s.len() ==> (#[trigger] s[i]).0 <= last + 1 && s[i].1 < u64::MAX && s[i].0 <= s[i].1,
        y % al == 0,
        c <= y <= last,
        forall|i: int| 0 <= i < s.len() ==> !((#[trigger] s[i]).0 <= y && y <= s[i].1),
    ensures
        exists|k: int|
            0 <= k < walk(c, s, last, al).len() && (#[trigger] walk(c, s, last, al)[k]).0 <= y
                && y <= walk(c, s, last, al)[k].1,
    decreases s.len(),
{
    let w = walk(c, s, last, al);
    if s.len() == 0 {
        assert(w[0] == (c, last));
    } else {
        let st = s[0].0 as int;
        let e = s[0].1 as int;
        lemma_align_up(e + 1, al);
        let a = align_up(succ_sat(s[0].1), al);
        let nc = if c >= a {
            c
        } else {
            a
        };
        let t = s.drop_first();
        let head = if st > c {
            seq![(c, st - 1)]
        } else {
            Seq::<(int, int)>::empty()
        };
        let rest = walk(nc, t, last, al);
        assert(w == head + rest);
        if y < st {
            assert(w[0] == (c, st - 1));
        } else {
            assert(!(st <= y && y <= e));
            lemma_aligned_past(y, e + 1, al);
            assert forall|i: int, j: int| 0 <= i < j < t.len() implies (#[trigger] t[i]).0 <= (
            #[trigger] t[j]).0 by {
                assert(t[i] == s[i + 1] && t[j] == s[j + 1]);
            }
            assert forall|i: int| 0 <= i < t.len() implies (#[trigger] t[i]).0 <= last + 1 && t[i].1
                < u64::MAX && t[i].0 <= t[i].1 by {
                assert(t[i] == s[i + 1]);
            }
            assert forall|i: int| 0 <= i < t.len() implies !((#[trigger] t[i]).0 <= y && y <= t[i].1) by {
                assert(t[i] == s[i + 1]);
            }
            lemma_walk_covers(nc, t, last, al, y);
            let k = choose|k: int| 0 <= k < rest.len() && (#[trigger] rest[k]).0 <= y && y <= rest[k].1;
            assert(w[head.len() + k] == rest[k]);
        }
    }
}

/// The free runs leave nothing out: every aligned sector of the usable range
/// that no partition holds lies in one of them.
pub proof fn lemma_free_extents_cover(g: Gpt, y: int)
    requires
        g.extents_computable(),
        g.healthy(),
        g.last_usable_lba < u64::MAX,
        y % spec_align_sectors(g.sector_size) == 0,
        g.first_usable_lba <= y <= g.last_usable_lba,
        forall|i: int| 0 <= i < g.entries@.len() ==> !(#[trigger] g.entries@[i]).spec_overlaps(y as u64, y as u64),
    ensures
        exists|k: int|
            0 <= k < spec_free_extents(g).len() && (#[trigger] spec_free_extents(g)[k]).0 <= y
                && y <= spec_free_extents(g)[k].1,
{
    let al = spec_align_sectors(g.sector_size);
    assert(al >= 1) by (nonlinear_arith)
        requires
            al == spec_align_sectors(g.sector_size),
    ;
    let es = g.entries@;
    let up = used_pairs(es);
    let sorted = sort_pairs(up);
    lemma_used_pairs(es);
    lemma_sort_pairs(up);
    let c0 = align_up(g.first_usable_lba as int, al);
    lemma_align_up(g.first_usable_lba as int, al);
    lemma_aligned_past(y, g.first_usable_lba as int, al);
    assert forall|i: int, j: int| 0 <= i < j < sorted.len() implies (#[trigger] sorted[i]).0 <= (
    #[trigger] sorted[j]).0 by {
        assert(pair_le(sorted[i], sorted[j]));
    }
    assert forall|i: int| 0 <= i < sorted.len() implies (#[trigger] sorted[i]).0 <= g.last_usable_lba + 1
        && sorted[i].1 < u64::MAX && sorted[i].0 <= sorted[i].1 && !(sorted[i].0 <= y && y
        <= sorted[i].1) by {
        let z = sorted[i];
        assert(sorted.contains(z));
        assert(up.contains(z));
        let m = choose|m: int|
            0 <= m < es.len() && (#[trigger] es[m]).spec_is_used() && z == (
                es[m].starting_lba,
                es[m].ending_lba,
            );
        assert(g.entry_healthy(es[m]));
        assert(!es[m].spec_overlaps(y as u64, y as u64));
    }
    lemma_walk_covers(c0, sorted, g.last_usable_lba as int, al, y);
    let w = walk(c0, sorted, g.last_usable_lba as int, al);
    assert(spec_free_extents(g) == w);
    let k = choose|k: int| 0 <= k < w.len() && (#[trigger] w[k]).0 <= y && y <= w[k].1;
    assert(spec_free_extents(g)[k] == w[k]);
}

/// The free runs of a healthy table: each starts on an alignment boundary,
/// lies inside the usable range, ends no earlier than it starts and meets no
/// partition; and they come in ascending order, apart from each other.
pub proof fn lemma_free_extents_sound(g: Gpt)
    requires
        g.extents_computable(),
        g.healthy(),
        g.last_usable_lba < u64::MAX,
    ensures
        forall|k: int|
            0 <= k < spec_free_extents(g).len() ==> {
                let x = #[trigger] spec_free_extents(g)[k];
                &&& x.0 % spec_align_sectors(g.sector_size) == 0
                &&& g.first_usable_lba <= x.0 <= x.1 <= g.last_usable_lba
                &&& forall|i: int|
                    0 <= i < g.entries@.len() ==> !(#[trigger] g.entries@[i]).spec_overlaps(
                        x.0 as u64,
                        x.1 as u64,
                    )
            },
        forall|i: int, j: int|
            0 <= i < j < spec_free_extents(g).len() ==> (#[trigger] spec_free_extents(g)[i]).1 < (
            #[trigger] spec_free_extents(g)[j]).0,
{
    let al = spec_align_sectors(g.sector_size);
    assert(al >= 1) by (nonlinear_arith)
        requires
            al == spec_align_sectors(g.sector_size),
    ;
    let es = g.entries@;
    let up = used_pairs(es);
    let sorted = sort_pairs(up);
    lemma_used_pairs(es);
    lemma_sort_pairs(up);
    let c0 = align_up(g.first_usable_lba as int, al);
    lemma_align_up(g.first_usable_lba as int, al);
    assert forall|i: int, j: int| 0 <= i < j < sorted.len() implies (#[trigger] sorted[i]).0 <= (
    #[trigger] sorted[j]).0 by {
        assert(pair_le(sorted[i], sorted[j]));
    }
    assert forall|i: int| 0 <= i < sorted.len() implies (#[trigger] sorted[i]).0 <= g.last_usable_lba + 1
        && sorted[i].1 < u64::MAX && sorted[i].0 <= sorted[i].1 by {
        let y = sorted[i];
        assert(sorted.contains(y));
        assert(up.contains(y));
        let m = choose|m: int|
            0 <= m < es.len() && (#[trigger] es[m]).spec_is_used() && y == (
                es[m].starting_lba,
                es[m].ending_lba,
            );
        assert(g.entry_healthy(es[m]));
    }
    let last = g.last_usable_lba as int;
    lemma_walk(c0, sorted, last, al);
    lemma_walk_ascending(c0, sorted, last, al);
    let x = spec_free_extents(g);
    assert forall|k: int| 0 <= k < x.len() implies {
        let e = #[trigger] x[k];
        &&& e.0 % al == 0
        &&& g.first_usable_lba <= e.0 <= e.1 <= g.last_usable_lba
        &&& forall|i: int|
            0 <= i < g.entries@.len() ==> !(#[trigger] g.entries@[i]).spec_overlaps(e.0 as u64, e.1 as u64)
    } by {
        let e = x[k];
        assert forall|i: int| 0 <= i < g.entries@.len() implies !(#[trigger] g.entries@[i]).spec_overlaps(
            e.0 as u64,
            e.1 as u64,
        ) by {
            if es[i].spec_is_used() {
                let y = (es[i].starting_lba, es[i].ending_lba);
                assert(up.contains(y));
                assert(sorted.contains(y));
                let m = choose|m: int| 0 <= m < sorted.len() && sorted[m] == y;
                assert(!((#[trigger] sorted[m]).0 <= e.1 && e.0 <= sorted[m].1));
            }
        }
    }
}

// --------------------------------------------------------------------------
// Structural problems.

/// The problems `problems` reports about one used entry, 1-based index `n`.
pub open spec fn entry_problems(g: Gpt, n: int, e: GptEntry) -> Seq<Seq<char>> {
    (if e.starting_lba < g.first_usable_lba || e.ending_lba > g.last_usable_lba {
        seq![
            "partition "@ + decimal(n as nat) + " ("@ + decimal(e.starting_lba as nat) + ".."@
                + decimal(e.ending_lba as nat) + ") lies outside the usable range "@ + decimal(
                g.first_usable_lba as nat,
            ) + ".."@ + decimal(g.last_usable_lba as nat),
        ]
    } else {
        Seq::empty()
    }) + (if e.ending_lba < e.starting_lba {
        seq!["partition "@ + decimal(n as nat) + " ends before it starts"@]
    } else {
        Seq::empty()
    }) + (if (e.starting_lba as int) % g.spec_align() != 0 {
        seq![
            "partition "@ + decimal(n as nat) + " starts at "@ + decimal(e.starting_lba as nat)
                + ", which is not "@ + decimal(g.spec_align() as nat) + "-sector aligned"@,
        ]
    } else {
        Seq::empty()
    })
}

/// Per-entry problems of the used entries `parts` (indices into the table).
pub open spec fn range_problems(g: Gpt, parts: Seq<int>) -> Seq<Seq<char>>
    decreases parts.len(),
{
    if parts.len() == 0 {
        Seq::empty()
    } else {
        range_problems(g, parts.drop_last()) + entry_problems(
            g,
            parts.last() + 1,
            g.entries@[parts.last()],
        )
    }
}

/// Overlap reports of entry `i` against each entry of `rest`.
pub open spec fn pair_problems(g: Gpt, i: int, rest: Seq<int>) -> Seq<Seq<char>>
    decreases rest.len(),
{
    if rest.len() == 0 {
        Seq::empty()
    } else {
        pair_problems(g, i, rest.drop_last()) + (if g.entries@[i].spec_overlaps(
            g.entries@[rest.last()].starting_lba,
            g.entries@[rest.last()].ending_lba,
        ) {
            seq!["partitions "@ + decimal((i + 1) as nat) + " and "@ + decimal((rest.last() + 1) as nat) + " overlap"@]
        } else {
            Seq::empty()
        })
    }
}

/// Overlap reports for every pair of `parts`, earlier one first.
pub open spec fn overlap_problems(g: Gpt, parts: Seq<int>) -> Seq<Seq<char>>
    decreases parts.len(),
{
    if parts.len() == 0 {
        Seq::empty()
    } else {
        pair_problems(g, parts[0], parts.drop_first()) + overlap_problems(g, parts.drop_first())
    }
}

/// Everything `problems` reports, in order.
pub open spec fn problem_list(g: Gpt) -> Seq<Seq<char>> {
    range_problems(g, used_idx(g.entries@)) + overlap_problems(g, used_idx(g.entries@))
}

fn push_text(out: &mut Vec<String>, v: &Vec<char>)
    ensures
        final(out)@.len() == old(out)@.len() + 1,
        forall|k: int| 0 <= k < old(out)@.len() ==> #[trigger] final(out)@[k] == old(out)@[k],
        final(out)@[old(out)@.len() as int]@ == v@,
{
    out.push(string_from_chars(v));
}

/// The views of a vector of strings.
pub open spec fn views(v: Seq<String>) -> Seq<Seq<char>> {
    v.map_values(|s: String| s@)
}

impl Gpt {
    /// Structural problems a caller should be told about. Empty means healthy.
    pub fn problems(&self) -> (out: Vec<String>)
        requires
            self.sector_size > 0,
        ensures
            views(out@) == problem_list(*self),
    {
        let mut out: Vec<String> = Vec::new();
        let align = Self::align_sectors(self.sector_size);
        let parts = self.partitions();
        let ghost ps = used_idx(self.entries@);
        let mut a: usize = 0;
        while a < parts.len()
            invariant
                align == self.spec_align(),
                parts@.len() == ps.len(),
                forall|k: int|
                    0 <= k < parts@.len() ==> (#[trigger] parts@[k]).0 == ps[k] + 1 && *parts@[k].1
                        == self.entries@[ps[k]],
                0 <= a <= parts@.len(),
                views(out@) == range_problems(*self, ps.take(a as int)),
            decreases parts@.len() - a,
        {
            let (i, e) = parts[a];
            let ghost before = views(out@);
            proof {
                assert(ps.take(a + 1).drop_last() =~= ps.take(a as int));
                assert(ps.take(a + 1).last() == ps[a as int]);
            }
            let mut msgs: Vec<Vec<char>> = Vec::new();
            if e.starting_lba < self.first_usable() || e.ending_lba > self.last_usable() {
                let mut v: Vec<char> = Vec::new();
                extend_str(&mut v, "partition ");
                extend_chars(&mut v, &u64_decimal(i as u64));
                extend_str(&mut v, " (");
                extend_chars(&mut v, &u64_decimal(e.starting_lba));
                extend_str(&mut v, "..");
                extend_chars(&mut v, &u64_decimal(e.ending_lba));
                extend_str(&mut v, ") lies outside the usable range ");
                extend_chars(&mut v, &u64_decimal(self.first_usable()));
                extend_str(&mut v, "..");
                extend_chars(&mut v, &u64_decimal(self.last_usable()));
                push_text(&mut out, &v);
            }
            if e.ending_lba < e.starting_lba {
                let mut v: Vec<char> = Vec::new();
                extend_str(&mut v, "partition ");
                extend_chars(&mut v, &u64_decimal(i as u64));
                extend_str(&mut v, " ends before it starts");
                push_text(&mut out, &v);
            }
            if e.starting_lba % align != 0 {
                let mut v: Vec<char> = Vec::new();
                extend_str(&mut v, "partition ");
                extend_chars(&mut v, &u64_decimal(i as u64));
                extend_str(&mut v, " starts at ");
                extend_chars(&mut v, &u64_decimal(e.starting_lba));
                extend_str(&mut v, ", which is not ");
                extend_chars(&mut v, &u64_decimal(align));
                extend_str(&mut v, "-sector aligned");
                push_text(&mut out, &v);
            }
            assert(views(out@) =~= before + entry_problems(*self, ps[a as int] + 1, self.entries@[ps[a as int]]));
            a += 1;
        }
        assert(ps.take(ps.len() as int) =~= ps);
        let ghost ranges = views(out@);
        let mut a: usize = 0;
        assert(ps.skip(0) =~= ps);
        while a < parts.len()
            invariant
                parts@.len() == ps.len(),
                forall|k: int|
                    0 <= k < parts@.len() ==> (#[trigger] parts@[k]).0 == ps[k] + 1 && *parts@[k].1
                        == self.entries@[ps[k]],
                0 <= a <= parts@.len(),
                views(out@) + overlap_problems(*self, ps.skip(a as int)) == ranges + overlap_problems(
                    *self,
                    ps,
                ),
            decreases parts@.len() - a,
        {
            let (i, x) = parts[a];
            let ghost start = views(out@);
            let ghost rest = ps.skip(a + 1);
            proof {
                assert(ps.skip(a as int)[0] == ps[a as int]);
                assert(ps.skip(a as int).drop_first() =~= rest);
            }
            let mut b: usize = a + 1;
            while b < parts.len()
                invariant
                    parts@.len() == ps.len(),
                    forall|k: int|
                        0 <= k < parts@.len() ==> (#[trigger] parts@[k]).0 == ps[k] + 1 && *parts@[k].1
                            == self.entries@[ps[k]],
                    a < b <= parts@.len(),
                    i == ps[a as int] + 1,
                    *x == self.entries@[ps[a as int]],
                    rest == ps.skip(a + 1),
                    views(out@) == start + pair_problems(*self, ps[a as int], rest.take(b - a - 1)),
                decreases parts@.len() - b,
            {
                let (j, y) = parts[b];
                let ghost before = views(out@);
                proof {
                    assert(rest.take(b - a).drop_last() =~= rest.take(b - a - 1));
                    assert(rest.take(b - a).last() == ps[b as int]);
                }
                let ghost pb = ps[b as int];
                let ghost pa = ps[a as int];
                assert(*y == self.entries@[pb]);
                assert(j == pb + 1);
                let ghost tail = (if self.entries@[pa].spec_overlaps(
                    self.entries@[pb].starting_lba,
                    self.entries@[pb].ending_lba,
                ) {
                    seq!["partitions "@ + decimal((pa + 1) as nat) + " and "@ + decimal((pb + 1) as nat) + " overlap"@]
                } else {
                    Seq::<Seq<char>>::empty()
                });
                assert(pair_problems(*self, pa, rest.take(b - a)) == pair_problems(*self, pa, rest.take(b - a - 1)) + tail);
                if x.overlaps(y.starting_lba, y.ending_lba) {
                    let mut v: Vec<char> = Vec::new();
                    extend_str(&mut v, "partitions ");
                    extend_chars(&mut v, &u64_decimal(i as u64));
                    extend_str(&mut v, " and ");
                    extend_chars(&mut v, &u64_decimal(j as u64));
                    extend_str(&mut v, " overlap");
                    push_text(&mut out, &v);
                    assert(views(out@) =~= before + tail);
                } else {
                    assert(views(out@) =~= before + tail);
                }
                assert(views(out@) =~= start + pair_problems(*self, ps[a as int], rest.take(b - a)));
                b += 1;
            }
            proof {
                assert(rest.take(rest.len() as int) =~= rest);
            }
            a += 1;
        }
        assert(ps.skip(ps.len() as int) =~= Seq::<int>::empty());
        assert(views(out@) =~= problem_list(*self));
        out
    }
}

pub proof fn lemma_used_idx(es: Seq<GptEntry>)
    ensures
        forall|k: int|
            0 <= k < used_idx(es).len() ==> 0 <= #[trigger] used_idx(es)[k] < es.len() && es[used_idx(
                es,
            )[k]].spec_is_used(),
        forall|k: int, l: int|
            0 <= k < l < used_idx(es).len() ==> #[trigger] used_idx(es)[k] < #[trigger] used_idx(es)[l],
        forall|i: int|
            0 <= i < es.len() && (#[trigger] es[i]).spec_is_used() ==> exists|k: int|
                0 <= k < used_idx(es).len() && #[trigger] used_idx(es)[k] == i,
    decreases es.len(),
{
    if es.len() > 0 {
        let init = es.drop_last();
        lemma_used_idx(init);
        let p = used_idx(es);
        let q = used_idx(init);
        assert forall|k: int| 0 <= k < p.len() implies 0 <= #[trigger] p[k] < es.len()
            && es[p[k]].spec_is_used() by {
            if k < q.len() {
                assert(p[k] == q[k]);
                assert(es[q[k]] == init[q[k]]);
            }
        }
        assert forall|k: int, l: int| 0 <= k < l < p.len() implies #[trigger] p[k] < #[trigger] p[l] by {
            if l < q.len() {
                assert(p[k] == q[k] && p[l] == q[l]);
            } else {
                assert(p[k] == q[k]);
            }
        }
        assert forall|i: int| 0 <= i < es.len() && (#[trigger] es[i]).spec_is_used() implies exists|k: int|
            0 <= k < p.len() && #[trigger] p[k] == i by {
            if i < es.len() - 1 {
                assert(init[i] == es[i]);
                let k = choose|k: int| 0 <= k < q.len() && #[trigger] q[k] == i;
                assert(p[k] == q[k]);
            } else {
                assert(p[p.len() - 1] == i);
            }
        }
    }
}

proof fn lemma_range_empty(g: Gpt, ps: Seq<int>)
    ensures
        range_problems(g, ps).len() == 0 <==> forall|k: int|
            0 <= k < ps.len() ==> entry_problems(g, ps[k] + 1, g.entries@[#[trigger] ps[k]]).len() == 0,
    decreases ps.len(),
{
    if ps.len() > 0 {
        lemma_range_empty(g, ps.drop_last());
        if range_problems(g, ps).len() == 0 {
            assert forall|k: int| 0 <= k < ps.len() implies entry_problems(
                g,
                ps[k] + 1,
                g.entries@[#[trigger] ps[k]],
            ).len() == 0 by {
                if k < ps.len() - 1 {
                    assert(ps.drop_last()[k] == ps[k]);
                }
            }
        }
        if forall|k: int|
            0 <= k < ps.len() ==> entry_problems(g, ps[k] + 1, g.entries@[#[trigger] ps[k]]).len() == 0 {
            assert forall|k: int| 0 <= k < ps.drop_last().len() implies entry_problems(
                g,
                ps.drop_last()[k] + 1,
                g.entries@[#[trigger] ps.drop_last()[k]],
            ).len() == 0 by {
                assert(ps.drop_last()[k] == ps[k]);
            }
            assert(ps.last() == ps[ps.len() - 1]);
        }
    }
}

proof fn lemma_pair_empty(g: Gpt, i: int, rest: Seq<int>)
    ensures
        pair_problems(g, i, rest).len() == 0 <==> forall|k: int|
            0 <= k < rest.len() ==> !g.entries@[i].spec_overlaps(
                g.entries@[#[trigger] rest[k]].starting_lba,
                g.entries@[rest[k]].ending_lba,
            ),
    decreases rest.len(),
{
    if rest.len() > 0 {
        lemma_pair_empty(g, i, rest.drop_last());
        if pair_problems(g, i, rest).len() == 0 {
            assert forall|k: int| 0 <= k < rest.len() implies !g.entries@[i].spec_overlaps(
                g.entries@[#[trigger] rest[k]].starting_lba,
                g.entries@[rest[k]].ending_lba,
            ) by {
                if k < rest.len() - 1 {
                    assert(rest.drop_last()[k] == rest[k]);
                }
            }
        }
        if forall|k: int|
            0 <= k < rest.len() ==> !g.entries@[i].spec_overlaps(
                g.entries@[#[trigger] rest[k]].starting_lba,
                g.entries@[rest[k]].ending_lba,
            ) {
            assert forall|k: int| 0 <= k < rest.drop_last().len() implies !g.entries@[i].spec_overlaps(
                g.entries@[#[trigger] rest.drop_last()[k]].starting_lba,
                g.entries@[rest.drop_last()[k]].ending_lba,
            ) by {
                assert(rest.drop_last()[k] == rest[k]);
            }
            assert(rest.last() == rest[rest.len() - 1]);
        }
    }
}

proof fn lemma_overlap_empty(g: Gpt, ps: Seq<int>)
    ensures
        overlap_problems(g, ps).len() == 0 <==> forall|a: int, b: int|
            0 <= a < b < ps.len() ==> !g.entries@[#[trigger] ps[a]].spec_overlaps(
                g.entries@[#[trigger] ps[b]].starting_lba,
                g.entries@[ps[b]].ending_lba,
            ),
    decreases ps.len(),
{
    if ps.len() > 0 {
        let t = ps.drop_first();
        lemma_overlap_empty(g, t);
        lemma_pair_empty(g, ps[0], t);
        if overlap_problems(g, ps).len() == 0 {
            assert forall|a: int, b: int| 0 <= a < b < ps.len() implies !g.entries@[#[trigger] ps[a]].spec_overlaps(
                g.entries@[#[trigger] ps[b]].starting_lba,
                g.entries@[ps[b]].ending_lba,
            ) by {
                if a == 0 {
                    assert(t[b - 1] == ps[b]);
                } else {
                    assert(t[a - 1] == ps[a] && t[b - 1] == ps[b]);
                }
            }
        }
        if forall|a: int, b: int|
            0 <= a < b < ps.len() ==> !g.entries@[#[trigger] ps[a]].spec_overlaps(
                g.entries@[#[trigger] ps[b]].starting_lba,
                g.entries@[ps[b]].ending_lba,
            ) {
            assert forall|k: int| 0 <= k < t.len() implies !g.entries@[ps[0]].spec_overlaps(
                g.entries@[#[trigger] t[k]].starting_lba,
                g.entries@[t[k]].ending_lba,
            ) by {
                assert(t[k] == ps[k + 1]);
            }
            assert forall|a: int, b: int| 0 <= a < b < t.len() implies !g.entries@[#[trigger] t[a]].spec_overlaps(
                g.entries@[#[trigger] t[b]].starting_lba,
                g.entries@[t[b]].ending_lba,
            ) by {
                assert(t[a] == ps[a + 1] && t[b] == ps[b + 1]);
            }
        }
    }
}

/// `problems` reports nothing exactly when the table is healthy: every used
/// entry inside the usable range, well-ordered and aligned, and no two
/// overlapping.
pub proof fn lemma_problems_empty_iff_healthy(g: Gpt)
    requires
        g.sector_size > 0,
    ensures
        problem_list(g).len() == 0 <==> g.healthy(),
{
    let es = g.entries@;
    let ps = used_idx(es);
    lemma_used_idx(es);
    lemma_range_empty(g, ps);
    lemma_overlap_empty(g, ps);
    let ok_entries = forall|i: int|
        0 <= i < es.len() && (#[trigger] es[i]).spec_is_used() ==> g.entry_healthy(es[i]);
    assert forall|i: int| 0 <= i < es.len() implies #[trigger] g.entry_healthy(es[i])
        <==> entry_problems(g, i + 1, es[i]).len() == 0 by {}
    if problem_list(g).len() == 0 {
        assert(range_problems(g, ps).len() == 0);
        assert(overlap_problems(g, ps).len() == 0);
        assert forall|i: int| 0 <= i < es.len() && (#[trigger] es[i]).spec_is_used() implies g.entry_healthy(
            es[i]) by {
            let k = choose|k: int| 0 <= k < ps.len() && #[trigger] ps[k] == i;
            assert(entry_problems(g, ps[k] + 1, es[ps[k]]).len() == 0);
        }
        assert forall|i: int, j: int|
            0 <= i < j < es.len() && es[i].spec_is_used() && es[j].spec_is_used() implies !(
            #[trigger] es[i]).spec_overlaps((#[trigger] es[j]).starting_lba, es[j].ending_lba) by {
            let a = choose|a: int| 0 <= a < ps.len() && #[trigger] ps[a] == i;
            let b = choose|b: int| 0 <= b < ps.len() && #[trigger] ps[b] == j;
            if b < a {
                assert(ps[b] < ps[a]);
            }
            assert(a != b);
        }
    }
    if g.healthy() {
        assert forall|k: int| 0 <= k < ps.len() implies entry_problems(
            g,
            ps[k] + 1,
            g.entries@[#[trigger] ps[k]],
        ).len() == 0 by {
            assert(es[ps[k]].spec_is_used());
            assert(g.entry_healthy(es[ps[k]]));
        }
        assert forall|a: int, b: int| 0 <= a < b < ps.len() implies !g.entries@[#[trigger] ps[a]].spec_overlaps(
            g.entries@[#[trigger] ps[b]].starting_lba,
            g.entries@[ps[b]].ending_lba,
        ) by {
            assert(ps[a] < ps[b]);
            assert(es[ps[a]].spec_is_used() && es[ps[b]].spec_is_used());
        }
    }
}

} // verus!
