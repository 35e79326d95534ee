//! The GPT header (UEFI 2.10 §5.3.2), and the CRC discipline around it.
//!
//! `header_crc32` covers the first `header_size` bytes of the header with its
//! own field zeroed; `entries_crc32` covers the whole entry array. Both are
//! CRC-32/ISO-HDLC.
use crate::bytes::{splice, write_at, zeros};
use crate::part::error::{PartError, Result};
use crate::part::guid::Guid;
use crate::text::{decimal, extend_chars, extend_str, hex_digit_lower, hex_lower, string_from_chars, u64_decimal};
use vstd::bytes::{
    lemma_auto_spec_u32_to_from_le_bytes, lemma_auto_spec_u64_to_from_le_bytes,
    spec_u32_from_le_bytes, spec_u32_to_le_bytes, spec_u64_from_le_bytes, spec_u64_to_le_bytes,
    u32_to_le_bytes, u64_to_le_bytes,
};
use vstd::prelude::*;

verus! {

pub const REVISION: u32 = 0x0001_0000;

/// The spec fixes the header at 92 bytes; the rest of its sector is zero.
pub const HEADER_SIZE: u32 = 92;

/// Spec minimums that every real-world tool also uses.
pub const ENTRY_SIZE: u32 = 128;

pub const NUM_ENTRIES: u32 = 128;

/// The eight signature bytes, `EFI PART`.
pub open spec fn signature_bytes() -> Seq<u8> {
    seq![0x45u8, 0x46u8, 0x49u8, 0x20u8, 0x50u8, 0x41u8, 0x52u8, 0x54u8]
}

/// The signature that opens every GPT header: `EFI PART`.
pub fn signature() -> (s: Vec<u8>)
    ensures
        s@ == signature_bytes(),
{
    let s = vec![0x45u8, 0x46u8, 0x49u8, 0x20u8, 0x50u8, 0x41u8, 0x52u8, 0x54u8];
    assert(s@ =~= signature_bytes());
    s
}

/// One bit step of the reflected CRC-32 register: shift right, and fold in
/// the reflected polynomial `0xEDB88320` (0x04C11DB7 bit-reversed) when the
/// bit shifted out was set.
pub open spec fn crc_step(s: u32) -> u32 {
    if s & 1 == 1 {
        (s >> 1) ^ 0xEDB8_8320u32
    } else {
        s >> 1
    }
}

/// The register after taking in byte `b`: the byte folded into the low
/// bits, then eight bit steps.
pub open spec fn crc_byte(s: u32, b: u8) -> u32 {
    crc_step(crc_step(crc_step(crc_step(crc_step(crc_step(crc_step(crc_step(s ^ (b as u32)))))))))
}

/// The register after taking in the bytes `d` in order, from `s`.
pub open spec fn crc_register(s: u32, d: Seq<u8>) -> u32
    decreases d.len(),
{
    if d.len() == 0 {
        s
    } else {
        crc_register(crc_byte(s, d[0]), d.drop_first())
    }
}

/// The CRC-32/ISO-HDLC checksum of `data`: width 32, polynomial 0x04C11DB7,
/// input and output reflected, register starting at all ones and inverted at
/// the end.
#[verifier::opaque]
pub open spec fn crc32_iso_hdlc(data: Seq<u8>) -> u32 {
    crc_register(0xFFFF_FFFFu32, data) ^ 0xFFFF_FFFFu32
}

proof fn lemma_crc_step_injective(x: u32, y: u32)
    requires
        crc_step(x) == crc_step(y),
    ensures
        x == y,
{
    assert(((if x & 1 == 1 { (x >> 1) ^ 0xEDB8_8320u32 } else { x >> 1 }) == (if y & 1 == 1 {
        (y >> 1) ^ 0xEDB8_8320u32
    } else {
        y >> 1
    })) ==> x == y) by (bit_vector);
}

proof fn lemma_crc_byte_injective(s1: u32, s2: u32, b1: u8, b2: u8)
    requires
        crc_byte(s1, b1) == crc_byte(s2, b2),
    ensures
        (s1 ^ (b1 as u32)) == (s2 ^ (b2 as u32)),
{
    let x = s1 ^ (b1 as u32);
    let y = s2 ^ (b2 as u32);
    let x4 = crc_step(crc_step(crc_step(crc_step(x))));
    let y4 = crc_step(crc_step(crc_step(crc_step(y))));
    let x5 = crc_step(x4);
    let y5 = crc_step(y4);
    let x6 = crc_step(x5);
    let y6 = crc_step(y5);
    let x7 = crc_step(x6);
    let y7 = crc_step(y6);
    lemma_crc_step_injective(x7, y7);
    lemma_crc_step_injective(x6, y6);
    lemma_crc_step_injective(x5, y5);
    lemma_crc_step_injective(x4, y4);
    lemma_crc_step_injective(crc_step(crc_step(crc_step(x))), crc_step(crc_step(crc_step(y))));
    lemma_crc_step_injective(crc_step(crc_step(x)), crc_step(crc_step(y)));
    lemma_crc_step_injective(crc_step(x), crc_step(y));
    lemma_crc_step_injective(x, y);
}

proof fn lemma_crc_register_apart(s1: u32, s2: u32, d: Seq<u8>)
    requires
        s1 != s2,
    ensures
        crc_register(s1, d) != crc_register(s2, d),
    decreases d.len(),
{
    if d.len() > 0 {
        if crc_byte(s1, d[0]) == crc_byte(s2, d[0]) {
            lemma_crc_byte_injective(s1, s2, d[0], d[0]);
            let b = d[0] as u32;
            assert((s1 ^ b) == (s2 ^ b) ==> s1 == s2) by (bit_vector);
        }
        lemma_crc_register_apart(crc_byte(s1, d[0]), crc_byte(s2, d[0]), d.drop_first());
    }
}

proof fn lemma_crc_register_one_byte(s: u32, d: Seq<u8>, k: int, v: u8)
    requires
        0 <= k < d.len(),
        v != d[k],
    ensures
        crc_register(s, d) != crc_register(s, d.update(k, v)),
    decreases d.len(),
{
    let e = d.update(k, v);
    if k == 0 {
        if crc_byte(s, d[0]) == crc_byte(s, e[0]) {
            lemma_crc_byte_injective(s, s, d[0], e[0]);
            let x = d[0] as u32;
            let y = e[0] as u32;
            assert((s ^ x) == (s ^ y) ==> x == y) by (bit_vector);
        }
        assert(e.drop_first() =~= d.drop_first());
        lemma_crc_register_apart(crc_byte(s, d[0]), crc_byte(s, e[0]), d.drop_first());
    } else {
        assert(e.drop_first() =~= d.drop_first().update(k - 1, v));
        lemma_crc_register_one_byte(crc_byte(s, d[0]), d.drop_first(), k - 1, v);
    }
}

/// CRC-32 catches every change of a single byte: two inputs of the same
/// length that differ in one byte have different checksums.
pub proof fn lemma_crc_detects_byte_change(d: Seq<u8>, k: int, v: u8)
    requires
        0 <= k < d.len(),
        v != d[k],
    ensures
        crc32_iso_hdlc(d) != crc32_iso_hdlc(d.update(k, v)),
{
    reveal(crc32_iso_hdlc);
    lemma_crc_register_one_byte(0xFFFF_FFFFu32, d, k, v);
    let a = crc_register(0xFFFF_FFFFu32, d);
    let b = crc_register(0xFFFF_FFFFu32, d.update(k, v));
    assert(a != b ==> (a ^ 0xFFFF_FFFFu32) != (b ^ 0xFFFF_FFFFu32)) by (bit_vector);
}

/// CRC-32/ISO-HDLC, the algorithm GPT specifies for both of its checksums
/// (`crc_fast::crc32_iso_hdlc`).
///
/// The contract says the result is the CRC-32/ISO-HDLC checksum as the
/// catalogue of CRC algorithms defines it (the parameters `crc_fast` is
/// built with), stated bit by bit in `crc32_iso_hdlc`.
#[verifier::external_body]
pub fn crc32(data: &[u8]) -> (r: u32)
    ensures
        r == crc32_iso_hdlc(data@),
{
    crc_fast::crc32_iso_hdlc(data)
}

#[derive(Clone, Debug, PartialEq, Eq)]
pub struct GptHeader {
    pub my_lba: u64,
    pub alternate_lba: u64,
    pub first_usable_lba: u64,
    pub last_usable_lba: u64,
    pub disk_guid: Guid,
    pub entry_array_lba: u64,
    pub num_entries: u32,
    pub entry_size: u32,
    pub entries_crc32: u32,
}

/// The 92 header bytes with the header CRC field still zero.
pub open spec fn header_body(h: GptHeader) -> Seq<u8> {
    signature_bytes() + spec_u32_to_le_bytes(REVISION) + spec_u32_to_le_bytes(HEADER_SIZE) + zeros(8)
        + spec_u64_to_le_bytes(h.my_lba) + spec_u64_to_le_bytes(h.alternate_lba)
        + spec_u64_to_le_bytes(h.first_usable_lba) + spec_u64_to_le_bytes(h.last_usable_lba)
        + h.disk_guid.0@ + spec_u64_to_le_bytes(h.entry_array_lba) + spec_u32_to_le_bytes(
        h.num_entries,
    ) + spec_u32_to_le_bytes(h.entry_size) + spec_u32_to_le_bytes(h.entries_crc32)
}

/// The whole header sector: the body with its CRC filled in, zero to the end.
pub open spec fn header_sector(h: GptHeader, sector_size: nat) -> Seq<u8> {
    splice(header_body(h), 16, spec_u32_to_le_bytes(crc32_iso_hdlc(header_body(h))))
        + zeros((sector_size - 92) as nat)
}

/// `x` as `{:#010x}` formats it: `0x` and eight lower-case hexadecimal digits.
pub open spec fn hex32(x: u32) -> Seq<char> {
    seq!['0', 'x'] + Seq::new(8, |i: int| hex_digit_lower(((x as nat) / pow16((7 - i) as nat)) % 16))
}

pub open spec fn pow16(n: nat) -> nat
    decreases n,
{
    if n == 0 {
        1
    } else {
        16 * pow16((n - 1) as nat)
    }
}

/// Why a header sector is refused, in the order the checks are made.
pub enum HeaderFault {
    TooShort,
    NoSignature,
    BadSize(u32),
    BadCrc(u32, u32),
    BadEntrySize(u32),
}

/// The header size a sector declares.
pub open spec fn declared_size(b: Seq<u8>) -> u32 {
    spec_u32_from_le_bytes(b.subrange(12, 16))
}

/// The bytes the header CRC is computed over: the declared size, CRC zeroed.
pub open spec fn crc_input(b: Seq<u8>) -> Seq<u8> {
    splice(b.take(declared_size(b) as int), 16, zeros(4))
}

pub open spec fn header_fault(b: Seq<u8>) -> Option<HeaderFault> {
    if b.len() < 92 {
        Some(HeaderFault::TooShort)
    } else if b.subrange(0, 8) != signature_bytes() {
        Some(HeaderFault::NoSignature)
    } else if !(92 <= declared_size(b) && declared_size(b) <= (b.len() % 0x1_0000_0000)) {
        Some(HeaderFault::BadSize(declared_size(b)))
    } else if spec_u32_from_le_bytes(b.subrange(16, 20)) != crc32_iso_hdlc(crc_input(b)) {
        Some(
            HeaderFault::BadCrc(
                spec_u32_from_le_bytes(b.subrange(16, 20)),
                crc32_iso_hdlc(crc_input(b)),
            ),
        )
    } else if spec_u32_from_le_bytes(b.subrange(84, 88)) < 128 || spec_u32_from_le_bytes(
        b.subrange(84, 88),
    ) % 8 != 0 {
        Some(HeaderFault::BadEntrySize(spec_u32_from_le_bytes(b.subrange(84, 88))))
    } else {
        None
    }
}

/// The error `GptHeader::parse` reports for a fault.
pub open spec fn fault_error(f: HeaderFault, e: PartError) -> bool {
    match f {
        HeaderFault::TooShort => e matches PartError::Damaged(m) && m@
            == "header sector is too short"@,
        HeaderFault::NoSignature => e is NoGpt,
        HeaderFault::BadSize(n) => e matches PartError::Damaged(m) && m@ == "header size "@
            + decimal(n as nat) + " is out of range"@,
        HeaderFault::BadCrc(stored, actual) => e matches PartError::Damaged(m) && m@
            == "header CRC mismatch (stored "@ + hex32(stored) + ", computed "@ + hex32(actual)
            + ")"@,
        HeaderFault::BadEntrySize(n) => e matches PartError::Damaged(m) && m@
            == "implausible partition entry size "@ + decimal(n as nat),
    }
}

/// Does `h` hold the fields that the sector `b` records?
pub open spec fn header_decodes(b: Seq<u8>, h: GptHeader) -> bool {
    &&& h.my_lba == spec_u64_from_le_bytes(b.subrange(24, 32))
    &&& h.alternate_lba == spec_u64_from_le_bytes(b.subrange(32, 40))
    &&& h.first_usable_lba == spec_u64_from_le_bytes(b.subrange(40, 48))
    &&& h.last_usable_lba == spec_u64_from_le_bytes(b.subrange(48, 56))
    &&& h.disk_guid.0@ == b.subrange(56, 72)
    &&& h.entry_array_lba == spec_u64_from_le_bytes(b.subrange(72, 80))
    &&& h.num_entries == spec_u32_from_le_bytes(b.subrange(80, 84))
    &&& h.entry_size == spec_u32_from_le_bytes(b.subrange(84, 88))
    &&& h.entries_crc32 == spec_u32_from_le_bytes(b.subrange(88, 92))
}

fn append_bytes(v: &mut Vec<u8>, t: Vec<u8>)
    ensures
        final(v)@ == old(v)@ + t@,
{
    let mut t = t;
    v.append(&mut t);
}

impl GptHeader {
    /// Serialise into a whole sector: 92 bytes of header, zero to the end, with
    /// the header CRC computed over the header with its own field zeroed.
    pub fn to_sector(&self, sector_size: usize) -> (s: Vec<u8>)
        requires
            sector_size >= 92,
        ensures
            s@ == header_sector(*self, sector_size as nat),
    {
        let mut v = signature();
        append_bytes(&mut v, u32_to_le_bytes(REVISION));
        append_bytes(&mut v, u32_to_le_bytes(HEADER_SIZE));
        append_bytes(&mut v, crate::bytes::zeroed(8));
        append_bytes(&mut v, u64_to_le_bytes(self.my_lba));
        append_bytes(&mut v, u64_to_le_bytes(self.alternate_lba));
        append_bytes(&mut v, u64_to_le_bytes(self.first_usable_lba));
        append_bytes(&mut v, u64_to_le_bytes(self.last_usable_lba));
        let g = self.disk_guid.as_bytes();
        let mut i: usize = 0;
        let ghost before = v@;
        while i < 16
            invariant
                0 <= i <= 16,
                g@ == self.disk_guid.0@,
                v@ == before + g@.take(i as int),
            decreases 16 - i,
        {
            v.push(g[i]);
            i += 1;
            assert(v@ =~= before + g@.take(i as int));
        }
        assert(g@.take(16) =~= g@);
        append_bytes(&mut v, u64_to_le_bytes(self.entry_array_lba));
        append_bytes(&mut v, u32_to_le_bytes(self.num_entries));
        append_bytes(&mut v, u32_to_le_bytes(self.entry_size));
        append_bytes(&mut v, u32_to_le_bytes(self.entries_crc32));
        proof {
            lemma_auto_spec_u32_to_from_le_bytes();
            lemma_auto_spec_u64_to_from_le_bytes();
            assert(v@ =~= header_body(*self));
        }
        let crc = crc32(v.as_slice());
        let c = u32_to_le_bytes(crc);
        write_at(&mut v, 16, c.as_slice());
        let ghost done = v@;
        while v.len() < sector_size
            invariant
                v@.len() <= sector_size,
                v@.len() >= 92,
                done.len() == 92,
                v@ == done + zeros((v@.len() - 92) as nat),
            decreases sector_size - v@.len(),
        {
            v.push(0u8);
            assert(v@ =~= done + zeros((v@.len() - 92) as nat));
        }
        v
    }

    /// Parse and validate a header sector. A header that fails is reported as
    /// damaged (or as no GPT at all, when the signature is missing).
    pub fn parse(sector: &[u8]) -> (r: Result<GptHeader>)
        ensures
            header_fault(sector@) matches Some(f) ==> (r matches Err(e) && fault_error(f, e)),
            header_fault(sector@) is None ==> (r matches Ok(h) && header_decodes(sector@, h)),
    {
        if sector.len() < 92 {
            return Err(PartError::Damaged(string_from_chars(&chars_vec("header sector is too short"))));
        }
        let sig = signature();
        let mut i: usize = 0;
        while i < 8
            invariant
                0 <= i <= 8,
                sector@.len() >= 92,
                sig@ == signature_bytes(),
                forall|j: int| 0 <= j < i ==> sector@[j] == sig@[j],
            decreases 8 - i,
        {
            if sector[i] != sig[i] {
                assert(sector@.subrange(0, 8)[i as int] != signature_bytes()[i as int]);
                return Err(PartError::NoGpt);
            }
            i += 1;
        }
        assert(sector@.subrange(0, 8) =~= signature_bytes());
        let header_size = crate::bytes::read_u32_le(sector, 12);
        let limit = ((sector.len() as u64) % 0x1_0000_0000) as u32;
        if !(92 <= header_size && header_size <= limit) {
            let mut v: Vec<char> = Vec::new();
            extend_str(&mut v, "header size ");
            let d = u64_decimal(header_size as u64);
            extend_chars(&mut v, &d);
            extend_str(&mut v, " is out of range");
            return Err(PartError::Damaged(string_from_chars(&v)));
        }
        let stored = crate::bytes::read_u32_le(sector, 16);
        let mut check = crate::bytes::slice_bytes(sector, 0, header_size as usize);
        let z = crate::bytes::zeroed(4);
        write_at(&mut check, 16, z.as_slice());
        let actual = crc32(check.as_slice());
        if stored != actual {
            let mut v: Vec<char> = Vec::new();
            extend_str(&mut v, "header CRC mismatch (stored ");
            let a = hex32_text(stored);
            extend_chars(&mut v, &a);
            extend_str(&mut v, ", computed ");
            let b = hex32_text(actual);
            extend_chars(&mut v, &b);
            extend_str(&mut v, ")");
            return Err(PartError::Damaged(string_from_chars(&v)));
        }
        let entry_size = crate::bytes::read_u32_le(sector, 84);
        if entry_size < ENTRY_SIZE || entry_size % 8 != 0 {
            let mut v: Vec<char> = Vec::new();
            extend_str(&mut v, "implausible partition entry size ");
            let d = u64_decimal(entry_size as u64);
            extend_chars(&mut v, &d);
            return Err(PartError::Damaged(string_from_chars(&v)));
        }
        let g = match Guid::from_bytes(&sector[56..72]) {
            Some(g) => g,
            None => Guid::zero(),
        };
        assert(sector@.subrange(56, 72).subrange(0, 16) =~= sector@.subrange(56, 72));
        Ok(
            GptHeader {
                my_lba: crate::bytes::read_u64_le(sector, 24),
                alternate_lba: crate::bytes::read_u64_le(sector, 32),
                first_usable_lba: crate::bytes::read_u64_le(sector, 40),
                last_usable_lba: crate::bytes::read_u64_le(sector, 48),
                disk_guid: g,
                entry_array_lba: crate::bytes::read_u64_le(sector, 72),
                num_entries: crate::bytes::read_u32_le(sector, 80),
                entry_size,
                entries_crc32: crate::bytes::read_u32_le(sector, 88),
            },
        )
    }
}

fn chars_vec(s: &str) -> (v: Vec<char>)
    ensures
        v@ == s@,
{
    crate::text::chars_of(s)
}

/// `{:#010x}` of a 32-bit value.
pub(crate) fn hex32_text(x: u32) -> (v: Vec<char>)
    ensures
        v@ == hex32(x),
{
    let mut v: Vec<char> = Vec::new();
    v.push('0');
    v.push('x');
    let mut i: usize = 0;
    let mut p: u64 = 0x1000_0000;
    proof {
        lemma_pow16_7();
    }
    while i < 8
        invariant
            0 <= i <= 8,
            i < 8 ==> p == pow16((7 - i) as nat),
            p >= 1,
            v@.len() == 2 + i,
            v@[0] == '0',
            v@[1] == 'x',
            forall|k: int|
                2 <= k < 2 + i ==> #[trigger] v@[k] == hex_digit_lower(
                    ((x as nat) / pow16((9 - k) as nat)) % 16,
                ),
        decreases 8 - i,
    {
        let d = ((x as u64) / p) % 16;
        v.push(hex_lower(d as u8));
        i += 1;
        if i < 8 {
            proof {
                assert(pow16((8 - i) as nat) == 16 * pow16((7 - i) as nat));
                lemma_pow16_pos((7 - i) as nat);
            }
            p = p / 16;
        }
    }
    assert(v@ =~= hex32(x));
    v
}

proof fn lemma_pow16_pos(n: nat)
    ensures
        pow16(n) >= 1,
    decreases n,
{
    if n > 0 {
        lemma_pow16_pos((n - 1) as nat);
    }
}

proof fn lemma_pow16_7()
    ensures
        pow16(7) == 0x1000_0000,
{
    reveal_with_fuel(pow16, 8);
}

/// Serialising a header and parsing the sector gives it back, for any sector
/// size that holds it and any entry size the parser accepts.
pub proof fn lemma_header_round_trip(h: GptHeader, sector_size: nat)
    requires
        sector_size >= 92,
        sector_size % 0x1_0000_0000 >= 92,
        h.entry_size >= 128,
        h.entry_size % 8 == 0,
        h.disk_guid.0@.len() == 16,
    ensures
        header_fault(header_sector(h, sector_size)) is None,
        header_decodes(header_sector(h, sector_size), h),
{
    lemma_auto_spec_u32_to_from_le_bytes();
    lemma_auto_spec_u64_to_from_le_bytes();
    let body = header_body(h);
    let crc = crc32_iso_hdlc(body);
    let b = header_sector(h, sector_size);
    assert(body.len() == 92);
    assert(b.subrange(0, 8) =~= signature_bytes());
    assert(b.subrange(12, 16) =~= spec_u32_to_le_bytes(HEADER_SIZE));
    assert(declared_size(b) == 92);
    assert(b.take(92) =~= splice(body, 16, spec_u32_to_le_bytes(crc)));
    assert(crc_input(b) =~= body);
    assert(b.subrange(16, 20) =~= spec_u32_to_le_bytes(crc));
    assert(b.subrange(24, 32) =~= spec_u64_to_le_bytes(h.my_lba));
    assert(b.subrange(32, 40) =~= spec_u64_to_le_bytes(h.alternate_lba));
    assert(b.subrange(40, 48) =~= spec_u64_to_le_bytes(h.first_usable_lba));
    assert(b.subrange(48, 56) =~= spec_u64_to_le_bytes(h.last_usable_lba));
    assert(b.subrange(56, 72) =~= h.disk_guid.0@);
    assert(b.subrange(72, 80) =~= spec_u64_to_le_bytes(h.entry_array_lba));
    assert(b.subrange(80, 84) =~= spec_u32_to_le_bytes(h.num_entries));
    assert(b.subrange(84, 88) =~= spec_u32_to_le_bytes(h.entry_size));
    assert(b.subrange(88, 92) =~= spec_u32_to_le_bytes(h.entries_crc32));
}

/// A written header sector with any one byte of the header changed, outside
/// the signature, the size field and the stored CRC, fails its CRC check.
pub proof fn lemma_header_byte_change_caught(h: GptHeader, sector_size: nat, k: int, v: u8)
    requires
        sector_size >= 92,
        sector_size % 0x1_0000_0000 >= 92,
        h.entry_size >= 128,
        h.entry_size % 8 == 0,
        h.disk_guid.0@.len() == 16,
        8 <= k < 12 || 20 <= k < 92,
        v != header_sector(h, sector_size)[k],
    ensures
        header_fault(header_sector(h, sector_size).update(k, v)) matches Some(HeaderFault::BadCrc(_, _)),
{
    lemma_header_round_trip(h, sector_size);
    let b = header_sector(h, sector_size);
    let c = b.update(k, v);
    assert(c.subrange(0, 8) =~= b.subrange(0, 8));
    assert(c.subrange(12, 16) =~= b.subrange(12, 16));
    assert(c.subrange(16, 20) =~= b.subrange(16, 20));
    assert(declared_size(c) == declared_size(b));
    assert(crc_input(c) =~= crc_input(b).update(k, v));
    assert(crc_input(b)[k] == b[k]);
    lemma_crc_detects_byte_change(crc_input(b), k, v);
}

} // verus!
