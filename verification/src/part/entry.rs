//! A GPT partition entry (UEFI 2.10 §5.3.3).
//!
//! 128 bytes: two GUIDs, an inclusive LBA range, an attribute word, and a name
//! of up to 36 UTF-16LE code units. `ending_lba` is inclusive.
use crate::bytes::{from_le16, le16, lemma_units_le, push_u16_le, units_le, zeros};
use crate::part::error::{PartError, Result};
use crate::part::guid::Guid;
use crate::text::{
    chars_of, decimal, extend_chars, extend_str, from_utf16_lossy, lemma_char_range,
    push_utf16, string_from_chars, u64_decimal, utf16, utf16_char, utf16_decode,
};
use vstd::bytes::{
    lemma_auto_spec_u64_to_from_le_bytes, spec_u64_from_le_bytes, spec_u64_to_le_bytes,
    u64_to_le_bytes,
};
use vstd::prelude::*;

verus! {

broadcast use vstd::array::group_array_axioms;

/// Name capacity in UTF-16 code units (72 bytes).
pub const NAME_UNITS: usize = 36;

#[derive(Clone, Debug, PartialEq, Eq)]
pub struct GptEntry {
    pub type_guid: Guid,
    pub unique_guid: Guid,
    pub starting_lba: u64,
    /// Inclusive — the last sector belonging to this partition.
    pub ending_lba: u64,
    pub attributes: u64,
    pub name: String,
}

/// The code units the name is stored as: its UTF-16 form, cut at 36 units.
pub open spec fn name_units(name: Seq<char>) -> Seq<u16> {
    if utf16(name).len() <= 36 {
        utf16(name)
    } else {
        utf16(name).take(36)
    }
}

/// The 128-byte on-disk form of an entry.
pub open spec fn entry_image(e: GptEntry) -> Seq<u8> {
    e.type_guid.0@ + e.unique_guid.0@ + spec_u64_to_le_bytes(e.starting_lba)
        + spec_u64_to_le_bytes(e.ending_lba) + spec_u64_to_le_bytes(e.attributes) + units_le(
        name_units(e.name@),
    ) + zeros((72 - 2 * name_units(e.name@).len()) as nat)
}

/// The 36 name units stored in an entry image.
pub open spec fn stored_units(b: Seq<u8>) -> Seq<u16> {
    Seq::new(36, |i: int| from_le16(b.subrange(56 + 2 * i, 58 + 2 * i)))
}

/// The units before the first NUL.
pub open spec fn until_nul(u: Seq<u16>) -> Seq<u16>
    decreases u.len(),
{
    if u.len() == 0 || u[0] == 0 {
        Seq::empty()
    } else {
        seq![u[0]] + until_nul(u.drop_first())
    }
}

/// Does `e` hold exactly what the 128-byte image `b` records?
pub open spec fn entry_decodes(b: Seq<u8>, e: GptEntry) -> bool {
    &&& b.len() >= 128
    &&& e.type_guid.0@ == b.subrange(0, 16)
    &&& e.unique_guid.0@ == b.subrange(16, 32)
    &&& e.starting_lba == spec_u64_from_le_bytes(b.subrange(32, 40))
    &&& e.ending_lba == spec_u64_from_le_bytes(b.subrange(40, 48))
    &&& e.attributes == spec_u64_from_le_bytes(b.subrange(48, 56))
    &&& e.name@ == utf16_decode(until_nul(stored_units(b)))
}

impl GptEntry {
    pub open spec fn spec_is_used(&self) -> bool {
        !self.type_guid.spec_is_zero()
    }

    /// Length in sectors, before any machine limit.
    pub open spec fn spec_sectors(&self) -> int {
        if self.spec_is_used() && self.ending_lba >= self.starting_lba {
            self.ending_lba - self.starting_lba + 1
        } else {
            0
        }
    }

    pub open spec fn spec_overlaps(&self, start: u64, end: u64) -> bool {
        self.spec_is_used() && self.starting_lba <= end && start <= self.ending_lba
    }

    pub fn is_used(&self) -> (r: bool)
        ensures
            r == self.spec_is_used(),
    {
        !self.type_guid.is_zero()
    }

    /// Length in sectors. Zero for an unused entry.
    pub fn sectors(&self) -> (r: u64)
        requires
            self.spec_sectors() <= u64::MAX,
        ensures
            r == self.spec_sectors(),
    {
        if self.is_used() && self.ending_lba >= self.starting_lba {
            self.ending_lba - self.starting_lba + 1
        } else {
            0
        }
    }

    /// Does this entry's sector range intersect `[start, end]` (inclusive)?
    pub fn overlaps(&self, start: u64, end: u64) -> (r: bool)
        ensures
            r == self.spec_overlaps(start, end),
    {
        self.is_used() && self.starting_lba <= end && start <= self.ending_lba
    }

    /// The 128-byte on-disk form; a name longer than 36 units is cut there.
    pub fn to_bytes(&self) -> (r: [u8; 128])
        ensures
            r@ == entry_image(*self),
    {
        let mut v: Vec<u8> = Vec::new();
        let t = self.type_guid.as_bytes();
        let mut i: usize = 0;
        while i < 16
            invariant
                0 <= i <= 16,
                t@ == self.type_guid.0@,
                v@ == t@.take(i as int),
            decreases 16 - i,
        {
            v.push(t[i]);
            i += 1;
            assert(v@ =~= t@.take(i as int));
        }
        let u = self.unique_guid.as_bytes();
        let mut i: usize = 0;
        while i < 16
            invariant
                0 <= i <= 16,
                u@ == self.unique_guid.0@,
                v@ == self.type_guid.0@ + u@.take(i as int),
            decreases 16 - i,
        {
            v.push(u[i]);
            i += 1;
            assert(v@ =~= self.type_guid.0@ + u@.take(i as int));
        }
        assert(t@.take(16) =~= t@);
        assert(u@.take(16) =~= u@);
        let a = u64_to_le_bytes(self.starting_lba);
        v.append(&mut a.clone());
        let a = u64_to_le_bytes(self.ending_lba);
        v.append(&mut a.clone());
        let a = u64_to_le_bytes(self.attributes);
        v.append(&mut a.clone());
        let units = name_units_of(self.name.as_str());
        let mut k: usize = 0;
        let ghost head = v@;
        while k < units.len()
            invariant
                0 <= k <= units@.len(),
                units@.len() <= 36,
                v@ == head + units_le(units@.take(k as int)),
            decreases units@.len() - k,
        {
            proof {
                lemma_units_le_push(units@.take(k as int), units@[k as int]);
                assert(units@.take(k + 1) =~= units@.take(k as int).push(units@[k as int]));
            }
            push_u16_le(&mut v, units[k]);
            k += 1;
        }
        assert(units@.take(units@.len() as int) =~= units@);
        proof {
            lemma_units_le(units@);
        }
        let ghost named = v@;
        while v.len() < 128
            invariant
                v@.len() <= 128,
                v@.len() >= named.len(),
                v@ == named + zeros((v@.len() - named.len()) as nat),
            decreases 128 - v@.len(),
        {
            v.push(0u8);
            assert(v@ =~= named + zeros((v@.len() - named.len()) as nat));
        }
        proof {
            lemma_units_le(units@);
            assert(v@ =~= entry_image(*self));
        }
        let mut out = [0u8; 128];
        let mut i: usize = 0;
        while i < 128
            invariant
                0 <= i <= 128,
                v@.len() == 128,
                out@.len() == 128,
                forall|j: int| 0 <= j < i ==> out@[j] == v@[j],
            decreases 128 - i,
        {
            out[i] = v[i];
            i += 1;
        }
        assert(out@ =~= v@);
        out
    }

    /// Decode a 128-byte entry; `None` when fewer than 128 bytes are given.
    pub fn parse(b: &[u8]) -> (r: Option<GptEntry>)
        ensures
            b@.len() < 128 ==> r is None,
            b@.len() >= 128 ==> (r matches Some(e) && entry_decodes(b@, e)),
    {
        if b.len() < 128 {
            return None;
        }
        let mut units: Vec<u16> = Vec::new();
        let mut i: usize = 0;
        assert(stored_units(b@).skip(0) =~= stored_units(b@));
        assert(units@ + until_nul(stored_units(b@)) =~= until_nul(stored_units(b@)));
        while i < NAME_UNITS
            invariant
                0 <= i <= 36,
                b@.len() >= 128,
                b@.len() == b.len(),
                until_nul(stored_units(b@)) == units@ + until_nul(stored_units(b@).skip(i as int)),
            ensures
                until_nul(stored_units(b@)) == units@,
            decreases 36 - i,
        {
            let off = 56 + i * 2;
            let u = crate::bytes::read_u16_le(b, off);
            let ghost rest = stored_units(b@).skip(i as int);
            assert(rest[0] == u);
            if u == 0 {
                assert(until_nul(rest) =~= Seq::<u16>::empty());
                assert(units@ + until_nul(rest) =~= units@);
                break;
            }
            units.push(u);
            assert(rest.drop_first() =~= stored_units(b@).skip(i + 1));
            i += 1;
        }
        let name = from_utf16_lossy(&units);
        let tg = match Guid::from_bytes(&b[0..16]) {
            Some(g) => g,
            None => {
                return None;
            },
        };
        let ug = match Guid::from_bytes(&b[16..32]) {
            Some(g) => g,
            None => {
                return None;
            },
        };
        assert(b@.subrange(0, 16).subrange(0, 16) =~= b@.subrange(0, 16));
        assert(b@.subrange(16, 32).subrange(0, 16) =~= b@.subrange(16, 32));
        let e = GptEntry {
            type_guid: tg,
            unique_guid: ug,
            starting_lba: crate::bytes::read_u64_le(b, 32),
            ending_lba: crate::bytes::read_u64_le(b, 40),
            attributes: crate::bytes::read_u64_le(b, 48),
            name,
        };
        Some(e)
    }
}

impl Default for GptEntry {
    /// An unused entry: zero type, zero GUID, empty range and name.
    fn default() -> (e: GptEntry)
        ensures
            e.type_guid.0@ == zeros(16),
            e.unique_guid.0@ == zeros(16),
            e.starting_lba == 0,
            e.ending_lba == 0,
            e.attributes == 0,
            e.name@ == Seq::<char>::empty(),
    {
        let z = Guid::zero();
        GptEntry {
            type_guid: z,
            unique_guid: z,
            starting_lba: 0,
            ending_lba: 0,
            attributes: 0,
            name: String::new(),
        }
    }
}

proof fn lemma_units_le_push(u: Seq<u16>, x: u16)
    ensures
        units_le(u.push(x)) == units_le(u) + le16(x),
    decreases u.len(),
{
    if u.len() == 0 {
        assert(u.push(x).drop_first() =~= Seq::<u16>::empty());
        assert(units_le(Seq::<u16>::empty()) =~= Seq::<u8>::empty());
        assert(units_le(u.push(x)) =~= units_le(u) + le16(x));
    } else {
        lemma_units_le_push(u.drop_first(), x);
        assert(u.push(x).drop_first() =~= u.drop_first().push(x));
        assert(units_le(u.push(x)) =~= units_le(u) + le16(x));
    }
}

/// The units a name is stored as (`encode_utf16().take(36)`).
fn name_units_of(name: &str) -> (u: Vec<u16>)
    ensures
        u@ == name_units(name@),
        u@.len() <= 36,
{
    let cs = chars_of(name);
    let mut all: Vec<u16> = Vec::new();
    let mut i: usize = 0;
    while i < cs.len() && all.len() < 36
        invariant
            0 <= i <= cs@.len(),
            cs@ == name@,
            all@ == utf16(cs@.take(i as int)),
            all@.len() <= 37,
        decreases cs@.len() - i,
    {
        push_utf16(&mut all, cs[i]);
        proof {
            lemma_utf16_push(cs@.take(i as int), cs@[i as int]);
            assert(cs@.take(i + 1) =~= cs@.take(i as int).push(cs@[i as int]));
        }
        i += 1;
    }
    proof {
        lemma_utf16_prefix(cs@, i as int);
    }
    let mut out: Vec<u16> = Vec::new();
    let mut k: usize = 0;
    while k < all.len() && k < 36
        invariant
            0 <= k <= all@.len(),
            k <= 36,
            out@ == all@.take(k as int),
        decreases all@.len() - k,
    {
        out.push(all[k]);
        k += 1;
        assert(out@ =~= all@.take(k as int));
    }
    out
}

proof fn lemma_utf16_push(s: Seq<char>, c: char)
    ensures
        utf16(s.push(c)) == utf16(s) + utf16_char(c),
    decreases s.len(),
{
    if s.len() == 0 {
        assert(s.push(c).drop_first() =~= Seq::<char>::empty());
        assert(utf16(Seq::<char>::empty()) =~= Seq::<u16>::empty());
        assert(utf16(s.push(c)) =~= utf16(s) + utf16_char(c));
    } else {
        lemma_utf16_push(s.drop_first(), c);
        assert(s.push(c).drop_first() =~= s.drop_first().push(c));
        assert(utf16(s.push(c)) =~= utf16(s) + utf16_char(c));
    }
}

proof fn lemma_utf16_append(a: Seq<char>, b: Seq<char>)
    ensures
        utf16(a + b) == utf16(a) + utf16(b),
    decreases a.len(),
{
    if a.len() == 0 {
        assert(a + b =~= b);
        assert(utf16(a) + utf16(b) =~= utf16(b));
    } else {
        lemma_utf16_append(a.drop_first(), b);
        assert((a + b).drop_first() =~= a.drop_first() + b);
        assert(utf16(a + b) =~= utf16(a) + utf16(b));
    }
}

/// Either the whole name was encoded, or at least 36 units of it were; in both
/// cases the first `min(len, 36)` units are those of the whole name.
proof fn lemma_utf16_prefix(s: Seq<char>, i: int)
    requires
        0 <= i <= s.len(),
        i < s.len() ==> utf16(s.take(i)).len() >= 36,
    ensures
        utf16(s.take(i)).len() <= 36 ==> utf16(s.take(i)) == name_units(s) || utf16(s.take(i))
            == utf16(s),
        utf16(s.take(i)).len() >= 36 ==> utf16(s.take(i)).take(36) == name_units(s),
        utf16(s.take(i)).len() < 36 ==> utf16(s.take(i)) == name_units(s),
        utf16(s.take(i)).len() == 36 ==> utf16(s.take(i)) == name_units(s),
{
    lemma_utf16_append(s.take(i), s.skip(i));
    assert(s.take(i) + s.skip(i) =~= s);
    let p = utf16(s.take(i));
    let w = utf16(s);
    assert(w == p + utf16(s.skip(i)));
    if i == s.len() {
        assert(s.take(i) =~= s);
    }
    if p.len() >= 36 {
        assert(w.take(36) =~= p.take(36));
    }
    if p.len() == 36 {
        assert(p.take(36) =~= p);
    }
}

/// Reject a name that cannot be stored, rather than silently truncating it.
pub fn validate_name(name: &str) -> (r: Result<()>)
    ensures
        utf16(name@).len() <= 36 ==> r is Ok,
        utf16(name@).len() > 36 ==> (r matches Err(PartError::Usage(m)) && m@ == "partition name is "@
            + decimal(utf16(name@).len()) + " UTF-16 code units; the limit is 36"@),
{
    let cs = chars_of(name);
    let mut n: u128 = 0;
    let mut i: usize = 0;
    while i < cs.len()
        invariant
            0 <= i <= cs@.len(),
            cs@ == name@,
            n == utf16(cs@.take(i as int)).len(),
            n <= 2 * i,
        decreases cs@.len() - i,
    {
        proof {
            lemma_utf16_push(cs@.take(i as int), cs@[i as int]);
            assert(cs@.take(i + 1) =~= cs@.take(i as int).push(cs@[i as int]));
        }
        if (cs[i] as u32) < 0x10000 {
            n += 1;
        } else {
            n += 2;
        }
        i += 1;
    }
    assert(cs@.take(cs@.len() as int) =~= cs@);
    if n > 36 {
        let mut v: Vec<char> = Vec::new();
        extend_str(&mut v, "partition name is ");
        let d = crate::text::u128_decimal(n);
        extend_chars(&mut v, &d);
        extend_str(&mut v, " UTF-16 code units; the limit is 36");
        return Err(PartError::Usage(string_from_chars(&v)));
    }
    Ok(())
}

// --------------------------------------------------------------------------
// The round trip.

proof fn lemma_until_nul_prefix(u: Seq<u16>, n: int)
    requires
        0 <= n <= u.len(),
        forall|i: int| 0 <= i < n ==> u[i] != 0,
        n == u.len() || u[n] == 0,
    ensures
        until_nul(u) == u.take(n),
    decreases u.len(),
{
    if u.len() > 0 && n > 0 {
        lemma_until_nul_prefix(u.drop_first(), n - 1);
        assert(u.take(n) =~= seq![u[0]] + u.drop_first().take(n - 1));
    } else if n == 0 {
        assert(u.take(0) =~= Seq::<u16>::empty());
    }
}

proof fn lemma_utf16_nonzero(s: Seq<char>)
    requires
        forall|i: int| 0 <= i < s.len() ==> s[i] != '\0',
    ensures
        forall|i: int| 0 <= i < utf16(s).len() ==> utf16(s)[i] != 0,
    decreases s.len(),
{
    if s.len() > 0 {
        lemma_utf16_nonzero(s.drop_first());
        let c = s[0];
        lemma_char_range(c);
        assert(utf16(s) == utf16_char(c) + utf16(s.drop_first()));
        assert forall|i: int| 0 <= i < utf16(s).len() implies utf16(s)[i] != 0 by {
            if i >= utf16_char(c).len() {
                assert(utf16(s)[i] == utf16(s.drop_first())[i - utf16_char(c).len()]);
            } else {
                if (c as u32) == 0 {
                    crate::text::lemma_char_inj(c, '\0');
                }
            }
        }
    }
}

/// Decoding the image of an entry recovers it, when its name fits and holds
/// no NUL (which would end it early on disk).
pub proof fn lemma_entry_round_trip(e: GptEntry)
    requires
        utf16(e.name@).len() <= 36,
        forall|i: int| 0 <= i < e.name@.len() ==> e.name@[i] != '\0',
        e.type_guid.0@.len() == 16,
        e.unique_guid.0@.len() == 16,
    ensures
        entry_decodes(entry_image(e), e),
{
    lemma_auto_spec_u64_to_from_le_bytes();
    let b = entry_image(e);
    let u = name_units(e.name@);
    assert(u == utf16(e.name@));
    lemma_units_le(u);
    let ul = units_le(u);
    let z = zeros((72 - 2 * u.len()) as nat);
    assert(b.subrange(0, 16) =~= e.type_guid.0@);
    assert(b.subrange(16, 32) =~= e.unique_guid.0@);
    assert(b.subrange(32, 40) =~= spec_u64_to_le_bytes(e.starting_lba));
    assert(b.subrange(40, 48) =~= spec_u64_to_le_bytes(e.ending_lba));
    assert(b.subrange(48, 56) =~= spec_u64_to_le_bytes(e.attributes));
    let st = stored_units(b);
    assert forall|i: int| 0 <= i < u.len() implies #[trigger] st[i] == u[i] by {
        assert(b.subrange(56 + 2 * i, 58 + 2 * i) =~= ul.subrange(2 * i, 2 * i + 2));
        crate::bytes::lemma_le16_roundtrip(u[i]);
    }
    assert forall|i: int| u.len() <= i < 36 implies #[trigger] st[i] == 0 by {
        assert(b.subrange(56 + 2 * i, 58 + 2 * i) =~= seq![0u8, 0u8]);
    }
    lemma_utf16_nonzero(e.name@);
    lemma_until_nul_prefix(st, u.len() as int);
    assert(st.take(u.len() as int) =~= u);
    crate::text::lemma_utf16_roundtrip(e.name@);
}

} // verus!
