//! GUIDs as GPT stores them.
//!
//! On disk a GUID is mixed-endian: of the five textual groups
//! `01020304-0506-0708-090A-0B0C0D0E0F10`, the first three are stored
//! little-endian and the last two big-endian (as written).
use crate::text::{chars_of, hex_digit_upper, hex_digit_value, hex_run, hex_upper, hex_value, string_from_chars, trim, trim_bounds};
use vstd::prelude::*;

verus! {

broadcast use vstd::array::group_array_axioms;

/// A 128-bit GUID, held in its on-disk byte order.
#[derive(Clone, Copy, PartialEq, Eq, Hash, Debug)]
pub struct Guid(pub [u8; 16]);

/// Two upper-case hexadecimal digits for one byte.
pub open spec fn hex2(b: u8) -> Seq<char> {
    seq![hex_digit_upper((b / 16) as nat), hex_digit_upper((b % 16) as nat)]
}

/// The canonical (upper-case, unbraced) text of the GUID whose on-disk bytes are `b`.
pub open spec fn guid_text(b: Seq<u8>) -> Seq<char> {
    hex2(b[3]) + hex2(b[2]) + hex2(b[1]) + hex2(b[0]) + seq!['-'] + hex2(b[5]) + hex2(b[4])
        + seq!['-'] + hex2(b[7]) + hex2(b[6]) + seq!['-'] + hex2(b[8]) + hex2(b[9]) + seq!['-']
        + hex2(b[10]) + hex2(b[11]) + hex2(b[12]) + hex2(b[13]) + hex2(b[14]) + hex2(b[15])
}

/// `b` with the version nibble of byte 7 set to 4 and the variant bits of
/// byte 8 set to `10`.
pub open spec fn v4_bytes(b: Seq<u8>) -> Seq<u8> {
    b.update(7, (b[7] & 0x0f) | 0x40).update(8, (b[8] & 0x3f) | 0x80)
}

/// `s` without one pair of enclosing braces, when it has them.
pub open spec fn strip_braces(s: Seq<char>) -> Seq<char> {
    if s.len() >= 2 && s[0] == '{' && s.last() == '}' {
        s.subrange(1, s.len() - 1)
    } else {
        s
    }
}

/// Offset in the text of the `k`-th byte of the two big-endian groups.
pub open spec fn pair_pos(k: int) -> int {
    if k < 2 {
        19 + 2 * k
    } else {
        24 + 2 * (k - 2)
    }
}

/// The value of the hexadecimal digits `t[lo..hi]`, when every one of them
/// is an ASCII hex digit: no sign, no other character.
pub open spec fn field(t: Seq<char>, lo: int, hi: int) -> Option<nat> {
    hex_run(t.subrange(lo, hi))
}

/// Is `t` (already trimmed and unbraced) five well-formed groups?
pub open spec fn text_well_formed(t: Seq<char>) -> bool {
    &&& t.len() == 36
    &&& t[8] == '-' && t[13] == '-' && t[18] == '-' && t[23] == '-'
    &&& field(t, 0, 8) is Some
    &&& field(t, 9, 13) is Some
    &&& field(t, 14, 18) is Some
    &&& forall|k: int| 0 <= k < 8 ==> #[trigger] field(t, pair_pos(k), pair_pos(k) + 2) is Some
}

/// Byte `k` (little-endian) of `v`.
pub open spec fn le_byte(v: nat, k: int) -> u8 {
    if k == 0 {
        (v % 256) as u8
    } else if k == 1 {
        ((v / 256) % 256) as u8
    } else if k == 2 {
        ((v / 65536) % 256) as u8
    } else {
        ((v / 16777216) % 256) as u8
    }
}

/// The on-disk bytes that well-formed text `t` denotes.
pub open spec fn text_bytes(t: Seq<char>) -> Seq<u8> {
    Seq::new(
        16,
        |i: int|
            if i < 4 {
                le_byte(field(t, 0, 8)->0, i)
            } else if i < 6 {
                le_byte(field(t, 9, 13)->0, i - 4)
            } else if i < 8 {
                le_byte(field(t, 14, 18)->0, i - 6)
            } else {
                field(t, pair_pos(i - 8), pair_pos(i - 8) + 2)->0 as u8
            },
    )
}

/// What `Guid::parse` gives for the text `s`: `None`, or the on-disk bytes.
pub open spec fn parse_guid(s: Seq<char>) -> Option<Seq<u8>> {
    let t = strip_braces(trim(s));
    if text_well_formed(t) {
        Some(text_bytes(t))
    } else {
        None
    }
}

pub open spec fn pow16(n: nat) -> nat
    decreases n,
{
    if n == 0 {
        1
    } else {
        16 * pow16((n - 1) as nat)
    }
}

proof fn lemma_pow16_mono(a: nat, b: nat)
    requires
        a <= b,
    ensures
        pow16(a) <= pow16(b),
    decreases b,
{
    if a < b {
        lemma_pow16_mono(a, (b - 1) as nat);
    }
}

proof fn lemma_pow16_8()
    ensures
        pow16(8) == 4294967296,
{
    reveal_with_fuel(pow16, 9);
}

proof fn lemma_hex_run_bound(d: Seq<char>)
    requires
        hex_run(d) is Some,
    ensures
        hex_run(d)->0 < pow16(d.len()),
    decreases d.len(),
{
    if d.len() > 0 {
        lemma_hex_run_bound(d.drop_last());
        let a = hex_run(d.drop_last())->0;
        assert(a * 16 + 15 < pow16(d.len())) by (nonlinear_arith)
            requires
                a < pow16((d.len() - 1) as nat),
                pow16(d.len()) == 16 * pow16((d.len() - 1) as nat),
        ;
    }
}

/// The value of the hexadecimal digits `v[lo..hi]`, a run of one to
/// eight characters, when all of them are hex digits.
fn parse_hex_group(v: &[char], lo: usize, hi: usize) -> (r: Option<u32>)
    requires
        lo < hi <= v@.len(),
        hi - lo <= 8,
    ensures
        r matches Some(x) ==> hex_run(v@.subrange(lo as int, hi as int)) == Some(x as nat),
        r is None ==> hex_run(v@.subrange(lo as int, hi as int)) is None,
{
    let mut acc: u64 = 0;
    let mut i = lo;
    proof {
        assert(v@.subrange(lo as int, lo as int) =~= Seq::<char>::empty());
        lemma_pow16_mono(0, 8);
    }
    while i < hi
        invariant
            lo <= i <= hi <= v@.len(),
            lo < hi,
            hi - lo <= 8,
            hex_run(v@.subrange(lo as int, i as int)) == Some(acc as nat),
            acc < pow16((i - lo) as nat),
            pow16((i - lo) as nat) <= pow16(8),
        decreases hi - i,
    {
        let ghost prev = v@.subrange(lo as int, i as int);
        let ghost next = v@.subrange(lo as int, i + 1);
        assert(next.drop_last() =~= prev);
        match hex_digit_value(v[i]) {
            None => {
                proof {
                    assert(next.last() == v@[i as int]);
                    assert(hex_run(next) is None);
                    assert(v@.subrange(lo as int, hi as int).take((i + 1 - lo) as int) =~= next);
                    lemma_hex_run_none_extends(v@.subrange(lo as int, hi as int), (i + 1 - lo) as nat);
                }
                return None;
            },
            Some(x) => {
                proof {
                    lemma_pow16_8();
                    lemma_pow16_mono((i + 1 - lo) as nat, 8);
                    assert((acc as nat) * 16 + (x as nat) < pow16((i + 1 - lo) as nat))
                        by (nonlinear_arith)
                        requires
                            (acc as nat) < pow16((i - lo) as nat),
                            x < 16,
                            pow16((i + 1 - lo) as nat) == 16 * pow16((i - lo) as nat),
                    ;
                }
                acc = acc * 16 + (x as u64);
            },
        }
        i += 1;
    }
    proof {
        lemma_pow16_8();
    }
    Some(acc as u32)
}

proof fn lemma_hex_run_none_extends(d: Seq<char>, n: nat)
    requires
        n <= d.len(),
        hex_run(d.take(n as int)) is None,
    ensures
        hex_run(d) is None,
    decreases d.len() - n,
{
    if n < d.len() {
        assert(d.take((n + 1) as int).drop_last() =~= d.take(n as int));
        lemma_hex_run_none_extends(d, n + 1);
    } else {
        assert(d.take(n as int) =~= d);
    }
}

/// Parse the five groups of `v[a..b]`, the text with white space and braces removed.
fn parse_groups(v: &[char], a: usize, b: usize) -> (r: Option<[u8; 16]>)
    requires
        a <= b <= v@.len(),
    ensures
        !text_well_formed(v@.subrange(a as int, b as int)) ==> r is None,
        text_well_formed(v@.subrange(a as int, b as int)) ==> (r matches Some(out) && out@
            == text_bytes(v@.subrange(a as int, b as int))),
{
    let ghost t = v@.subrange(a as int, b as int);
    if b - a != 36 || v[a + 8] != '-' || v[a + 13] != '-' || v[a + 18] != '-' || v[a + 23] != '-' {
        return None;
    }
    assert(v@.subrange(a as int, a + 8) =~= t.subrange(0, 8));
    assert(v@.subrange(a + 9, a + 13) =~= t.subrange(9, 13));
    assert(v@.subrange(a + 14, a + 18) =~= t.subrange(14, 18));
    let d1 = match parse_hex_group(v, a, a + 8) {
        Some(x) => x,
        None => {
            return None;
        },
    };
    let d2 = match parse_hex_group(v, a + 9, a + 13) {
        Some(x) => x,
        None => {
            return None;
        },
    };
    let d3 = match parse_hex_group(v, a + 14, a + 18) {
        Some(x) => x,
        None => {
            return None;
        },
    };
    let mut out = [0u8; 16];
    out[0] = (d1 % 256) as u8;
    out[1] = ((d1 / 256) % 256) as u8;
    out[2] = ((d1 / 65536) % 256) as u8;
    out[3] = ((d1 / 16777216) % 256) as u8;
    out[4] = (d2 % 256) as u8;
    out[5] = ((d2 / 256) % 256) as u8;
    out[6] = (d3 % 256) as u8;
    out[7] = ((d3 / 256) % 256) as u8;
    assert(forall|j: int| 0 <= j < 8 ==> out@[j] == text_bytes(t)[j]);
    let mut k: usize = 0;
    while k < 8
        invariant
            0 <= k <= 8,
            b - a == 36,
            a + 36 <= v@.len(),
            t == v@.subrange(a as int, b as int),
            out@.len() == 16,
            forall|j: int| 0 <= j < 8 ==> out@[j] == text_bytes(t)[j],
            forall|j: int| 0 <= j < k ==> #[trigger] field(t, pair_pos(j), pair_pos(j) + 2) is Some,
            forall|j: int| 8 <= j < 8 + k ==> out@[j] == text_bytes(t)[j],
        decreases 8 - k,
    {
        let p = if k < 2 {
            19 + 2 * k
        } else {
            24 + 2 * (k - 2)
        };
        assert(p == pair_pos(k as int));
        assert(v@.subrange(a + p, a + p + 2) =~= t.subrange(p as int, p + 2));
        match parse_hex_group(v, a + p, a + p + 2) {
            Some(x) => {
                out[8 + k] = x as u8;
            },
            None => {
                assert(field(t, pair_pos(k as int), pair_pos(k as int) + 2) is None);
                assert(!text_well_formed(t));
                return None;
            },
        }
        k += 1;
    }
    assert(text_well_formed(t));
    assert(out@ =~= text_bytes(t));
    Some(out)
}

impl Guid {
    /// The all-zero GUID, which GPT uses to mean "this entry is unused".
    pub fn zero() -> (g: Guid)
        ensures
            g.spec_is_zero(),
            g.0@ == Seq::new(16, |i: int| 0u8),
    {
        let g = Guid([0u8; 16]);
        assert(g.0@ =~= Seq::new(16, |i: int| 0u8));
        g
    }

    pub open spec fn bytes(&self) -> Seq<u8> {
        self.0@
    }

    pub open spec fn spec_is_zero(&self) -> bool {
        forall|i: int| 0 <= i < 16 ==> self.0@[i] == 0
    }

    /// Parse the canonical textual form, with or without surrounding braces.
    pub fn parse(s: &str) -> (r: Option<Guid>)
        ensures
            parse_guid(s@) is None ==> r is None,
            parse_guid(s@) matches Some(b) ==> (r matches Some(g) && g.0@ == b),
    {
        let v = chars_of(s);
        let (a0, b0) = trim_bounds(&v, 0, v.len());
        proof {
            assert(v@.subrange(0, v@.len() as int) =~= v@);
        }
        let (a, b) = if b0 - a0 >= 2 && v[a0] == '{' && v[b0 - 1] == '}' {
            (a0 + 1, b0 - 1)
        } else {
            (a0, b0)
        };
        proof {
            let tt = v@.subrange(a0 as int, b0 as int);
            if b0 - a0 >= 2 && v@[a0 as int] == '{' && v@[b0 - 1] == '}' {
                assert(strip_braces(tt) =~= v@.subrange(a as int, b as int));
            }
        }
        match parse_groups(&v, a, b) {
            Some(out) => Some(Guid(out)),
            None => None,
        }
    }
    /// The canonical upper-case text, e.g. `C12A7328-F81F-11D2-BA4B-00A0C93EC93B`.
    pub fn to_text(&self) -> (s: String)
        ensures
            s@ == guid_text(self.0@),
    {
        let b = &self.0;
        let mut v: Vec<char> = Vec::new();
        push_hex2(&mut v, b[3]);
        push_hex2(&mut v, b[2]);
        push_hex2(&mut v, b[1]);
        push_hex2(&mut v, b[0]);
        v.push('-');
        push_hex2(&mut v, b[5]);
        push_hex2(&mut v, b[4]);
        v.push('-');
        push_hex2(&mut v, b[7]);
        push_hex2(&mut v, b[6]);
        v.push('-');
        push_hex2(&mut v, b[8]);
        push_hex2(&mut v, b[9]);
        v.push('-');
        push_hex2(&mut v, b[10]);
        push_hex2(&mut v, b[11]);
        push_hex2(&mut v, b[12]);
        push_hex2(&mut v, b[13]);
        push_hex2(&mut v, b[14]);
        push_hex2(&mut v, b[15]);
        assert(v@ =~= guid_text(self.0@));
        string_from_chars(&v)
    }

    /// The version-4 GUID (RFC 4122 variant) made from the sixteen drawn
    /// bytes `b`: the version nibble of byte 7 set to 4, the top two bits of
    /// byte 8 set to `10`, every other bit as drawn.
    pub fn v4_from_bytes(b: [u8; 16]) -> (g: Guid)
        ensures
            g.0@ == v4_bytes(b@),
            g.0@[7] & 0xf0 == 0x40,
            g.0@[8] & 0xc0 == 0x80,
            !g.spec_is_zero(),
    {
        let mut b = b;
        let x7 = b[7];
        let x8 = b[8];
        let b7 = (x7 & 0x0f) | 0x40;
        let b8 = (x8 & 0x3f) | 0x80;
        assert(((x7 & 0x0f) | 0x40) & 0xf0 == 0x40) by (bit_vector);
        assert(((x8 & 0x3f) | 0x80) & 0xc0 == 0x80) by (bit_vector);
        b[7] = b7;
        b[8] = b8;
        assert(b7 != 0) by (bit_vector)
            requires
                b7 & 0xf0 == 0x40,
        ;
        assert(b@[7] == b7);
        let g = Guid(b);
        assert(g.0@[7] != 0);
        g
    }

    /// A random version-4 GUID: sixteen bytes from the thread's random
    /// source, stamped by `v4_from_bytes`.
    pub fn random() -> (g: Guid)
        ensures
            exists|b: Seq<u8>| b.len() == 16 && g.0@ == v4_bytes(b),
            g.0@[7] & 0xf0 == 0x40,
            g.0@[8] & 0xc0 == 0x80,
            !g.spec_is_zero(),
    {
        let b = random_bytes();
        let g = Guid::v4_from_bytes(b);
        assert(b@.len() == 16 && g.0@ == v4_bytes(b@));
        g
    }

    pub fn is_zero(&self) -> (r: bool)
        ensures
            r == self.spec_is_zero(),
    {
        let mut i: usize = 0;
        while i < 16
            invariant
                0 <= i <= 16,
                forall|j: int| 0 <= j < i ==> self.0@[j] == 0,
            decreases 16 - i,
        {
            if self.0[i] != 0 {
                return false;
            }
            i += 1;
        }
        true
    }

    pub fn as_bytes(&self) -> (r: &[u8; 16])
        ensures
            r@ == self.0@,
    {
        &self.0
    }

    /// The GUID stored in the first sixteen bytes of `b`, if it has that many.
    pub fn from_bytes(b: &[u8]) -> (r: Option<Guid>)
        ensures
            b@.len() < 16 ==> r is None,
            b@.len() >= 16 ==> (r matches Some(g) && g.0@ == b@.subrange(0, 16)),
    {
        if b.len() < 16 {
            return None;
        }
        let mut out = [0u8; 16];
        let mut i: usize = 0;
        while i < 16
            invariant
                0 <= i <= 16,
                b@.len() >= 16,
                out@.len() == 16,
                forall|j: int| 0 <= j < i ==> out@[j] == b@[j],
            decreases 16 - i,
        {
            out[i] = b[i];
            i += 1;
        }
        assert(out@ =~= b@.subrange(0, 16));
        Some(Guid(out))
    }
}

fn push_hex2(v: &mut Vec<char>, b: u8)
    ensures
        final(v)@ == old(v)@ + hex2(b),
{
    v.push(hex_upper(b / 16));
    v.push(hex_upper(b % 16));
    assert(final(v)@ =~= old(v)@ + hex2(b));
}

/// Sixteen bytes from the operating system's random source (`rand::rng`).
///
/// Nothing is promised of the value: it is whatever the generator produced.
#[verifier::external_body]
fn random_bytes() -> (b: [u8; 16]) {
    let mut b = [0u8; 16];
    rand::RngCore::fill_bytes(&mut rand::rng(), &mut b);
    b
}

} // verus!

verus! {

proof fn lemma_hex_digit_roundtrip(n: nat)
    requires
        n < 16,
    ensures
        hex_value(hex_digit_upper(n)) == Some(n),
        hex_digit_upper(n) != '+' && hex_digit_upper(n) != '{' && hex_digit_upper(n) != '-',
        !crate::text::is_space(hex_digit_upper(n)),
{
}

proof fn lemma_hex_run_push2(s: Seq<char>, x: u8)
    requires
        hex_run(s) is Some,
    ensures
        hex_run(s + hex2(x)) == Some(hex_run(s)->0 * 256 + x as nat),
{
    lemma_hex_digit_roundtrip((x / 16) as nat);
    lemma_hex_digit_roundtrip((x % 16) as nat);
    let h = hex_digit_upper((x / 16) as nat);
    let l = hex_digit_upper((x % 16) as nat);
    let s1 = s.push(h);
    let s2 = s + hex2(x);
    assert(s2 =~= s1.push(l));
    assert(s2.drop_last() =~= s1);
    assert(s1.drop_last() =~= s);
    let a = hex_run(s)->0;
    assert(hex_run(s1) == Some(a * 16 + (x / 16) as nat));
    assert(hex_run(s2) == Some((a * 16 + (x / 16) as nat) * 16 + (x % 16) as nat));
    assert((a * 16 + (x / 16) as nat) * 16 + (x % 16) as nat == a * 256 + x as nat) by (nonlinear_arith);
}

proof fn lemma_le_bytes4(x0: u8, x1: u8, x2: u8, x3: u8)
    ensures
        ({
            let v = (((x3 as nat) * 256 + x2 as nat) * 256 + x1 as nat) * 256 + x0 as nat;
            &&& le_byte(v, 0) == x0
            &&& le_byte(v, 1) == x1
            &&& le_byte(v, 2) == x2
            &&& le_byte(v, 3) == x3
        }),
{
    let v = (((x3 as nat) * 256 + x2 as nat) * 256 + x1 as nat) * 256 + x0 as nat;
    assert(v % 256 == x0 as nat && (v / 256) % 256 == x1 as nat && (v / 65536) % 256 == x2 as nat
        && (v / 16777216) % 256 == x3 as nat) by (nonlinear_arith)
        requires
            v == (((x3 as nat) * 256 + x2 as nat) * 256 + x1 as nat) * 256 + x0 as nat,
            x0 < 256,
            x1 < 256,
            x2 < 256,
            x3 < 256,
    ;
}

proof fn lemma_le_bytes2(x0: u8, x1: u8)
    ensures
        ({
            let v = (x1 as nat) * 256 + x0 as nat;
            &&& le_byte(v, 0) == x0
            &&& le_byte(v, 1) == x1
        }),
{
    let v = (x1 as nat) * 256 + x0 as nat;
    assert(v % 256 == x0 as nat && (v / 256) % 256 == x1 as nat) by (nonlinear_arith)
        requires
            v == (x1 as nat) * 256 + x0 as nat,
            x0 < 256,
            x1 < 256,
    ;
}

proof fn lemma_hex_run_hex2(x: u8)
    ensures
        hex_run(hex2(x)) == Some(x as nat),
{
    lemma_hex_run_push2(Seq::<char>::empty(), x);
    assert(Seq::<char>::empty() + hex2(x) =~= hex2(x));
    lemma_hex_digit_roundtrip((x / 16) as nat);
}

proof fn lemma_group4(x0: u8, x1: u8, x2: u8, x3: u8)
    ensures
        hex_run(hex2(x3) + hex2(x2) + hex2(x1) + hex2(x0)) == Some(
            (((x3 as nat) * 256 + x2 as nat) * 256 + x1 as nat) * 256 + x0 as nat,
        ),
{
    lemma_hex_run_hex2(x3);
    lemma_hex_run_push2(hex2(x3), x2);
    lemma_hex_run_push2(hex2(x3) + hex2(x2), x1);
    lemma_hex_run_push2(hex2(x3) + hex2(x2) + hex2(x1), x0);
    lemma_hex_digit_roundtrip((x3 / 16) as nat);
}

proof fn lemma_group2(x0: u8, x1: u8)
    ensures
        hex_run(hex2(x1) + hex2(x0)) == Some((x1 as nat) * 256 + x0 as nat),
{
    lemma_hex_run_hex2(x1);
    lemma_hex_run_push2(hex2(x1), x0);
    lemma_hex_digit_roundtrip((x1 / 16) as nat);
}

proof fn lemma_guid_text_shape(b: Seq<u8>)
    requires
        b.len() == 16,
    ensures
        guid_text(b).len() == 36,
        guid_text(b)[8] == '-' && guid_text(b)[13] == '-' && guid_text(b)[18] == '-'
            && guid_text(b)[23] == '-',
        guid_text(b).subrange(0, 8) == hex2(b[3]) + hex2(b[2]) + hex2(b[1]) + hex2(b[0]),
        guid_text(b).subrange(9, 13) == hex2(b[5]) + hex2(b[4]),
        guid_text(b).subrange(14, 18) == hex2(b[7]) + hex2(b[6]),
        forall|k: int|
            0 <= k < 8 ==> #[trigger] guid_text(b).subrange(pair_pos(k), pair_pos(k) + 2) == hex2(
                b[8 + k],
            ),
        guid_text(b)[0] == hex_digit_upper((b[3] / 16) as nat),
        guid_text(b)[35] == hex_digit_upper((b[15] % 16) as nat),
{
    let t = guid_text(b);
    assert(t.subrange(0, 8) =~= hex2(b[3]) + hex2(b[2]) + hex2(b[1]) + hex2(b[0]));
    assert(t.subrange(9, 13) =~= hex2(b[5]) + hex2(b[4]));
    assert(t.subrange(14, 18) =~= hex2(b[7]) + hex2(b[6]));
    assert forall|k: int| 0 <= k < 8 implies #[trigger] t.subrange(pair_pos(k), pair_pos(k) + 2)
        == hex2(b[8 + k]) by {
        assert(t.subrange(pair_pos(k), pair_pos(k) + 2) =~= hex2(b[8 + k]));
    }
}

/// Parsing the text of a GUID gives back the GUID.
pub proof fn lemma_guid_text_parses(b: Seq<u8>)
    requires
        b.len() == 16,
    ensures
        parse_guid(guid_text(b)) == Some(b),
{
    let t = guid_text(b);
    lemma_guid_text_shape(b);
    lemma_hex_digit_roundtrip((b[3] / 16) as nat);
    lemma_hex_digit_roundtrip((b[15] % 16) as nat);
    // No white space or braces at either end.
    assert(crate::text::lead_ws(t) == 0);
    assert(t.last() == t[35]);
    assert(crate::text::trail_ws(t) == 0);
    assert(trim(t) =~= t);
    assert(strip_braces(t) == t);
    lemma_group4(b[0], b[1], b[2], b[3]);
    lemma_group2(b[4], b[5]);
    lemma_group2(b[6], b[7]);
    lemma_le_bytes4(b[0], b[1], b[2], b[3]);
    lemma_le_bytes2(b[4], b[5]);
    lemma_le_bytes2(b[6], b[7]);
    assert forall|k: int| 0 <= k < 8 implies #[trigger] field(t, pair_pos(k), pair_pos(k) + 2)
        == Some(b[8 + k] as nat) by {
        lemma_hex_run_hex2(b[8 + k]);
    }
    assert(text_well_formed(t));
    assert(text_bytes(t) =~= b);
}

} // verus!
