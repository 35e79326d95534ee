//! Sizes as `part add --size` reads them.
//!
//! Suffixes are powers of 1024; a bare number is sectors (and `s` says so
//! explicitly); `max` means the largest free run.
use crate::part::error::{PartError, Result};
use crate::text::{
    chars_of, debug_quoted, debug_str, dec_value, parse_u64_chars, parse_u64_spec, extend_str, lower_ascii_seq, string_from_chars, trim, trim_bounds,
};
use vstd::prelude::*;

verus! {

/// The multiplier a suffix stands for: bytes, or 0 for "already sectors".
pub open spec fn suffix_mult(c: char) -> Option<nat> {
    if c == 'K' || c == 'k' {
        Some(1024)
    } else if c == 'M' || c == 'm' {
        Some(1024 * 1024)
    } else if c == 'G' || c == 'g' {
        Some(1024 * 1024 * 1024)
    } else if c == 'T' || c == 't' {
        Some(1024 * 1024 * 1024 * 1024)
    } else if c == 'S' || c == 's' {
        Some(0)
    } else {
        None
    }
}

/// How `parse_size` reads a size.
pub enum SizeReading {
    /// `max`: the largest free run.
    Max,
    /// A number of sectors.
    Sectors(u64),
    /// Zero, which is refused.
    Zero,
    /// Anything that does not parse, or overflows.
    Bad,
}

pub open spec fn read_size(spec: Seq<char>, sector_size: nat) -> SizeReading {
    let s = trim(spec);
    if lower_ascii_seq(s) == "max"@ {
        SizeReading::Max
    } else if s.len() == 0 {
        SizeReading::Bad
    } else {
        let (digits, mult) = match suffix_mult(s.last()) {
            Some(m) => (s.drop_last(), m),
            None => (s, 0nat),
        };
        match parse_u64_spec(trim(digits)) {
            None => SizeReading::Bad,
            Some(n) => if n == 0 {
                SizeReading::Zero
            } else if mult == 0 {
                SizeReading::Sectors(n)
            } else if n * mult > u64::MAX {
                SizeReading::Bad
            } else {
                SizeReading::Sectors(((n * mult + sector_size - 1) / (sector_size as int)) as u64)
            },
        }
    }
}

/// Does reading `spec` come to dividing a byte count by the sector size?
/// Only a non-zero number with a `K`, `M`, `G` or `T` suffix whose byte
/// count fits in a `u64` does.
pub open spec fn divides_by_sector(spec: Seq<char>) -> bool {
    let s = trim(spec);
    lower_ascii_seq(s) != "max"@ && s.len() > 0 && match suffix_mult(s.last()) {
        Some(m) => m > 0 && match parse_u64_spec(trim(s.drop_last())) {
            Some(n) => n > 0 && n * m <= u64::MAX,
            None => false,
        },
        None => false,
    }
}

/// Is `v[lo..hi]`, lower-cased, the word `max`?
fn is_max(v: &[char], lo: usize, hi: usize) -> (r: bool)
    requires
        lo <= hi <= v@.len(),
    ensures
        r == (lower_ascii_seq(v@.subrange(lo as int, hi as int)) == "max"@),
{
    let sub = crate::text::slice_chars(v, lo, hi);
    let low = crate::text::ascii_lowercase(&sub);
    let m = chars_of("max");
    crate::text::chars_eq(&low, &m)
}

/// Parse a size into sectors. `max` is `None`, meaning "the largest free run".
pub fn parse_size(spec: &str, sector_size: usize) -> (r: Result<Option<u64>>)
    requires
        divides_by_sector(spec@) ==> sector_size > 0,
    ensures
        match read_size(spec@, sector_size as nat) {
            SizeReading::Max => r matches Ok(None),
            SizeReading::Sectors(n) => r matches Ok(Some(x)) && x == n,
            SizeReading::Zero => r matches Err(PartError::Usage(m)) && m@ == "size must be non-zero"@,
            SizeReading::Bad => r matches Err(PartError::Usage(m)) && m@ == "cannot parse size "@
                + debug_str(spec@),
        },
{
    let v = chars_of(spec);
    let (a, b) = trim_bounds(&v, 0, v.len());
    proof {
        assert(v@.subrange(0, v@.len() as int) =~= v@);
    }
    let ghost s = v@.subrange(a as int, b as int);
    if is_max(&v, a, b) {
        return Ok(None);
    }
    if a == b {
        return Err(bad_size(spec));
    }
    let c = v[b - 1];
    assert(s.last() == c);
    let (end, mult): (usize, u64) = if c == 'K' || c == 'k' {
        (b - 1, 1024)
    } else if c == 'M' || c == 'm' {
        (b - 1, 1024 * 1024)
    } else if c == 'G' || c == 'g' {
        (b - 1, 1024 * 1024 * 1024)
    } else if c == 'T' || c == 't' {
        (b - 1, 1024 * 1024 * 1024 * 1024)
    } else if c == 'S' || c == 's' {
        (b - 1, 0)
    } else {
        (b, 0)
    };
    assert(v@.subrange(a as int, end as int) == (match suffix_mult(c) {
        Some(m) => s.drop_last(),
        None => s,
    }));
    let (da, db) = trim_bounds(&v, a, end);
    let n = match parse_u64_chars(&v, da, db) {
        Some(n) => n,
        None => {
            return Err(bad_size(spec));
        },
    };
    if n == 0 {
        let m = chars_of("size must be non-zero");
        return Err(PartError::Usage(string_from_chars(&m)));
    }
    if mult == 0 {
        return Ok(Some(n));
    }
    let bytes = match n.checked_mul(mult) {
        Some(x) => x,
        None => {
            return Err(bad_size(spec));
        },
    };
    let ss = sector_size as u64;
    let q = bytes / ss;
    let out = if bytes % ss == 0 {
        q
    } else {
        assert(q < u64::MAX) by (nonlinear_arith)
            requires
                ss > 0,
                q == bytes / ss,
                bytes % ss != 0,
        ;
        q + 1
    };
    assert(out == ((bytes as int) + (ss as int) - 1) / (ss as int)) by (nonlinear_arith)
        requires
            ss > 0,
            q == bytes / ss,
            bytes % ss == 0 ==> out == q,
            bytes % ss != 0 ==> out == q + 1,
    ;
    Ok(Some(out))
}

fn bad_size(spec: &str) -> (e: PartError)
    ensures
        e matches PartError::Usage(m) && m@ == "cannot parse size "@ + debug_str(spec@),
{
    let mut v: Vec<char> = Vec::new();
    extend_str(&mut v, "cannot parse size ");
    let q = debug_quoted(spec);
    extend_str(&mut v, q.as_str());
    PartError::Usage(string_from_chars(&v))
}

/// `2^k`.
pub open spec fn p2(k: nat) -> nat
    decreases k,
{
    if k == 0 {
        1
    } else {
        2 * p2((k - 1) as nat)
    }
}

/// `1024^i`.
pub open spec fn p1024(i: nat) -> nat
    decreases i,
{
    if i == 0 {
        1
    } else {
        1024 * p1024((i - 1) as nat)
    }
}

/// The number of binary digits of `n`.
pub open spec fn bit_len(n: nat) -> nat
    decreases n,
{
    if n == 0 {
        0
    } else {
        1 + bit_len(n / 2)
    }
}

/// `num / den` rounded to the nearest integer, ties to even.
pub open spec fn round_even(num: nat, den: nat) -> nat {
    let q = num / den;
    let r = num % den;
    if 2 * r > den || (2 * r == den && q % 2 == 1) {
        q + 1
    } else {
        q
    }
}

/// The value a `u64` takes as an `f64`: itself below 2^53, else rounded to
/// 53 significant bits, ties to even.
pub open spec fn as_double(b: nat) -> nat {
    if b < p2(53) {
        b
    } else {
        let k = (bit_len(b) - 53) as nat;
        round_even(b, p2(k)) * p2(k)
    }
}

/// How many times the value is divided by 1024 before it drops under 1024,
/// at most five (petabytes).
pub open spec fn unit_steps(f: nat, i: nat) -> nat
    decreases 5 - i,
{
    if i < 5 && f >= p1024(i + 1) {
        unit_steps(f, i + 1)
    } else {
        i
    }
}

pub open spec fn unit_char(i: nat) -> char {
    if i == 1 {
        'K'
    } else if i == 2 {
        'M'
    } else if i == 3 {
        'G'
    } else if i == 4 {
        'T'
    } else {
        'P'
    }
}

/// A byte count for people: bytes below 1 KiB, else the value in the largest
/// unit of 1024 that keeps it at 1 or more, with one decimal under ten and
/// none from ten on, rounded as `f64` formatting rounds.
pub open spec fn human_text(bytes: u64) -> Seq<char> {
    let f = as_double(bytes as nat);
    let i = unit_steps(f, 0);
    if i == 0 {
        crate::text::decimal(bytes as nat) + seq!['B']
    } else if f < 10 * p1024(i) {
        let d = round_even(10 * f, p1024(i));
        crate::text::decimal(d / 10) + seq!['.', (('0' as nat) + d % 10) as char, unit_char(i)]
    } else {
        crate::text::decimal(round_even(f, p1024(i))) + seq![unit_char(i)]
    }
}

fn round_even_exec(num: u128, den: u128) -> (r: u128)
    requires
        den > 0,
        den < 0x8000_0000_0000_0000_0000_0000_0000_0000u128,
        num < 0x8000_0000_0000_0000_0000_0000_0000_0000u128,
    ensures
        r == round_even(num as nat, den as nat),
{
    let q = num / den;
    let r = num % den;
    if 2 * r > den || (2 * r == den && q % 2 == 1) {
        q + 1
    } else {
        q
    }
}

proof fn lemma_p2_step(a: nat, b: nat)
    requires
        a < b,
    ensures
        2 * p2(a) <= p2(b),
    decreases b,
{
    if a + 1 < b {
        lemma_p2_step(a, (b - 1) as nat);
    }
}

proof fn lemma_p2_64()
    ensures
        p2(53) == 0x20_0000_0000_0000,
        p2(64) == 0x1_0000_0000_0000_0000,
{
    reveal_with_fuel(p2, 65);
}

proof fn lemma_bit_len(n: nat)
    ensures
        n < p2(bit_len(n)),
        n > 0 ==> p2((bit_len(n) - 1) as nat) <= n,
    decreases n,
{
    if n > 0 {
        lemma_bit_len(n / 2);
    }
}

/// The `f64` value of a `u64`, as an integer.
fn double_of(b: u64) -> (f: u128)
    ensures
        f == as_double(b as nat),
        f <= 0x2_0000_0000_0000_0000,
{
    proof {
        lemma_p2_64();
    }
    let x = b as u128;
    if x < 0x20_0000_0000_0000 {
        return x;
    }
    let ghost bl = bit_len(x as nat);
    proof {
        lemma_bit_len(x as nat);
        if bl > 64 {
            lemma_p2_step(64, (bl - 1) as nat);
        }
        if bl <= 53 {
            if bl < 53 {
                lemma_p2_step(bl, 53);
            }
        }
    }
    let mut len: u128 = 0;
    let mut n: u128 = x;
    while n > 0
        invariant
            len + bit_len(n as nat) == bl,
            bl <= 64,
        decreases n,
    {
        n = n / 2;
        len = len + 1;
    }
    let k = len - 53;
    let mut pk: u128 = 1;
    let mut j: u128 = 0;
    while j < k
        invariant
            j <= k <= 11,
            pk == p2(j as nat),
            1 <= pk <= 0x800,
        decreases k - j,
    {
        proof {
            lemma_p2_step(j as nat, 11);
            reveal_with_fuel(p2, 12);
        }
        pk = pk * 2;
        j = j + 1;
    }
    proof {
        lemma_p2_step(0, 53);
    }
    let q = round_even_exec(x, pk);
    assert(q * pk <= x + pk) by (nonlinear_arith)
        requires
            pk > 0,
            q <= x / pk + 1,
    {
        assert((x / pk) * pk <= x);
    }
    q * pk
}

/// Render a byte count for people, as `part list` shows sizes.
pub fn human(bytes: u64) -> (s: String)
    ensures
        s@ == human_text(bytes),
{
    let f = double_of(bytes);
    let mut i: u128 = 0;
    let mut p: u128 = 1;
    assert(unit_steps(f as nat, 0) == unit_steps(f as nat, 0));
    while i < 5 && f >= p * 1024
        invariant
            i <= 5,
            p == p1024(i as nat),
            1 <= p <= 0x4_0000_0000_0000,
            unit_steps(f as nat, 0) == unit_steps(f as nat, i as nat),
        decreases 5 - i,
    {
        proof {
            reveal_with_fuel(p1024, 6);
        }
        p = p * 1024;
        i = i + 1;
    }
    let unit = if i == 1 {
        'K'
    } else if i == 2 {
        'M'
    } else if i == 3 {
        'G'
    } else if i == 4 {
        'T'
    } else {
        'P'
    };
    let mut v: Vec<char> = Vec::new();
    if i == 0 {
        crate::text::extend_chars(&mut v, &crate::text::u64_decimal(bytes));
        v.push('B');
    } else if f < 10 * p {
        let d = round_even_exec(10 * f, p);
        crate::text::extend_chars(&mut v, &crate::text::u128_decimal(d / 10));
        v.push('.');
        v.push(((48u8 + ((d % 10) as u8)) as char));
        v.push(unit);
    } else {
        crate::text::extend_chars(&mut v, &crate::text::u128_decimal(round_even_exec(f, p)));
        v.push(unit);
    }
    string_from_chars(&v)
}

} // verus!
