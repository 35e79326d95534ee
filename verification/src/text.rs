//! Character-level helpers shared by the parsers and renderers.
//!
//! Text is modelled as `Seq<char>`, the view vstd gives `str` and `String`.
use vstd::prelude::*;

verus! {

/// The characters of a string, in order.
pub fn chars_of(s: &str) -> (out: Vec<char>)
    ensures
        out@ == s@,
{
    let mut out: Vec<char> = Vec::new();
    for c in it: s.chars()
        invariant
            out@ == it.seq().take(it.index() as int),
            it.seq() == s@,
    {
        out.push(c);
    }
    out
}

/// Builds a `String` holding exactly the given characters (`FromIterator`).
#[verifier::external_body]
pub fn string_from_chars(v: &[char]) -> (s: String)
    ensures
        s@ == v@,
{
    v.iter().collect()
}

/// Appends one character to a string (`String::push`).
#[verifier::external_body]
pub fn push_char(s: &mut String, c: char)
    ensures
        final(s)@ == old(s)@.push(c),
{
    s.push(c)
}

/// Appends a string to another (`String::push_str`).
#[verifier::external_body]
pub fn push_str(s: &mut String, t: &str)
    ensures
        final(s)@ == old(s)@ + t@,
{
    s.push_str(t)
}

/// Unicode `White_Space`, the property `char::is_whitespace` tests.
pub open spec fn is_space(c: char) -> bool {
    ||| ('\u{9}' <= c && c <= '\u{d}')
    ||| c == ' '
    ||| c == '\u{85}'
    ||| c == '\u{a0}'
    ||| c == '\u{1680}'
    ||| ('\u{2000}' <= c && c <= '\u{200a}')
    ||| c == '\u{2028}'
    ||| c == '\u{2029}'
    ||| c == '\u{202f}'
    ||| c == '\u{205f}'
    ||| c == '\u{3000}'
}

pub fn is_whitespace(c: char) -> (b: bool)
    ensures
        b == is_space(c),
{
    ('\u{9}' <= c && c <= '\u{d}') || c == ' ' || c == '\u{85}' || c == '\u{a0}' || c == '\u{1680}'
        || ('\u{2000}' <= c && c <= '\u{200a}') || c == '\u{2028}' || c == '\u{2029}' || c
        == '\u{202f}' || c == '\u{205f}' || c == '\u{3000}'
}

/// Number of leading characters of `s` that are white space.
pub open spec fn lead_ws(s: Seq<char>) -> nat
    decreases s.len(),
{
    if s.len() > 0 && is_space(s[0]) {
        1 + lead_ws(s.drop_first())
    } else {
        0
    }
}

/// Number of trailing characters of `s` that are white space.
pub open spec fn trail_ws(s: Seq<char>) -> nat
    decreases s.len(),
{
    if s.len() > 0 && is_space(s.last()) {
        1 + trail_ws(s.drop_last())
    } else {
        0
    }
}

/// `s` with leading white space removed (`str::trim_start`).
pub open spec fn trim_start(s: Seq<char>) -> Seq<char> {
    s.skip(lead_ws(s) as int)
}

/// `s` with trailing white space removed (`str::trim_end`).
pub open spec fn trim_end(s: Seq<char>) -> Seq<char> {
    s.take(s.len() - trail_ws(s))
}

/// `s` with white space removed at both ends (`str::trim`).
pub open spec fn trim(s: Seq<char>) -> Seq<char> {
    trim_end(trim_start(s))
}

pub proof fn lemma_lead_ws(s: Seq<char>)
    ensures
        lead_ws(s) <= s.len(),
        forall|i: int| 0 <= i < lead_ws(s) ==> is_space(#[trigger] s[i]),
        lead_ws(s) < s.len() ==> !is_space(s[lead_ws(s) as int]),
    decreases s.len(),
{
    if s.len() > 0 && is_space(s[0]) {
        lemma_lead_ws(s.drop_first());
        assert forall|i: int| 0 <= i < lead_ws(s) implies is_space(#[trigger] s[i]) by {
            if i > 0 {
                assert(s[i] == s.drop_first()[i - 1]);
            }
        }
    }
}

pub proof fn lemma_trail_ws(s: Seq<char>)
    ensures
        trail_ws(s) <= s.len(),
        forall|i: int| s.len() - trail_ws(s) <= i < s.len() ==> is_space(#[trigger] s[i]),
        trail_ws(s) < s.len() ==> !is_space(s[s.len() - trail_ws(s) - 1]),
    decreases s.len(),
{
    if s.len() > 0 && is_space(s.last()) {
        lemma_trail_ws(s.drop_last());
        assert forall|i: int| s.len() - trail_ws(s) <= i < s.len() implies is_space(
            #[trigger] s[i],
        ) by {
            if i < s.len() - 1 {
                assert(s[i] == s.drop_last()[i]);
            }
        }
    }
}

/// Index just past the leading white space of `v[lo..hi]`.
pub fn skip_ws_forward(v: &[char], lo: usize, hi: usize) -> (r: usize)
    requires
        lo <= hi <= v@.len(),
    ensures
        r == lo + lead_ws(v@.subrange(lo as int, hi as int)),
        lo <= r <= hi,
{
    proof {
        lemma_lead_ws(v@.subrange(lo as int, hi as int));
    }
    let mut i = lo;
    while i < hi && is_whitespace(v[i])
        invariant
            lo <= i <= hi <= v@.len(),
            lead_ws(v@.subrange(lo as int, hi as int)) == (i - lo) + lead_ws(
                v@.subrange(i as int, hi as int),
            ),
        decreases hi - i,
    {
        assert(v@.subrange(i as int, hi as int).drop_first() =~= v@.subrange(i + 1, hi as int));
        i += 1;
    }
    i
}

/// Index just before the trailing white space of `v[lo..hi]`.
pub fn skip_ws_backward(v: &[char], lo: usize, hi: usize) -> (r: usize)
    requires
        lo <= hi <= v@.len(),
    ensures
        r == hi - trail_ws(v@.subrange(lo as int, hi as int)),
        lo <= r <= hi,
{
    proof {
        lemma_trail_ws(v@.subrange(lo as int, hi as int));
    }
    let mut j = hi;
    while j > lo && is_whitespace(v[j - 1])
        invariant
            lo <= j <= hi <= v@.len(),
            trail_ws(v@.subrange(lo as int, hi as int)) == (hi - j) + trail_ws(
                v@.subrange(lo as int, j as int),
            ),
        decreases j - lo,
    {
        assert(v@.subrange(lo as int, j as int).drop_last() =~= v@.subrange(lo as int, j - 1));
        j -= 1;
    }
    j
}

/// The bounds `(a, b)` of `trim(v[lo..hi])` within `v`.
pub fn trim_bounds(v: &[char], lo: usize, hi: usize) -> (r: (usize, usize))
    requires
        lo <= hi <= v@.len(),
    ensures
        lo <= r.0 <= r.1 <= hi,
        v@.subrange(r.0 as int, r.1 as int) == trim(v@.subrange(lo as int, hi as int)),
{
    let a = skip_ws_forward(v, lo, hi);
    let b = skip_ws_backward(v, a, hi);
    proof {
        let s = v@.subrange(lo as int, hi as int);
        assert(trim_start(s) =~= v@.subrange(a as int, hi as int));
        assert(trim(s) =~= v@.subrange(a as int, b as int));
    }
    (a, b)
}

/// `str::trim`, over a character vector.
pub fn trim_chars(v: &[char]) -> (out: Vec<char>)
    ensures
        out@ == trim(v@),
{
    let (a, b) = trim_bounds(v, 0, v.len());
    assert(v@.subrange(0, v@.len() as int) =~= v@);
    slice_chars(v, a, b)
}

/// A copy of `v[lo..hi]`.
pub fn slice_chars(v: &[char], lo: usize, hi: usize) -> (out: Vec<char>)
    requires
        lo <= hi <= v@.len(),
    ensures
        out@ == v@.subrange(lo as int, hi as int),
{
    let mut out: Vec<char> = Vec::new();
    let mut i = lo;
    while i < hi
        invariant
            lo <= i <= hi <= v@.len(),
            out@ == v@.subrange(lo as int, i as int),
        decreases hi - i,
    {
        out.push(v[i]);
        i += 1;
        assert(out@ =~= v@.subrange(lo as int, i as int));
    }
    out
}

/// Do two character sequences hold the same characters?
pub fn chars_eq(a: &[char], b: &[char]) -> (r: bool)
    ensures
        r == (a@ == b@),
{
    if a.len() != b.len() {
        return false;
    }
    let mut i: usize = 0;
    while i < a.len()
        invariant
            a@.len() == b@.len(),
            0 <= i <= a@.len(),
            a@.take(i as int) =~= b@.take(i as int),
        decreases a@.len() - i,
    {
        if a[i] != b[i] {
            assert(a@[i as int] != b@[i as int]);
            return false;
        }
        i += 1;
        assert(a@.take(i as int) =~= b@.take(i as int)) by {
            assert(a@.take(i as int) =~= a@.take(i - 1).push(a@[i - 1]));
            assert(b@.take(i as int) =~= b@.take(i - 1).push(b@[i - 1]));
        }
    }
    assert(a@ =~= a@.take(a@.len() as int));
    assert(b@ =~= b@.take(b@.len() as int));
    true
}

/// Is `p` a prefix of `s` starting at index `at`?
pub open spec fn has_at(s: Seq<char>, at: int, p: Seq<char>) -> bool {
    0 <= at && at + p.len() <= s.len() && s.subrange(at, at + p.len()) == p
}

pub fn chars_have_at(s: &[char], at: usize, p: &[char]) -> (r: bool)
    ensures
        r == has_at(s@, at as int, p@),
{
    if at > s.len() || p.len() > s.len() - at {
        return false;
    }
    let mut i: usize = 0;
    while i < p.len()
        invariant
            at + p@.len() <= s@.len(),
            at <= s@.len(),
            s@.len() == s.len(),
            0 <= i <= p@.len(),
            forall|k: int| 0 <= k < i ==> s@[at + k] == p@[k],
        decreases p@.len() - i,
    {
        if s[at + i] != p[i] {
            assert(s@.subrange(at as int, at + p@.len())[i as int] != p@[i as int]);
            return false;
        }
        i += 1;
    }
    assert(s@.subrange(at as int, at + p@.len()) =~= p@);
    true
}

/// ASCII lowercase of one character (`char::to_ascii_lowercase`).
pub open spec fn lower_ascii(c: char) -> char {
    if 'A' <= c && c <= 'Z' {
        ((c as u32) + 32) as char
    } else {
        c
    }
}

pub fn to_ascii_lower(c: char) -> (r: char)
    ensures
        r == lower_ascii(c),
{
    if 'A' <= c && c <= 'Z' {
        let n: u8 = (c as u8) + 32;
        n as char
    } else {
        c
    }
}

pub open spec fn lower_ascii_seq(s: Seq<char>) -> Seq<char> {
    s.map_values(|c: char| lower_ascii(c))
}

/// `str::to_ascii_lowercase`, over characters.
pub fn ascii_lowercase(v: &[char]) -> (out: Vec<char>)
    ensures
        out@ == lower_ascii_seq(v@),
{
    let mut out: Vec<char> = Vec::new();
    let mut i: usize = 0;
    while i < v.len()
        invariant
            0 <= i <= v@.len(),
            out@ == lower_ascii_seq(v@.take(i as int)),
        decreases v@.len() - i,
    {
        out.push(to_ascii_lower(v[i]));
        i += 1;
        assert(out@ =~= lower_ascii_seq(v@.take(i as int)));
    }
    assert(v@.take(v@.len() as int) =~= v@);
    out
}

/// Upper-case hexadecimal digit for `n < 16`.
pub open spec fn hex_digit_upper(n: nat) -> char {
    if n < 10 {
        (('0' as nat) + n) as char
    } else {
        (('A' as nat) + n - 10) as char
    }
}

/// Lower-case hexadecimal digit for `n < 16`.
pub open spec fn hex_digit_lower(n: nat) -> char {
    if n < 10 {
        (('0' as nat) + n) as char
    } else {
        (('a' as nat) + n - 10) as char
    }
}

pub fn hex_upper(n: u8) -> (c: char)
    requires
        n < 16,
    ensures
        c == hex_digit_upper(n as nat),
{
    if n < 10 {
        ((48u8 + n) as char)
    } else {
        ((55u8 + n) as char)
    }
}

pub fn hex_lower(n: u8) -> (c: char)
    requires
        n < 16,
    ensures
        c == hex_digit_lower(n as nat),
{
    if n < 10 {
        ((48u8 + n) as char)
    } else {
        ((87u8 + n) as char)
    }
}

/// Value of a hexadecimal digit, either case.
pub open spec fn hex_value(c: char) -> Option<nat> {
    if '0' <= c && c <= '9' {
        Some(((c as int) - ('0' as int)) as nat)
    } else if 'a' <= c && c <= 'f' {
        Some(((c as int) - ('a' as int) + 10) as nat)
    } else if 'A' <= c && c <= 'F' {
        Some(((c as int) - ('A' as int) + 10) as nat)
    } else {
        None
    }
}

pub fn hex_digit_value(c: char) -> (r: Option<u8>)
    ensures
        r matches Some(v) ==> hex_value(c) == Some(v as nat) && v < 16,
        r is None ==> hex_value(c) is None,
{
    if '0' <= c && c <= '9' {
        Some((c as u8) - 48)
    } else if 'a' <= c && c <= 'f' {
        Some((c as u8) - 87)
    } else if 'A' <= c && c <= 'F' {
        Some((c as u8) - 55)
    } else {
        None
    }
}

/// Decimal digit value.
pub open spec fn dec_value(c: char) -> Option<nat> {
    if '0' <= c && c <= '9' {
        Some(((c as int) - ('0' as int)) as nat)
    } else {
        None
    }
}

/// Decimal rendering of a natural number, no leading zeros (`"0"` for zero).
pub open spec fn decimal(n: nat) -> Seq<char>
    decreases n,
{
    if n < 10 {
        seq![(('0' as nat) + n) as char]
    } else {
        decimal(n / 10).push((('0' as nat) + (n % 10)) as char)
    }
}

/// `u128::to_string`.
pub fn u128_decimal(n: u128) -> (out: Vec<char>)
    ensures
        out@ == decimal(n as nat),
    decreases n,
{
    if n < 10 {
        let c = ((48u8 + (n as u8)) as char);
        let mut v = Vec::new();
        v.push(c);
        assert(v@ =~= decimal(n as nat));
        v
    } else {
        let mut v = u128_decimal(n / 10);
        let d = ((48u8 + ((n % 10) as u8)) as char);
        v.push(d);
        v
    }
}

/// `u64::to_string`.
pub fn u64_decimal(n: u64) -> (out: Vec<char>)
    ensures
        out@ == decimal(n as nat),
{
    u128_decimal(n as u128)
}

/// Appends the characters of `t` to `v`.
pub fn extend_chars(v: &mut Vec<char>, t: &[char])
    ensures
        final(v)@ == old(v)@ + t@,
{
    let mut i: usize = 0;
    while i < t.len()
        invariant
            0 <= i <= t@.len(),
            v@ == old(v)@ + t@.take(i as int),
        decreases t@.len() - i,
    {
        v.push(t[i]);
        i += 1;
        assert(v@ =~= old(v)@ + t@.take(i as int));
    }
    assert(t@.take(t@.len() as int) =~= t@);
}

/// Appends the characters of a string to `v`.
pub fn extend_str(v: &mut Vec<char>, t: &str)
    ensures
        final(v)@ == old(v)@ + t@,
{
    let c = chars_of(t);
    extend_chars(v, &c);
}

/// Is `x` a Unicode scalar value (a code point that is not a surrogate)?
pub open spec fn is_scalar_value(x: u32) -> bool {
    x < 0xD800 || (0xE000 <= x && x <= 0x10FFFF)
}

/// `char::from_u32`: the character with code point `x`, if `x` is a scalar value.
#[verifier::external_body]
pub fn char_from_u32(x: u32) -> (r: Option<char>)
    ensures
        r is Some <==> is_scalar_value(x),
        r matches Some(c) ==> c as u32 == x,
{
    char::from_u32(x)
}

/// The UTF-16 code units of one character.
pub open spec fn utf16_char(c: char) -> Seq<u16> {
    if (c as u32) < 0x10000 {
        seq![(c as u32) as u16]
    } else {
        let v = (c as u32) - 0x10000;
        seq![(0xD800 + v / 0x400) as u16, (0xDC00 + v % 0x400) as u16]
    }
}

/// The UTF-16 encoding of a character sequence (`str::encode_utf16`).
pub open spec fn utf16(s: Seq<char>) -> Seq<u16>
    decreases s.len(),
{
    if s.len() == 0 {
        Seq::empty()
    } else {
        utf16_char(s[0]) + utf16(s.drop_first())
    }
}

/// Lossy UTF-16 decoding (`String::from_utf16_lossy`): an unpaired surrogate
/// becomes U+FFFD.
pub open spec fn utf16_decode(u: Seq<u16>) -> Seq<char>
    decreases u.len(),
{
    if u.len() == 0 {
        Seq::empty()
    } else if u[0] < 0xD800 || u[0] > 0xDFFF {
        seq![(u[0] as u32) as char] + utf16_decode(u.drop_first())
    } else if u[0] <= 0xDBFF && u.len() >= 2 && 0xDC00 <= u[1] && u[1] <= 0xDFFF {
        seq![((0x10000 + (u[0] - 0xD800) * 0x400 + (u[1] - 0xDC00)) as u32) as char] + utf16_decode(
            u.skip(2),
        )
    } else {
        seq!['\u{FFFD}'] + utf16_decode(u.drop_first())
    }
}

/// The UTF-16 code units of one character, appended to `out`.
pub fn push_utf16(out: &mut Vec<u16>, c: char)
    ensures
        final(out)@ == old(out)@ + utf16_char(c),
{
    let x = c as u32;
    if x < 0x10000 {
        out.push(x as u16);
    } else {
        let v = x - 0x10000;
        out.push((0xD800 + v / 0x400) as u16);
        out.push((0xDC00 + v % 0x400) as u16);
    }
    assert(final(out)@ =~= old(out)@ + utf16_char(c));
}

/// `String::from_utf16_lossy`.
pub fn from_utf16_lossy(u: &[u16]) -> (s: String)
    ensures
        s@ == utf16_decode(u@),
{
    let mut out: Vec<char> = Vec::new();
    let mut i: usize = 0;
    assert(u@.skip(0) =~= u@);
    while i < u.len()
        invariant
            0 <= i <= u@.len(),
            u@.len() == u.len(),
            out@ + utf16_decode(u@.skip(i as int)) == utf16_decode(u@),
        decreases u@.len() - i,
    {
        let ghost rest = u@.skip(i as int);
        let x = u[i];
        if x < 0xD800 || x > 0xDFFF {
            let r = char_from_u32(x as u32);
            proof {
                assert(rest.drop_first() =~= u@.skip(i + 1));
            }
            match r {
                Some(ch) => {
                    proof {
                        lemma_char_of_code(ch, x as u32);
                    }
                    out.push(ch);
                },
                None => {
                    assert(false);
                },
            }
            i += 1;
            assert(out@ + utf16_decode(u@.skip(i as int)) =~= utf16_decode(u@));
        } else if x <= 0xDBFF && u.len() - i >= 2 && 0xDC00 <= u[i + 1] && u[i + 1] <= 0xDFFF {
            let y = u[i + 1];
            let cp: u32 = 0x10000 + ((x - 0xD800) as u32) * 0x400 + ((y - 0xDC00) as u32);
            proof {
                assert(rest.skip(2) =~= u@.skip(i + 2));
            }
            match char_from_u32(cp) {
                Some(ch) => {
                    proof {
                        lemma_char_of_code(ch, cp);
                    }
                    out.push(ch);
                },
                None => {
                    assert(false);
                },
            }
            i += 2;
            assert(out@ + utf16_decode(u@.skip(i as int)) =~= utf16_decode(u@));
        } else {
            out.push('\u{FFFD}');
            proof {
                assert(rest.drop_first() =~= u@.skip(i + 1));
            }
            i += 1;
            assert(out@ + utf16_decode(u@.skip(i as int)) =~= utf16_decode(u@));
        }
    }
    assert(u@.skip(u@.len() as int) =~= Seq::<u16>::empty());
    assert(out@ =~= utf16_decode(u@));
    string_from_chars(&out)
}

/// A character is a scalar value.
pub proof fn lemma_char_range(c: char)
    ensures
        is_scalar_value(c as u32),
{
}

/// Characters with the same code point are the same character.
pub proof fn lemma_char_inj(c: char, d: char)
    requires
        c as u32 == d as u32,
    ensures
        c == d,
{
}

/// A character is the character of its code point.
pub proof fn lemma_char_of_code(c: char, x: u32)
    requires
        c as u32 == x,
    ensures
        (x as char) == c,
{
}

/// Decoding the UTF-16 encoding of a character sequence gives it back.
pub proof fn lemma_utf16_roundtrip(s: Seq<char>)
    ensures
        utf16_decode(utf16(s)) == s,
    decreases s.len(),
{
    if s.len() > 0 {
        lemma_utf16_roundtrip(s.drop_first());
        let c = s[0];
        let u = utf16(s);
        let rest = utf16(s.drop_first());
        assert(u == utf16_char(c) + rest);
        let x = c as u32;
        lemma_char_range(c);
        lemma_char_of_code(c, x);
        if x < 0x10000 {
            assert(u.drop_first() =~= rest);
            assert(u[0] == (x as u16));
            assert(((u[0] as u32) as char) == c);
        } else {
            let v = x - 0x10000;
            assert(v < 0x100000);
            assert(u.skip(2) =~= rest);
            let hi = (0xD800 + v / 0x400) as u16;
            let lo = (0xDC00 + v % 0x400) as u16;
            assert(u[0] == hi && u[1] == lo);
            assert(0xD800 <= hi <= 0xDBFF);
            assert(0xDC00 <= lo <= 0xDFFF);
            assert(0x10000 + (hi - 0xD800) * 0x400 + (lo - 0xDC00) == x);
            assert((((0x10000 + (hi - 0xD800) * 0x400 + (lo - 0xDC00)) as u32) as char) == c);
        }
        assert(utf16_decode(u) =~= s);
    }
}

/// The number of UTF-16 units of each prefix grows with the prefix.
pub proof fn lemma_utf16_len(s: Seq<char>)
    ensures
        utf16(s).len() >= s.len(),
    decreases s.len(),
{
    if s.len() > 0 {
        lemma_utf16_len(s.drop_first());
    }
}

/// `parts.join(sep)`.
pub open spec fn joined(parts: Seq<Seq<char>>, sep: Seq<char>) -> Seq<char>
    decreases parts.len(),
{
    if parts.len() == 0 {
        Seq::empty()
    } else if parts.len() == 1 {
        parts[0]
    } else {
        joined(parts.drop_last(), sep) + sep + parts.last()
    }
}

pub fn join_strings(parts: &[String], sep: &str) -> (s: Vec<char>)
    ensures
        s@ == joined(parts@.map_values(|p: String| p@), sep@),
{
    let ghost ps = parts@.map_values(|p: String| p@);
    let mut v: Vec<char> = Vec::new();
    let mut i: usize = 0;
    while i < parts.len()
        invariant
            i <= parts@.len(),
            ps == parts@.map_values(|p: String| p@),
            v@ == joined(ps.take(i as int), sep@),
        decreases parts@.len() - i,
    {
        if i > 0 {
            extend_str(&mut v, sep);
        }
        extend_str(&mut v, parts[i].as_str());
        i += 1;
        assert(ps.take(i as int).drop_last() =~= ps.take(i - 1));
    }
    assert(ps.take(parts@.len() as int) =~= ps);
    v
}

/// The `Debug` rendering of a string: quoted, with special characters escaped.
pub uninterp spec fn debug_str(s: Seq<char>) -> Seq<char>;

/// `format!("{s:?}")` for a string slice.
///
/// The contract names the result: it depends on the text alone. Which
/// characters `Debug` escapes, and how, is left to std.
#[verifier::external_body]
pub fn debug_quoted(s: &str) -> (r: String)
    ensures
        r@ == debug_str(s@),
{
    format!("{s:?}")
}

/// Value of a run of decimal digits, most significant first.
pub open spec fn dec_run(d: Seq<char>) -> Option<nat>
    decreases d.len(),
{
    if d.len() == 0 {
        Some(0)
    } else {
        match (dec_run(d.drop_last()), dec_value(d.last())) {
            (Some(a), Some(v)) => Some(a * 10 + v),
            _ => None,
        }
    }
}

/// What `str::parse::<u64>` gives: an optional `+`, at least one decimal
/// digit, and a value that fits.
pub open spec fn parse_u64_spec(g: Seq<char>) -> Option<u64> {
    let d = if g.len() > 0 && g[0] == '+' {
        g.drop_first()
    } else {
        g
    };
    if d.len() == 0 {
        None
    } else {
        match dec_run(d) {
            Some(v) => if v <= u64::MAX {
                Some(v as u64)
            } else {
                None
            },
            None => None,
        }
    }
}

proof fn lemma_dec_run_none_extends(d: Seq<char>, n: nat)
    requires
        n <= d.len(),
        dec_run(d.take(n as int)) is None,
    ensures
        dec_run(d) is None,
    decreases d.len() - n,
{
    if n < d.len() {
        assert(d.take((n + 1) as int).drop_last() =~= d.take(n as int));
        lemma_dec_run_none_extends(d, n + 1);
    } else {
        assert(d.take(n as int) =~= d);
    }
}

proof fn lemma_dec_run_big_extends(d: Seq<char>, n: nat)
    requires
        n <= d.len(),
        dec_run(d.take(n as int)) matches Some(v) && v > u64::MAX,
    ensures
        dec_run(d) is None || dec_run(d)->0 > u64::MAX,
    decreases d.len() - n,
{
    if n < d.len() {
        let t = d.take((n + 1) as int);
        assert(t.drop_last() =~= d.take(n as int));
        if dec_run(t) is Some {
            let v = dec_run(d.take(n as int))->0;
            assert(dec_run(t)->0 >= v * 10);
        }
        if dec_run(t) is None {
            lemma_dec_run_none_extends(d, n + 1);
        } else {
            lemma_dec_run_big_extends(d, n + 1);
        }
    } else {
        assert(d.take(n as int) =~= d);
    }
}

/// `str::parse::<u64>` of `v[lo..hi]`.
pub fn parse_u64_chars(v: &[char], lo: usize, hi: usize) -> (r: Option<u64>)
    requires
        lo <= hi <= v@.len(),
    ensures
        r == parse_u64_spec(v@.subrange(lo as int, hi as int)),
{
    let ghost g = v@.subrange(lo as int, hi as int);
    let mut start = lo;
    if lo < hi && v[lo] == '+' {
        start = lo + 1;
    }
    let ghost d = v@.subrange(start as int, hi as int);
    assert(d == (if g.len() > 0 && g[0] == '+' {
        g.drop_first()
    } else {
        g
    }));
    if start == hi {
        return None;
    }
    let mut acc: u64 = 0;
    let mut i = start;
    assert(v@.subrange(start as int, start as int) =~= Seq::<char>::empty());
    while i < hi
        invariant
            lo <= start <= i <= hi <= v@.len(),
            start < hi,
            d == v@.subrange(start as int, hi as int),
            g == v@.subrange(lo as int, hi as int),
            parse_u64_spec(g) == (match dec_run(d) {
                Some(x) => if x <= u64::MAX {
                    Some(x as u64)
                } else {
                    None
                },
                None => None,
            }),
            dec_run(v@.subrange(start as int, i as int)) == Some(acc as nat),
        decreases hi - i,
    {
        let ghost prev = v@.subrange(start as int, i as int);
        let ghost next = v@.subrange(start as int, i + 1);
        assert(next.drop_last() =~= prev);
        let c = v[i];
        if !('0' <= c && c <= '9') {
            proof {
                assert(dec_run(next) is None);
                assert(d.take((i + 1 - start) as int) =~= next);
                lemma_dec_run_none_extends(d, (i + 1 - start) as nat);
            }
            return None;
        }
        let digit = (c as u64) - 48;
        if acc > (u64::MAX - digit) / 10 {
            proof {
                assert((acc as nat) * 10 + (digit as nat) > u64::MAX) by (nonlinear_arith)
                    requires
                        acc > (u64::MAX - digit) / 10,
                        digit <= 9,
                ;
                assert(d.take((i + 1 - start) as int) =~= next);
                lemma_dec_run_big_extends(d, (i + 1 - start) as nat);
            }
            return None;
        }
        assert((acc as nat) * 10 + (digit as nat) <= u64::MAX) by (nonlinear_arith)
            requires
                acc <= (u64::MAX - digit) / 10,
                digit <= 9,
        ;
        acc = acc * 10 + digit;
        i += 1;
    }
    assert(v@.subrange(start as int, hi as int) == d);
    Some(acc)
}

/// Value of a run of hexadecimal digits, most significant first.
pub open spec fn hex_run(d: Seq<char>) -> Option<nat>
    decreases d.len(),
{
    if d.len() == 0 {
        Some(0)
    } else {
        match (hex_run(d.drop_last()), hex_value(d.last())) {
            (Some(a), Some(v)) => Some(a * 16 + v),
            _ => None,
        }
    }
}

/// What `from_str_radix(g, 16)` yields for an unsigned type wide enough to hold
/// the value: an optional `+`, then at least one hexadecimal digit.
pub open spec fn radix16(g: Seq<char>) -> Option<nat> {
    let d = if g.len() > 0 && g[0] == '+' {
        g.drop_first()
    } else {
        g
    };
    if d.len() == 0 {
        None
    } else {
        hex_run(d)
    }
}


/// `from_str_radix(g, 16)` into a `u64`: `None` when the text is not a hex
/// number or its value does not fit.
pub open spec fn hex_u64(g: Seq<char>) -> Option<u64> {
    match radix16(g) {
        Some(v) => if v <= u64::MAX {
            Some(v as u64)
        } else {
            None
        },
        None => None,
    }
}

proof fn lemma_hex_run_none_extends(d: Seq<char>, n: nat)
    requires
        n <= d.len(),
        hex_run(d.take(n as int)) is None,
    ensures
        hex_run(d) is None,
    decreases d.len() - n,
{
    if n < d.len() {
        assert(d.take((n + 1) as int).drop_last() =~= d.take(n as int));
        lemma_hex_run_none_extends(d, n + 1);
    } else {
        assert(d.take(n as int) =~= d);
    }
}

proof fn lemma_hex_run_big_extends(d: Seq<char>, n: nat)
    requires
        n <= d.len(),
        hex_run(d.take(n as int)) matches Some(v) && v > u64::MAX,
    ensures
        hex_run(d) is None || hex_run(d)->0 > u64::MAX,
    decreases d.len() - n,
{
    if n < d.len() {
        let t = d.take((n + 1) as int);
        assert(t.drop_last() =~= d.take(n as int));
        if hex_run(t) is None {
            lemma_hex_run_none_extends(d, n + 1);
        } else {
            lemma_hex_run_big_extends(d, n + 1);
        }
    } else {
        assert(d.take(n as int) =~= d);
    }
}

/// `u64::from_str_radix(v[lo..hi], 16)`.
pub fn parse_hex_u64_chars(v: &[char], lo: usize, hi: usize) -> (r: Option<u64>)
    requires
        lo <= hi <= v@.len(),
    ensures
        r == hex_u64(v@.subrange(lo as int, hi as int)),
{
    let ghost g = v@.subrange(lo as int, hi as int);
    let mut start = lo;
    if lo < hi && v[lo] == '+' {
        start = lo + 1;
    }
    let ghost d = v@.subrange(start as int, hi as int);
    assert(d == (if g.len() > 0 && g[0] == '+' {
        g.drop_first()
    } else {
        g
    }));
    if start == hi {
        return None;
    }
    let mut acc: u64 = 0;
    let mut i = start;
    assert(v@.subrange(start as int, start as int) =~= Seq::<char>::empty());
    while i < hi
        invariant
            lo <= start <= i <= hi <= v@.len(),
            start < hi,
            d == v@.subrange(start as int, hi as int),
            g == v@.subrange(lo as int, hi as int),
            hex_u64(g) == (match hex_run(d) {
                Some(x) => if x <= u64::MAX {
                    Some(x as u64)
                } else {
                    None
                },
                None => None,
            }),
            hex_run(v@.subrange(start as int, i as int)) == Some(acc as nat),
        decreases hi - i,
    {
        let ghost prev = v@.subrange(start as int, i as int);
        let ghost next = v@.subrange(start as int, i + 1);
        assert(next.drop_last() =~= prev);
        let c = v[i];
        let digit: u64 = match hex_digit_value(c) {
            Some(x) => x as u64,
            None => {
                proof {
                    assert(hex_run(next) is None);
                    assert(d.take((i + 1 - start) as int) =~= next);
                    lemma_hex_run_none_extends(d, (i + 1 - start) as nat);
                }
                return None;
            },
        };
        if acc > (u64::MAX - digit) / 16 {
            proof {
                assert((acc as nat) * 16 + (digit as nat) > u64::MAX) by (nonlinear_arith)
                    requires
                        acc > (u64::MAX - digit) / 16,
                        digit <= 15,
                ;
                assert(d.take((i + 1 - start) as int) =~= next);
                lemma_hex_run_big_extends(d, (i + 1 - start) as nat);
            }
            return None;
        }
        assert((acc as nat) * 16 + (digit as nat) <= u64::MAX) by (nonlinear_arith)
            requires
                acc <= (u64::MAX - digit) / 16,
                digit <= 15,
        ;
        acc = acc * 16 + digit;
        i += 1;
    }
    assert(v@.subrange(start as int, hi as int) == d);
    Some(acc)
}

/// The first index at or after `i` holding `c`.
pub open spec fn first_from(s: Seq<char>, c: char, i: int) -> Option<int>
    decreases s.len() - i,
{
    if i < 0 || i >= s.len() {
        None
    } else if s[i] == c {
        Some(i)
    } else {
        first_from(s, c, i + 1)
    }
}

/// Trimming never lengthens a text.
pub proof fn lemma_trim_len(s: Seq<char>)
    ensures
        trim(s).len() <= s.len(),
{
    lemma_lead_ws(s);
    lemma_trail_ws(trim_start(s));
}

} // verus!
