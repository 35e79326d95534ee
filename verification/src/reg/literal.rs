//! Value literals: a command-line data token parsed into `(type, bytes)`,
//! and stored bytes formatted back for display.
//!
//! Strings are UTF-8: SZ, EXPAND_SZ and LINK are the text's bytes and one
//! NUL; MULTI_SZ is each element and a NUL, then a final NUL; DWORD is a
//! little-endian `u32`, DWORD_BIG_ENDIAN a big-endian one; QWORD a
//! little-endian `u64`; BINARY raw bytes; NONE nothing.
use crate::reg::addr::{lossy, lossy_text};
use crate::reg::error::{Error, Result};
use crate::text::{
    first_from,
    chars_eq, chars_of, debug_quoted, debug_str, decimal, extend_chars, extend_str, hex_digit_lower,
    hex_lower, join_strings, joined, string_from_chars, u64_decimal,
};
use vstd::prelude::*;

verus! {

/// A registry value type. `Other` carries a code outside the named ones.
#[derive(Clone, Copy, Debug, PartialEq, Eq)]
pub enum ValueType {
    NoneType,
    Sz,
    ExpandSz,
    Binary,
    Dword,
    DwordBigEndian,
    Link,
    MultiSz,
    Qword,
    Tombstone,
    Other(u32),
}

/// The type a `type:` keyword forces.
pub open spec fn keyword_type(s: Seq<char>) -> Option<ValueType> {
    if s == "sz"@ {
        Some(ValueType::Sz)
    } else if s == "expand"@ {
        Some(ValueType::ExpandSz)
    } else if s == "dword"@ {
        Some(ValueType::Dword)
    } else if s == "dword-be"@ {
        Some(ValueType::DwordBigEndian)
    } else if s == "qword"@ {
        Some(ValueType::Qword)
    } else if s == "multi"@ {
        Some(ValueType::MultiSz)
    } else if s == "hex"@ || s == "bin"@ {
        Some(ValueType::Binary)
    } else if s == "link"@ {
        Some(ValueType::Link)
    } else if s == "none"@ {
        Some(ValueType::NoneType)
    } else {
        None
    }
}

/// Lower-case hexadecimal of a number, no leading zeros (`{:x}`).
pub open spec fn hex_num(n: nat) -> Seq<char>
    decreases n,
{
    if n < 16 {
        seq![hex_digit_lower(n)]
    } else {
        hex_num(n / 16).push(hex_digit_lower(n % 16))
    }
}

/// Two lower-case hex digits per byte, no separators.
pub open spec fn hex_text(d: Seq<u8>) -> Seq<char>
    decreases d.len(),
{
    if d.len() == 0 {
        Seq::empty()
    } else {
        hex_text(d.drop_last()) + seq![
            hex_digit_lower((d.last() / 16) as nat),
            hex_digit_lower((d.last() % 16) as nat),
        ]
    }
}

pub open spec fn type_name_text(ty: ValueType) -> Seq<char> {
    match ty {
        ValueType::NoneType => "REG_NONE"@,
        ValueType::Sz => "REG_SZ"@,
        ValueType::ExpandSz => "REG_EXPAND_SZ"@,
        ValueType::Binary => "REG_BINARY"@,
        ValueType::Dword => "REG_DWORD"@,
        ValueType::DwordBigEndian => "REG_DWORD_BIG_ENDIAN"@,
        ValueType::Link => "REG_LINK"@,
        ValueType::MultiSz => "REG_MULTI_SZ"@,
        ValueType::Qword => "REG_QWORD"@,
        ValueType::Tombstone => "REG_TOMBSTONE"@,
        ValueType::Other(n) => "REG(0x"@ + hex_num(n as nat) + ")"@,
    }
}

pub open spec fn type_keyword_text(ty: ValueType) -> Seq<char> {
    match ty {
        ValueType::NoneType => "none"@,
        ValueType::Sz => "sz"@,
        ValueType::ExpandSz => "expand"@,
        ValueType::Binary => "binary"@,
        ValueType::Dword => "dword"@,
        ValueType::DwordBigEndian => "dword-be"@,
        ValueType::Link => "link"@,
        ValueType::MultiSz => "multi"@,
        ValueType::Qword => "qword"@,
        ValueType::Tombstone => "tombstone"@,
        ValueType::Other(n) => "0x"@ + hex_num(n as nat),
    }
}

fn same(a: &str, b: &str) -> (r: bool)
    ensures
        r == (a@ == b@),
{
    chars_eq(&chars_of(a), &chars_of(b))
}

/// Map a `type:` keyword to its type, or `None` if unrecognised.
pub fn keyword(s: &str) -> (r: Option<ValueType>)
    ensures
        r == keyword_type(s@),
{
    if same(s, "sz") {
        Some(ValueType::Sz)
    } else if same(s, "expand") {
        Some(ValueType::ExpandSz)
    } else if same(s, "dword") {
        Some(ValueType::Dword)
    } else if same(s, "dword-be") {
        Some(ValueType::DwordBigEndian)
    } else if same(s, "qword") {
        Some(ValueType::Qword)
    } else if same(s, "multi") {
        Some(ValueType::MultiSz)
    } else if same(s, "hex") || same(s, "bin") {
        Some(ValueType::Binary)
    } else if same(s, "link") {
        Some(ValueType::Link)
    } else if same(s, "none") {
        Some(ValueType::NoneType)
    } else {
        None
    }
}

/// `{:x}` of a number.
pub fn hex_number(n: u64) -> (out: Vec<char>)
    ensures
        out@ == hex_num(n as nat),
    decreases n,
{
    if n < 16 {
        let mut v: Vec<char> = Vec::new();
        v.push(hex_lower(n as u8));
        assert(v@ =~= hex_num(n as nat));
        v
    } else {
        let mut v = hex_number(n / 16);
        v.push(hex_lower((n % 16) as u8));
        v
    }
}

/// Lower-case hex with no separators.
pub fn hex(data: &[u8]) -> (s: String)
    ensures
        s@ == hex_text(data@),
{
    let mut v: Vec<char> = Vec::new();
    let mut i: usize = 0;
    while i < data.len()
        invariant
            i <= data@.len(),
            v@ == hex_text(data@.take(i as int)),
        decreases data@.len() - i,
    {
        let b = data[i];
        v.push(hex_lower(b / 16));
        v.push(hex_lower(b % 16));
        i += 1;
        assert(data@.take(i as int).drop_last() =~= data@.take(i - 1));
        assert(v@ =~= hex_text(data@.take(i as int)));
    }
    assert(data@.take(data@.len() as int) =~= data@);
    string_from_chars(&v)
}

/// The canonical `REG_*` name for a value type.
pub fn value_type_name(ty: ValueType) -> (s: String)
    ensures
        s@ == type_name_text(ty),
{
    match ty {
        ValueType::NoneType => "REG_NONE".to_owned(),
        ValueType::Sz => "REG_SZ".to_owned(),
        ValueType::ExpandSz => "REG_EXPAND_SZ".to_owned(),
        ValueType::Binary => "REG_BINARY".to_owned(),
        ValueType::Dword => "REG_DWORD".to_owned(),
        ValueType::DwordBigEndian => "REG_DWORD_BIG_ENDIAN".to_owned(),
        ValueType::Link => "REG_LINK".to_owned(),
        ValueType::MultiSz => "REG_MULTI_SZ".to_owned(),
        ValueType::Qword => "REG_QWORD".to_owned(),
        ValueType::Tombstone => "REG_TOMBSTONE".to_owned(),
        ValueType::Other(n) => {
            let mut v: Vec<char> = Vec::new();
            extend_str(&mut v, "REG(0x");
            extend_chars(&mut v, &hex_number(n as u64));
            extend_str(&mut v, ")");
            string_from_chars(&v)
        },
    }
}

/// A short lower-case keyword for a value type, for compact listings.
pub fn type_keyword(ty: ValueType) -> (s: String)
    ensures
        s@ == type_keyword_text(ty),
{
    match ty {
        ValueType::NoneType => "none".to_owned(),
        ValueType::Sz => "sz".to_owned(),
        ValueType::ExpandSz => "expand".to_owned(),
        ValueType::Binary => "binary".to_owned(),
        ValueType::Dword => "dword".to_owned(),
        ValueType::DwordBigEndian => "dword-be".to_owned(),
        ValueType::Link => "link".to_owned(),
        ValueType::MultiSz => "multi".to_owned(),
        ValueType::Qword => "qword".to_owned(),
        ValueType::Tombstone => "tombstone".to_owned(),
        ValueType::Other(n) => {
            let mut v: Vec<char> = Vec::new();
            extend_str(&mut v, "0x");
            extend_chars(&mut v, &hex_number(n as u64));
            string_from_chars(&v)
        },
    }
}

/// The big-endian value of four bytes.
pub open spec fn be32_value(d: Seq<u8>) -> int {
    d[0] * 0x100_0000 + d[1] * 0x1_0000 + d[2] * 0x100 + d[3]
}

/// The big-endian bytes of a `u32`.
pub open spec fn be32_bytes(n: u32) -> Seq<u8> {
    seq![(n / 0x100_0000) as u8, ((n / 0x1_0000) % 0x100) as u8, ((n / 0x100) % 0x100) as u8, (n % 0x100) as u8]
}

pub open spec fn decode_u32_le_spec(d: Seq<u8>) -> Option<u32> {
    if d.len() == 4 {
        Some(vstd::bytes::spec_u32_from_le_bytes(d))
    } else {
        None
    }
}

pub open spec fn decode_u32_be_spec(d: Seq<u8>) -> Option<u32> {
    if d.len() == 4 {
        Some(be32_value(d) as u32)
    } else {
        None
    }
}

pub open spec fn decode_u64_le_spec(d: Seq<u8>) -> Option<u64> {
    if d.len() == 8 {
        Some(vstd::bytes::spec_u64_from_le_bytes(d))
    } else {
        None
    }
}

pub fn decode_u32_le(d: &[u8]) -> (r: Option<u32>)
    ensures
        r == decode_u32_le_spec(d@),
{
    if d.len() == 4 {
        Some(vstd::bytes::u32_from_le_bytes(d))
    } else {
        None
    }
}

pub fn decode_u32_be(d: &[u8]) -> (r: Option<u32>)
    ensures
        r == decode_u32_be_spec(d@),
{
    if d.len() == 4 {
        let v: u32 = (d[0] as u32) * 0x100_0000 + (d[1] as u32) * 0x1_0000 + (d[2] as u32) * 0x100
            + (d[3] as u32);
        Some(v)
    } else {
        None
    }
}

pub fn decode_u64_le(d: &[u8]) -> (r: Option<u64>)
    ensures
        r == decode_u64_le_spec(d@),
{
    if d.len() == 8 {
        Some(vstd::bytes::u64_from_le_bytes(d))
    } else {
        None
    }
}

/// The big-endian bytes of `n`.
pub fn u32_to_be_bytes(n: u32) -> (out: Vec<u8>)
    ensures
        out@ == be32_bytes(n),
        be32_value(out@) == n,
{
    let mut out: Vec<u8> = Vec::new();
    out.push((n / 0x100_0000) as u8);
    out.push(((n / 0x1_0000) % 0x100) as u8);
    out.push(((n / 0x100) % 0x100) as u8);
    out.push((n % 0x100) as u8);
    assert(out@ =~= be32_bytes(n));
    assert(be32_value(out@) == n) by (nonlinear_arith)
        requires
            out@[0] == n / 0x100_0000,
            out@[1] == (n / 0x1_0000) % 0x100,
            out@[2] == (n / 0x100) % 0x100,
            out@[3] == n % 0x100,
            n <= 0xffff_ffff,
    ;
    out
}

/// The bytes a string value stores: its UTF-8 and one NUL.
pub open spec fn sz_spec(s: Seq<char>) -> Seq<u8> {
    vstd::utf8::encode_utf8(s).push(0)
}

pub fn sz_bytes(s: &str) -> (b: Vec<u8>)
    ensures
        b@ == sz_spec(s@),
{
    let mut b = vstd::slice::slice_to_vec(s.as_bytes());
    b.push(0);
    b
}

/// How many bytes remain once trailing NULs are dropped.
pub open spec fn unpadded_len(d: Seq<u8>) -> nat
    decreases d.len(),
{
    if d.len() == 0 {
        0
    } else if d.last() != 0 {
        d.len()
    } else {
        unpadded_len(d.drop_last())
    }
}

/// A stored string: the data without its trailing NULs, as lossy UTF-8.
pub open spec fn decode_sz_spec(d: Seq<u8>) -> Seq<char> {
    lossy(d.take(unpadded_len(d) as int))
}

proof fn lemma_unpadded_len(d: Seq<u8>)
    ensures
        unpadded_len(d) <= d.len(),
    decreases d.len(),
{
    if d.len() > 0 && d.last() == 0 {
        lemma_unpadded_len(d.drop_last());
    }
}

pub fn decode_sz(data: &[u8]) -> (s: String)
    ensures
        s@ == decode_sz_spec(data@),
{
    let mut end: usize = data.len();
    proof {
        assert(data@.take(end as int) =~= data@);
    }
    while end > 0 && data[end - 1] == 0
        invariant
            end <= data@.len(),
            unpadded_len(data@) == unpadded_len(data@.take(end as int)),
        decreases end,
    {
        assert(data@.take(end as int).drop_last() =~= data@.take(end - 1));
        end -= 1;
    }
    proof {
        let t = data@.take(end as int);
        if end > 0 {
            assert(t.last() != 0);
        }
        assert(unpadded_len(t) == end);
    }
    lossy_text(&data[0..end])
}

/// A stored multi-string's parts: the NUL-separated pieces, empty ones
/// skipped.
pub open spec fn zero_split(d: Seq<u8>) -> (Seq<Seq<u8>>, Seq<u8>)
    decreases d.len(),
{
    if d.len() == 0 {
        (Seq::empty(), Seq::empty())
    } else {
        let (done, cur) = zero_split(d.drop_last());
        if d.last() == 0 {
            (
                if cur.len() > 0 {
                    done.push(cur)
                } else {
                    done
                },
                Seq::empty(),
            )
        } else {
            (done, cur.push(d.last()))
        }
    }
}

pub open spec fn multi_pieces(d: Seq<u8>) -> Seq<Seq<u8>> {
    let (done, cur) = zero_split(d);
    if cur.len() > 0 {
        done.push(cur)
    } else {
        done
    }
}

pub open spec fn decode_multi_spec(d: Seq<u8>) -> Seq<Seq<char>> {
    multi_pieces(d).map_values(|p: Seq<u8>| lossy(p))
}

pub open spec fn string_texts(v: Seq<String>) -> Seq<Seq<char>> {
    v.map_values(|s: String| s@)
}

pub open spec fn byte_texts(v: Seq<Vec<u8>>) -> Seq<Seq<u8>> {
    v.map_values(|s: Vec<u8>| s@)
}

proof fn lemma_string_texts_push(a: Seq<String>, x: String)
    ensures
        string_texts(a.push(x)) == string_texts(a).push(x@),
{
    assert(string_texts(a.push(x)) =~= string_texts(a).push(x@));
}

proof fn lemma_byte_texts_push(a: Seq<Vec<u8>>, x: Vec<u8>)
    ensures
        byte_texts(a.push(x)) == byte_texts(a).push(x@),
{
    assert(byte_texts(a.push(x)) =~= byte_texts(a).push(x@));
}

pub fn decode_multi(data: &[u8]) -> (out: Vec<String>)
    ensures
        string_texts(out@) == decode_multi_spec(data@),
{
    let mut done: Vec<Vec<u8>> = Vec::new();
    let mut cur: Vec<u8> = Vec::new();
    let mut i: usize = 0;
    while i < data.len()
        invariant
            i <= data@.len(),
            (byte_texts(done@), cur@) == zero_split(data@.take(i as int)),
        decreases data@.len() - i,
    {
        assert(data@.take(i + 1).drop_last() =~= data@.take(i as int));
        let b = data[i];
        if b == 0 {
            if cur.len() > 0 {
                let piece = cur;
                proof {
                    lemma_byte_texts_push(done@, piece);
                }
                done.push(piece);
                cur = Vec::new();
            }
        } else {
            cur.push(b);
        }
        i += 1;
    }
    assert(data@.take(data@.len() as int) =~= data@);
    if cur.len() > 0 {
        proof {
            lemma_byte_texts_push(done@, cur);
        }
        done.push(cur);
    }
    let ghost pieces = byte_texts(done@);
    assert(pieces == multi_pieces(data@));
    let mut out: Vec<String> = Vec::new();
    let mut k: usize = 0;
    while k < done.len()
        invariant
            k <= done@.len(),
            pieces == byte_texts(done@),
            string_texts(out@) == pieces.take(k as int).map_values(|p: Seq<u8>| lossy(p)),
        decreases done@.len() - k,
    {
        let t = lossy_text(done[k].as_slice());
        proof {
            lemma_string_texts_push(out@, t);
        }
        out.push(t);
        k += 1;
        assert(pieces.take(k as int).map_values(|p: Seq<u8>| lossy(p)) =~= pieces.take(
            k - 1,
        ).map_values(|p: Seq<u8>| lossy(p)).push(lossy(pieces[k - 1])));
    }
    assert(pieces.take(done@.len() as int) =~= pieces);
    out
}

/// Split on commas; `\,` is a literal comma and `\\` a backslash. Starting
/// from the part read so far (`cur`) and the parts finished (`done`).
pub open spec fn esc_split(s: Seq<char>, cur: Seq<char>, done: Seq<Seq<char>>) -> Seq<Seq<char>>
    decreases s.len(),
{
    if s.len() == 0 {
        done.push(cur)
    } else if s[0] == '\\' {
        if s.len() == 1 {
            done.push(cur.push('\\'))
        } else if s[1] == ',' {
            esc_split(s.skip(2), cur.push(','), done)
        } else if s[1] == '\\' {
            esc_split(s.skip(2), cur.push('\\'), done)
        } else {
            esc_split(s.skip(2), cur.push('\\').push(s[1]), done)
        }
    } else if s[0] == ',' {
        esc_split(s.skip(1), Seq::empty(), done.push(cur))
    } else {
        esc_split(s.skip(1), cur.push(s[0]), done)
    }
}

pub open spec fn split_commas(s: Seq<char>) -> Seq<Seq<char>> {
    esc_split(s, Seq::empty(), Seq::empty())
}

pub open spec fn char_texts(v: Seq<Vec<char>>) -> Seq<Seq<char>> {
    v.map_values(|s: Vec<char>| s@)
}

proof fn lemma_char_texts_push(a: Seq<Vec<char>>, x: Vec<char>)
    ensures
        char_texts(a.push(x)) == char_texts(a).push(x@),
{
    assert(char_texts(a.push(x)) =~= char_texts(a).push(x@));
}

/// Split on commas, honouring `\,` as a literal comma and `\\` as a
/// backslash.
pub fn split_escaped_commas(s: &str) -> (out: Vec<String>)
    ensures
        string_texts(out@) == split_commas(s@),
{
    let v = chars_of(s);
    let mut done: Vec<Vec<char>> = Vec::new();
    let mut cur: Vec<char> = Vec::new();
    let mut i: usize = 0;
    assert(v@.skip(0) =~= v@);
    assert(char_texts(done@) =~= Seq::<Seq<char>>::empty());
    assert(cur@ =~= Seq::<char>::empty());
    while i < v.len()
        invariant
            i <= v@.len(),
            v@ == s@,
            split_commas(s@) == esc_split(v@.skip(i as int), cur@, char_texts(done@)),
        decreases v@.len() - i,
    {
        let ghost rest = v@.skip(i as int);
        let c = v[i];
        if c == '\\' {
            if i + 1 == v.len() {
                cur.push('\\');
                i += 1;
                proof {
                    assert(rest.len() == 1);
                    assert(v@.skip(i as int) =~= Seq::<char>::empty());
                }
            } else {
                let d = v[i + 1];
                assert(rest[1] == d);
                if d == ',' {
                    cur.push(',');
                } else if d == '\\' {
                    cur.push('\\');
                } else {
                    cur.push('\\');
                    cur.push(d);
                }
                i += 2;
                assert(v@.skip(i as int) =~= rest.skip(2));
            }
        } else if c == ',' {
            let piece = cur;
            proof {
                lemma_char_texts_push(done@, piece);
            }
            done.push(piece);
            cur = Vec::new();
            i += 1;
            assert(v@.skip(i as int) =~= rest.skip(1));
        } else {
            cur.push(c);
            i += 1;
            assert(v@.skip(i as int) =~= rest.skip(1));
        }
    }
    proof {
        lemma_char_texts_push(done@, cur);
    }
    done.push(cur);
    let mut out: Vec<String> = Vec::new();
    let mut k: usize = 0;
    while k < done.len()
        invariant
            k <= done@.len(),
            split_commas(s@) == char_texts(done@),
            string_texts(out@) == char_texts(done@).take(k as int),
        decreases done@.len() - k,
    {
        let t = string_from_chars(done[k].as_slice());
        proof {
            lemma_string_texts_push(out@, t);
        }
        out.push(t);
        k += 1;
        assert(char_texts(done@).take(k as int) =~= char_texts(done@).take(k - 1).push(
            done@[k - 1]@,
        ));
    }
    assert(char_texts(done@).take(done@.len() as int) =~= char_texts(done@));
    out
}

/// The bytes of a multi-string: each element's UTF-8 and a NUL, then a
/// final NUL. An empty text has no elements.
pub open spec fn multi_spec(s: Seq<char>) -> Seq<u8> {
    if s.len() == 0 {
        seq![0u8]
    } else {
        elems_bytes(split_commas(s)).push(0)
    }
}

pub open spec fn elems_bytes(es: Seq<Seq<char>>) -> Seq<u8>
    decreases es.len(),
{
    if es.len() == 0 {
        Seq::empty()
    } else {
        elems_bytes(es.drop_last()) + vstd::utf8::encode_utf8(es.last()).push(0)
    }
}

fn append_bytes(out: &mut Vec<u8>, b: &[u8])
    ensures
        final(out)@ == old(out)@ + b@,
{
    let mut i: usize = 0;
    while i < b.len()
        invariant
            i <= b@.len(),
            out@ == old(out)@ + b@.take(i as int),
        decreases b@.len() - i,
    {
        out.push(b[i]);
        i += 1;
        assert(out@ =~= old(out)@ + b@.take(i as int));
    }
    assert(b@.take(b@.len() as int) =~= b@);
}

pub fn multi_bytes(s: &str) -> (out: Vec<u8>)
    ensures
        out@ == multi_spec(s@),
{
    let mut out: Vec<u8> = Vec::new();
    if !s.is_empty() {
        let es = split_escaped_commas(s);
        let ghost ts = string_texts(es@);
        let mut k: usize = 0;
        while k < es.len()
            invariant
                k <= es@.len(),
                ts == string_texts(es@),
                ts == split_commas(s@),
                out@ == elems_bytes(ts.take(k as int)),
            decreases es@.len() - k,
        {
            append_bytes(&mut out, es[k].as_str().as_bytes());
            out.push(0);
            k += 1;
            assert(ts.take(k as int).drop_last() =~= ts.take(k - 1));
        }
        assert(ts.take(es@.len() as int) =~= ts);
    }
    out.push(0);
    proof {
        if s@.len() == 0 {
            assert(out@ =~= seq![0u8]);
        }
    }
    out
}


// ---------------------------------------------------------------------------
// Parsing a token.
// ---------------------------------------------------------------------------

pub open spec fn has_hex_prefix(t: Seq<char>) -> bool {
    t.len() >= 2 && t[0] == '0' && (t[1] == 'x' || t[1] == 'X')
}

/// The number an integer literal holds: decimal, or hex after `0x`/`0X`,
/// around whitespace.
pub open spec fn int_spec(s: Seq<char>) -> Option<u64> {
    let t = crate::text::trim(s);
    if has_hex_prefix(t) {
        crate::text::hex_u64(t.skip(2))
    } else {
        crate::text::parse_u64_spec(t)
    }
}

pub open spec fn int_error(s: Seq<char>) -> Seq<char> {
    debug_str(crate::text::trim(s)) + ": not an integer"@
}

pub open spec fn u32_error(s: Seq<char>) -> Seq<char> {
    s + ": does not fit in a DWORD (u32)"@
}

/// A `u32` literal, or the message that refuses it.
pub open spec fn u32_spec(s: Seq<char>) -> core::result::Result<u32, Seq<char>> {
    match int_spec(s) {
        None => Err(int_error(s)),
        Some(v) => if v <= u32::MAX {
            Ok(v as u32)
        } else {
            Err(u32_error(s))
        },
    }
}

fn int_error_of(s: &str) -> (e: Error)
    ensures
        e matches Error::InvalidSpec(m) && m@ == int_error(s@),
{
    let t = crate::text::trim_chars(&chars_of(s));
    let ts = string_from_chars(&t);
    let mut v: Vec<char> = Vec::new();
    extend_str(&mut v, debug_quoted(ts.as_str()).as_str());
    extend_str(&mut v, ": not an integer");
    Error::InvalidSpec(string_from_chars(&v))
}

/// An integer literal: decimal, or hexadecimal after `0x`/`0X`.
pub fn parse_int(s: &str) -> (r: Result<u64>)
    ensures
        int_spec(s@) matches Some(v) ==> r matches Ok(x) && x == v,
        int_spec(s@) is None ==> (r matches Err(Error::InvalidSpec(m)) && m@ == int_error(s@)),
{
    let v = chars_of(s);
    let (a, b) = crate::text::trim_bounds(&v, 0, v.len());
    proof {
        assert(v@.subrange(0, v@.len() as int) =~= v@);
    }
    let ghost t = v@.subrange(a as int, b as int);
    let parsed = if b - a >= 2 && v[a] == '0' && (v[a + 1] == 'x' || v[a + 1] == 'X') {
        assert(v@.subrange(a + 2, b as int) =~= t.skip(2));
        crate::text::parse_hex_u64_chars(&v, a + 2, b)
    } else {
        crate::text::parse_u64_chars(&v, a, b)
    };
    match parsed {
        Some(x) => Ok(x),
        None => Err(int_error_of(s)),
    }
}

pub fn parse_u64(s: &str) -> (r: Result<u64>)
    ensures
        int_spec(s@) matches Some(v) ==> r matches Ok(x) && x == v,
        int_spec(s@) is None ==> (r matches Err(Error::InvalidSpec(m)) && m@ == int_error(s@)),
{
    parse_int(s)
}

pub fn parse_u32(s: &str) -> (r: Result<u32>)
    ensures
        u32_spec(s@) matches Ok(v) ==> r matches Ok(x) && x == v,
        u32_spec(s@) matches Err(e) ==> (r matches Err(Error::InvalidSpec(m)) && m@ == e),
{
    let v = match parse_int(s) {
        Ok(v) => v,
        Err(e) => {
            return Err(e);
        },
    };
    if v <= 0xffff_ffff {
        Ok(v as u32)
    } else {
        let mut t: Vec<char> = Vec::new();
        extend_str(&mut t, s);
        extend_str(&mut t, ": does not fit in a DWORD (u32)");
        Err(Error::InvalidSpec(string_from_chars(&t)))
    }
}

/// The separators a hex literal may carry between digits.
pub open spec fn hex_noise(c: char) -> bool {
    c == ':' || c == '-' || c == ' ' || c == '\t' || c == '\n'
}

pub open spec fn hex_cleaned(s: Seq<char>) -> Seq<char>
    decreases s.len(),
{
    if s.len() == 0 {
        s
    } else if hex_noise(s.last()) {
        hex_cleaned(s.drop_last())
    } else {
        hex_cleaned(s.drop_last()).push(s.last())
    }
}

/// The text of one two-byte chunk of the cleaned literal.
pub open spec fn chunk_text(b0: u8, b1: u8) -> Seq<char> {
    if b0 < 128 && b1 < 128 {
        seq![b0 as char, b1 as char]
    } else {
        lossy(seq![b0, b1])
    }
}

/// The byte a chunk spells, when it spells one.
pub open spec fn chunk_byte(b0: u8, b1: u8) -> Option<u8> {
    if b0 < 128 && b1 < 128 {
        match crate::text::radix16(seq![b0 as char, b1 as char]) {
            Some(v) => Some(v as u8),
            None => None,
        }
    } else {
        None
    }
}

/// The bytes the chunks of `b` spell, or the message for the first that
/// spells none.
pub open spec fn chunks_spec(b: Seq<u8>) -> core::result::Result<Seq<u8>, Seq<char>>
    decreases b.len(),
{
    if b.len() < 2 {
        Ok(Seq::empty())
    } else {
        match chunk_byte(b[0], b[1]) {
            None => Err("hex: invalid byte "@ + debug_str(chunk_text(b[0], b[1]))),
            Some(x) => match chunks_spec(b.skip(2)) {
                Ok(r) => Ok(seq![x] + r),
                Err(m) => Err(m),
            },
        }
    }
}

/// A hex literal: separators dropped, then two digits per byte.
pub open spec fn hex_spec(s: Seq<char>) -> core::result::Result<Seq<u8>, Seq<char>> {
    let b = vstd::utf8::encode_utf8(hex_cleaned(s));
    if b.len() % 2 != 0 {
        Err("hex: needs an even number of digits"@)
    } else {
        chunks_spec(b)
    }
}

fn filter_noise(s: &str) -> (out: Vec<char>)
    ensures
        out@ == hex_cleaned(s@),
{
    let mut out: Vec<char> = Vec::new();
    let v = chars_of(s);
    let mut i: usize = 0;
    while i < v.len()
        invariant
            i <= v@.len(),
            v@ == s@,
            out@ == hex_cleaned(v@.take(i as int)),
        decreases v@.len() - i,
    {
        let c = v[i];
        assert(v@.take(i + 1).drop_last() =~= v@.take(i as int));
        if !(c == ':' || c == '-' || c == ' ' || c == '\t' || c == '\n') {
            out.push(c);
        }
        i += 1;
    }
    assert(v@.take(v@.len() as int) =~= v@);
    out
}

/// The byte two ASCII characters spell as hex, if they do.
fn pair_value(c0: char, c1: char) -> (r: Option<u8>)
    ensures
        r == (match crate::text::radix16(seq![c0, c1]) {
            Some(v) => Some(v as u8),
            None => None::<u8>,
        }),
{
    let mut w: Vec<char> = Vec::new();
    w.push(c0);
    w.push(c1);
    assert(w@.subrange(0, 2) =~= seq![c0, c1]);
    match crate::text::parse_hex_u64_chars(&w, 0, 2) {
        Some(x) => {
            proof {
                lemma_two_hex_digits(c0, c1);
            }
            Some(x as u8)
        },
        None => {
            proof {
                lemma_two_hex_digits(c0, c1);
            }
            None
        },
    }
}

proof fn lemma_two_hex_digits(c0: char, c1: char)
    ensures
        crate::text::radix16(seq![c0, c1]) matches Some(v) ==> v <= 255,
{
    let g = seq![c0, c1];
    reveal_with_fuel(crate::text::hex_run, 3);
    if g[0] == '+' {
        let d = g.drop_first();
        assert(d.drop_last() =~= Seq::<char>::empty());
    } else {
        assert(g.drop_last() =~= seq![c0]);
        assert(g.drop_last().drop_last() =~= Seq::<char>::empty());
    }
}

/// Hex data for BINARY: separators (`:`, `-`, space, tab, newline) are
/// dropped, then every two digits make a byte.
pub fn parse_hex(s: &str) -> (r: Result<Vec<u8>>)
    ensures
        hex_spec(s@) matches Ok(b) ==> r matches Ok(x) && x@ == b,
        hex_spec(s@) matches Err(m) ==> (r matches Err(Error::InvalidSpec(e)) && e@ == m),
{
    let cleaned = string_from_chars(&filter_noise(s));
    let b = cleaned.as_str().as_bytes();
    if b.len() % 2 != 0 {
        return Err(Error::InvalidSpec("hex: needs an even number of digits".to_owned()));
    }
    let mut out: Vec<u8> = Vec::new();
    let mut i: usize = 0;
    assert(b@.skip(0) =~= b@);
    while i < b.len()
        invariant
            i <= b@.len(),
            i % 2 == 0,
            b@.len() % 2 == 0,
            b@ == vstd::utf8::encode_utf8(hex_cleaned(s@)),
            chunks_spec(b@) == (match chunks_spec(b@.skip(i as int)) {
                Ok(r) => Ok(out@ + r),
                Err(m) => Err(m),
            }),
        decreases b@.len() - i,
    {
        let ghost rest = b@.skip(i as int);
        let b0 = b[i];
        let b1 = b[i + 1];
        assert(rest[0] == b0 && rest[1] == b1);
        assert(rest.skip(2) =~= b@.skip(i + 2));
        let byte = if b0 < 128 && b1 < 128 {
            pair_value(b0 as char, b1 as char)
        } else {
            None
        };
        match byte {
            Some(x) => {
                let ghost before = out@;
                out.push(x);
                proof {
                    match chunks_spec(b@.skip(i + 2)) {
                        Ok(r) => {
                            assert(out@ + r =~= before + (seq![x] + r));
                        },
                        Err(_) => {},
                    }
                }
            },
            None => {
                let text: Vec<char> = if b0 < 128 && b1 < 128 {
                    let mut t: Vec<char> = Vec::new();
                    t.push(b0 as char);
                    t.push(b1 as char);
                    assert(t@ =~= seq![b0 as char, b1 as char]);
                    t
                } else {
                    let pair: [u8; 2] = [b0, b1];
                    let l = lossy_text(&pair);
                    assert(pair@ =~= seq![b0, b1]);
                    chars_of(l.as_str())
                };
                let ts = string_from_chars(&text);
                let mut m: Vec<char> = Vec::new();
                extend_str(&mut m, "hex: invalid byte ");
                extend_str(&mut m, debug_quoted(ts.as_str()).as_str());
                return Err(Error::InvalidSpec(string_from_chars(&m)));
            },
        }
        i += 2;
    }
    assert(b@.skip(b@.len() as int) =~= Seq::<u8>::empty());
    assert(out@ + Seq::<u8>::empty() =~= out@);
    Ok(out)
}


pub open spec fn all_hex_digits(s: Seq<char>) -> bool {
    forall|i: int| 0 <= i < s.len() ==> (#[trigger] crate::text::hex_value(s[i])) is Some
}

pub open spec fn all_dec_digits(s: Seq<char>) -> bool {
    forall|i: int| 0 <= i < s.len() ==> (#[trigger] crate::text::dec_value(s[i])) is Some
}

/// A number stored as DWORD when it fits, else as QWORD.
pub open spec fn number_value(v: u64) -> (ValueType, Seq<u8>) {
    if v <= u32::MAX {
        (ValueType::Dword, vstd::bytes::spec_u32_to_le_bytes(v as u32))
    } else {
        (ValueType::Qword, vstd::bytes::spec_u64_to_le_bytes(v))
    }
}

/// Broad inference: an all-digit token is a number, as is `0x` followed
/// by hex digits; everything else is a string.
pub open spec fn infer_spec(t: Seq<char>) -> (ValueType, Seq<u8>) {
    if has_hex_prefix(t) {
        let h = t.skip(2);
        if h.len() > 0 && all_hex_digits(h) {
            match crate::text::hex_u64(h) {
                Some(v) => number_value(v),
                None => (ValueType::Sz, sz_spec(t)),
            }
        } else {
            (ValueType::Sz, sz_spec(t))
        }
    } else if t.len() > 0 && all_dec_digits(t) {
        match crate::text::parse_u64_spec(t) {
            Some(v) => number_value(v),
            None => (ValueType::Sz, sz_spec(t)),
        }
    } else {
        (ValueType::Sz, sz_spec(t))
    }
}

fn number_bytes(v: u64) -> (r: (ValueType, Vec<u8>))
    ensures
        (r.0, r.1@) == number_value(v),
{
    if v <= 0xffff_ffff {
        (ValueType::Dword, vstd::bytes::u32_to_le_bytes(v as u32))
    } else {
        (ValueType::Qword, vstd::bytes::u64_to_le_bytes(v))
    }
}

fn all_hex_from(v: &[char], lo: usize) -> (r: bool)
    requires
        lo <= v@.len(),
    ensures
        r == all_hex_digits(v@.skip(lo as int)),
{
    let mut i = lo;
    while i < v.len()
        invariant
            lo <= i <= v@.len(),
            forall|k: int| lo <= k < i ==> (#[trigger] crate::text::hex_value(v@[k])) is Some,
        decreases v@.len() - i,
    {
        if crate::text::hex_digit_value(v[i]).is_none() {
            assert(crate::text::hex_value(v@.skip(lo as int)[i - lo]) is None);
            return false;
        }
        i += 1;
    }
    assert forall|k: int| 0 <= k < v@.skip(lo as int).len() implies (#[trigger] crate::text::hex_value(
        v@.skip(lo as int)[k],
    )) is Some by {
        assert(v@.skip(lo as int)[k] == v@[lo + k]);
    }
    true
}

fn all_dec(v: &[char]) -> (r: bool)
    ensures
        r == all_dec_digits(v@),
{
    let mut i: usize = 0;
    while i < v.len()
        invariant
            i <= v@.len(),
            forall|k: int| 0 <= k < i ==> (#[trigger] crate::text::dec_value(v@[k])) is Some,
        decreases v@.len() - i,
    {
        if !('0' <= v[i] && v[i] <= '9') {
            assert(crate::text::dec_value(v@[i as int]) is None);
            return false;
        }
        i += 1;
    }
    true
}

/// Infer a token's type: numbers by magnitude, everything else a string.
/// Leading zeros are lost.
pub fn infer(token: &str) -> (r: (ValueType, Vec<u8>))
    ensures
        (r.0, r.1@) == infer_spec(token@),
{
    let v = chars_of(token);
    if v.len() >= 2 && v[0] == '0' && (v[1] == 'x' || v[1] == 'X') {
        if v.len() > 2 && all_hex_from(&v, 2) {
            assert(v@.subrange(2, v@.len() as int) =~= v@.skip(2));
            match crate::text::parse_hex_u64_chars(&v, 2, v.len()) {
                Some(x) => {
                    return number_bytes(x);
                },
                None => {},
            }
        }
    } else if v.len() > 0 && all_dec(&v) {
        assert(v@.subrange(0, v@.len() as int) =~= v@);
        match crate::text::parse_u64_chars(&v, 0, v.len()) {
            Some(x) => {
                return number_bytes(x);
            },
            None => {},
        }
    }
    (ValueType::Sz, sz_bytes(token))
}

/// What a `type:`-forced literal parses to, or the message refusing it.
pub open spec fn typed_spec(ty: ValueType, rest: Seq<char>) -> core::result::Result<(ValueType, Seq<u8>), Seq<char>> {
    match ty {
        ValueType::Sz | ValueType::ExpandSz | ValueType::Link => Ok((ty, sz_spec(rest))),
        ValueType::Dword => match u32_spec(rest) {
            Ok(v) => Ok((ty, vstd::bytes::spec_u32_to_le_bytes(v))),
            Err(m) => Err(m),
        },
        ValueType::DwordBigEndian => match u32_spec(rest) {
            Ok(v) => Ok((ty, be32_bytes(v))),
            Err(m) => Err(m),
        },
        ValueType::Qword => match int_spec(rest) {
            Some(v) => Ok((ty, vstd::bytes::spec_u64_to_le_bytes(v))),
            None => Err(int_error(rest)),
        },
        ValueType::MultiSz => Ok((ty, multi_spec(rest))),
        ValueType::Binary => match hex_spec(rest) {
            Ok(b) => Ok((ty, b)),
            Err(m) => Err(m),
        },
        ValueType::NoneType => if rest.len() > 0 {
            Err("none: takes no data"@)
        } else {
            Ok((ty, Seq::empty()))
        },
        _ => Err("unsupported value type"@),
    }
}

/// What a token parses to: a recognised keyword before the first `:`
/// forces the type, otherwise the type is inferred.
pub open spec fn parse_spec(t: Seq<char>) -> core::result::Result<(ValueType, Seq<u8>), Seq<char>> {
    match first_from(t, ':', 0) {
        Some(p) => match keyword_type(t.take(p)) {
            Some(ty) => typed_spec(ty, t.skip(p + 1)),
            None => Ok(infer_spec(t)),
        },
        None => Ok(infer_spec(t)),
    }
}

pub fn parse_typed(ty: ValueType, rest: &str) -> (r: Result<(ValueType, Vec<u8>)>)
    ensures
        typed_spec(ty, rest@) matches Ok((t, b)) ==> r matches Ok(x) && x.0 == t && x.1@ == b,
        typed_spec(ty, rest@) matches Err(m) ==> (r matches Err(Error::InvalidSpec(e)) && e@ == m),
{
    let bytes = match ty {
        ValueType::Sz | ValueType::ExpandSz | ValueType::Link => sz_bytes(rest),
        ValueType::Dword => match parse_u32(rest) {
            Ok(v) => vstd::bytes::u32_to_le_bytes(v),
            Err(e) => {
                return Err(e);
            },
        },
        ValueType::DwordBigEndian => match parse_u32(rest) {
            Ok(v) => u32_to_be_bytes(v),
            Err(e) => {
                return Err(e);
            },
        },
        ValueType::Qword => match parse_u64(rest) {
            Ok(v) => vstd::bytes::u64_to_le_bytes(v),
            Err(e) => {
                return Err(e);
            },
        },
        ValueType::MultiSz => multi_bytes(rest),
        ValueType::Binary => match parse_hex(rest) {
            Ok(b) => b,
            Err(e) => {
                return Err(e);
            },
        },
        ValueType::NoneType => {
            if !rest.is_empty() {
                return Err(Error::InvalidSpec("none: takes no data".to_owned()));
            }
            Vec::new()
        },
        _ => {
            return Err(Error::InvalidSpec("unsupported value type".to_owned()));
        },
    };
    Ok((ty, bytes))
}

/// Parse a command-line data token into a `(type, bytes)` pair.
pub fn parse(token: &str) -> (r: Result<(ValueType, Vec<u8>)>)
    ensures
        parse_spec(token@) matches Ok((t, b)) ==> r matches Ok(x) && x.0 == t && x.1@ == b,
        parse_spec(token@) matches Err(m) ==> (r matches Err(Error::InvalidSpec(e)) && e@ == m),
{
    let v = chars_of(token);
    let mut i: usize = 0;
    while i < v.len()
        invariant
            i <= v@.len(),
            v@ == token@,
            first_from(v@, ':', 0) == first_from(v@, ':', i as int),
        ensures
            i <= v@.len(),
            v@ == token@,
            first_from(v@, ':', 0) == first_from(v@, ':', i as int),
            i < v@.len() ==> v@[i as int] == ':',
        decreases v@.len() - i,
    {
        if v[i] == ':' {
            break;
        }
        i += 1;
    }
    if i < v.len() {
        let prefix = string_from_chars(&crate::text::slice_chars(&v, 0, i));
        assert(v@.subrange(0, i as int) =~= v@.take(i as int));
        match keyword(prefix.as_str()) {
            Some(ty) => {
                let rest = string_from_chars(&crate::text::slice_chars(&v, i + 1, v.len()));
                assert(v@.subrange(i + 1, v@.len() as int) =~= v@.skip(i + 1));
                return parse_typed(ty, rest.as_str());
            },
            None => {},
        }
    }
    Ok(infer(token))
}

// ---------------------------------------------------------------------------
// Formatting stored bytes.
// ---------------------------------------------------------------------------

pub open spec fn num_or_hex(v: Option<u32>, d: Seq<u8>) -> Seq<char> {
    match v {
        Some(x) => decimal(x as nat),
        None => hex_text(d),
    }
}

pub open spec fn num64_or_hex(v: Option<u64>, d: Seq<u8>) -> Seq<char> {
    match v {
        Some(x) => decimal(x as nat),
        None => hex_text(d),
    }
}

/// The human view of stored data: one concise line where possible.
pub open spec fn human_text(ty: ValueType, d: Seq<u8>) -> Seq<char> {
    match ty {
        ValueType::Sz | ValueType::ExpandSz | ValueType::Link => debug_str(decode_sz_spec(d)),
        ValueType::Dword => num_or_hex(decode_u32_le_spec(d), d),
        ValueType::DwordBigEndian => num_or_hex(decode_u32_be_spec(d), d),
        ValueType::Qword => num64_or_hex(decode_u64_le_spec(d), d),
        ValueType::MultiSz => "["@ + joined(decode_multi_spec(d), ", "@) + "]"@,
        ValueType::NoneType => if d.len() == 0 {
            "(none)"@
        } else {
            hex_text(d)
        },
        _ => hex_text(d),
    }
}

/// The bare view for a single `get`: no quotes, one element per line.
pub open spec fn bare_text(ty: ValueType, d: Seq<u8>) -> Seq<char> {
    match ty {
        ValueType::Sz | ValueType::ExpandSz | ValueType::Link => decode_sz_spec(d),
        ValueType::Dword => num_or_hex(decode_u32_le_spec(d), d),
        ValueType::DwordBigEndian => num_or_hex(decode_u32_be_spec(d), d),
        ValueType::Qword => num64_or_hex(decode_u64_le_spec(d), d),
        ValueType::MultiSz => joined(decode_multi_spec(d), "\n"@),
        ValueType::NoneType => Seq::empty(),
        _ => hex_text(d),
    }
}

fn num_text(v: Option<u32>, d: &[u8]) -> (s: Vec<char>)
    ensures
        s@ == num_or_hex(v, d@),
{
    match v {
        Some(x) => u64_decimal(x as u64),
        None => chars_of(hex(d).as_str()),
    }
}

fn num64_text(v: Option<u64>, d: &[u8]) -> (s: Vec<char>)
    ensures
        s@ == num64_or_hex(v, d@),
{
    match v {
        Some(x) => u64_decimal(x),
        None => chars_of(hex(d).as_str()),
    }
}

/// Render value data for the human view.
pub fn format_human(ty: ValueType, data: &[u8]) -> (s: String)
    ensures
        s@ == human_text(ty, data@),
{
    match ty {
        ValueType::Sz | ValueType::ExpandSz | ValueType::Link => {
            let t = decode_sz(data);
            debug_quoted(t.as_str())
        },
        ValueType::Dword => string_from_chars(&num_text(decode_u32_le(data), data)),
        ValueType::DwordBigEndian => string_from_chars(&num_text(decode_u32_be(data), data)),
        ValueType::Qword => string_from_chars(&num64_text(decode_u64_le(data), data)),
        ValueType::MultiSz => {
            let parts = decode_multi(data);
            let mut v: Vec<char> = Vec::new();
            extend_str(&mut v, "[");
            extend_chars(&mut v, &join_strings(&parts, ", "));
            extend_str(&mut v, "]");
            string_from_chars(&v)
        },
        ValueType::NoneType => {
            if data.len() == 0 {
                "(none)".to_owned()
            } else {
                hex(data)
            }
        },
        _ => hex(data),
    }
}

/// Render value data bare, for a single `get`, so output pipes cleanly.
pub fn format_bare(ty: ValueType, data: &[u8]) -> (s: String)
    ensures
        s@ == bare_text(ty, data@),
{
    match ty {
        ValueType::Sz | ValueType::ExpandSz | ValueType::Link => decode_sz(data),
        ValueType::Dword => string_from_chars(&num_text(decode_u32_le(data), data)),
        ValueType::DwordBigEndian => string_from_chars(&num_text(decode_u32_be(data), data)),
        ValueType::Qword => string_from_chars(&num64_text(decode_u64_le(data), data)),
        ValueType::MultiSz => {
            let parts = decode_multi(data);
            string_from_chars(&join_strings(&parts, "\n"))
        },
        ValueType::NoneType => String::new(),
        _ => hex(data),
    }
}


/// One multi-string element escaped for a token: `\` becomes `\\` and `,`
/// becomes `\,`.
pub open spec fn esc_text(e: Seq<char>) -> Seq<char>
    decreases e.len(),
{
    if e.len() == 0 {
        Seq::empty()
    } else {
        esc_text(e.drop_last()) + (if e.last() == '\\' {
            "\\\\"@
        } else if e.last() == ',' {
            "\\,"@
        } else {
            seq![e.last()]
        })
    }
}

pub open spec fn esc_all(es: Seq<Seq<char>>) -> Seq<Seq<char>> {
    es.map_values(|e: Seq<char>| esc_text(e))
}

/// The `type:`-prefixed token for stored data: the inverse of `parse` for
/// the text batch format, always explicit so a re-apply is exact.
pub open spec fn token_text(ty: ValueType, d: Seq<u8>) -> Seq<char> {
    match ty {
        ValueType::Sz => "sz:"@ + decode_sz_spec(d),
        ValueType::ExpandSz => "expand:"@ + decode_sz_spec(d),
        ValueType::Link => "link:"@ + decode_sz_spec(d),
        ValueType::Dword => "dword:"@ + decimal(
            match decode_u32_le_spec(d) {
                Some(v) => v as nat,
                None => 0,
            },
        ),
        ValueType::DwordBigEndian => "dword-be:"@ + decimal(
            match decode_u32_be_spec(d) {
                Some(v) => v as nat,
                None => 0,
            },
        ),
        ValueType::Qword => "qword:"@ + decimal(
            match decode_u64_le_spec(d) {
                Some(v) => v as nat,
                None => 0,
            },
        ),
        ValueType::MultiSz => "multi:"@ + joined(esc_all(decode_multi_spec(d)), ","@),
        ValueType::Binary => "hex:"@ + hex_text(d),
        ValueType::NoneType => "none:"@,
        ValueType::Tombstone => "<tombstone>"@,
        ValueType::Other(n) => "0x"@ + hex_num(n as nat) + ":"@ + hex_text(d),
    }
}

fn escape_element(e: &str) -> (out: String)
    ensures
        out@ == esc_text(e@),
{
    let v = chars_of(e);
    let mut out: Vec<char> = Vec::new();
    let mut i: usize = 0;
    while i < v.len()
        invariant
            i <= v@.len(),
            v@ == e@,
            out@ == esc_text(v@.take(i as int)),
        decreases v@.len() - i,
    {
        assert(v@.take(i + 1).drop_last() =~= v@.take(i as int));
        let c = v[i];
        if c == '\\' {
            extend_str(&mut out, "\\\\");
        } else if c == ',' {
            extend_str(&mut out, "\\,");
        } else {
            out.push(c);
            assert(out@ =~= esc_text(v@.take(i as int)) + seq![c]);
        }
        i += 1;
    }
    assert(v@.take(v@.len() as int) =~= v@);
    string_from_chars(&out)
}

/// Encode stored `(ty, data)` back into a `type:`-prefixed literal token.
pub fn to_token(ty: ValueType, data: &[u8]) -> (s: String)
    ensures
        s@ == token_text(ty, data@),
{
    let mut v: Vec<char> = Vec::new();
    match ty {
        ValueType::Sz => {
            extend_str(&mut v, "sz:");
            extend_str(&mut v, decode_sz(data).as_str());
        },
        ValueType::ExpandSz => {
            extend_str(&mut v, "expand:");
            extend_str(&mut v, decode_sz(data).as_str());
        },
        ValueType::Link => {
            extend_str(&mut v, "link:");
            extend_str(&mut v, decode_sz(data).as_str());
        },
        ValueType::Dword => {
            extend_str(&mut v, "dword:");
            let n: u32 = match decode_u32_le(data) {
                Some(x) => x,
                None => 0,
            };
            extend_chars(&mut v, &u64_decimal(n as u64));
        },
        ValueType::DwordBigEndian => {
            extend_str(&mut v, "dword-be:");
            let n: u32 = match decode_u32_be(data) {
                Some(x) => x,
                None => 0,
            };
            extend_chars(&mut v, &u64_decimal(n as u64));
        },
        ValueType::Qword => {
            extend_str(&mut v, "qword:");
            let n: u64 = match decode_u64_le(data) {
                Some(x) => x,
                None => 0,
            };
            extend_chars(&mut v, &u64_decimal(n));
        },
        ValueType::MultiSz => {
            extend_str(&mut v, "multi:");
            let parts = decode_multi(data);
            let mut esc: Vec<String> = Vec::new();
            let mut k: usize = 0;
            while k < parts.len()
                invariant
                    k <= parts@.len(),
                    string_texts(esc@) == esc_all(string_texts(parts@).take(k as int)),
                decreases parts@.len() - k,
            {
                let t = escape_element(parts[k].as_str());
                proof {
                    lemma_string_texts_push(esc@, t);
                }
                esc.push(t);
                k += 1;
                assert(esc_all(string_texts(parts@).take(k as int)) =~= esc_all(
                    string_texts(parts@).take(k - 1),
                ).push(esc_text(parts@[k - 1]@)));
            }
            assert(string_texts(parts@).take(parts@.len() as int) =~= string_texts(parts@));
            extend_chars(&mut v, &join_strings(&esc, ","));
        },
        ValueType::Binary => {
            extend_str(&mut v, "hex:");
            extend_str(&mut v, hex(data).as_str());
        },
        ValueType::NoneType => {
            extend_str(&mut v, "none:");
        },
        ValueType::Tombstone => {
            extend_str(&mut v, "<tombstone>");
        },
        ValueType::Other(n) => {
            extend_str(&mut v, "0x");
            extend_chars(&mut v, &hex_number(n as u64));
            extend_str(&mut v, ":");
            extend_str(&mut v, hex(data).as_str());
        },
    }
    string_from_chars(&v)
}

/// Is inferring `ty` from `token` a coercion worth always echoing: a
/// leading-zero or hex token that silently became a number?
pub open spec fn surprising(t: Seq<char>, ty: ValueType) -> bool {
    let numeric = ty is Dword || ty is Qword;
    let explicit = match first_from(t, ':', 0) {
        Some(p) => keyword_type(t.take(p)) is Some,
        None => false,
    };
    let textual = has_hex_prefix(t) || (t.len() > 1 && t[0] == '0');
    numeric && !explicit && textual
}

pub fn is_surprising_coercion(token: &str, ty: ValueType) -> (r: bool)
    ensures
        r == surprising(token@, ty),
{
    let numeric = match ty {
        ValueType::Dword | ValueType::Qword => true,
        _ => false,
    };
    let v = chars_of(token);
    let mut i: usize = 0;
    while i < v.len()
        invariant
            i <= v@.len(),
            v@ == token@,
            first_from(v@, ':', 0) == first_from(v@, ':', i as int),
        ensures
            i <= v@.len(),
            v@ == token@,
            first_from(v@, ':', 0) == first_from(v@, ':', i as int),
            i < v@.len() ==> v@[i as int] == ':',
        decreases v@.len() - i,
    {
        if v[i] == ':' {
            break;
        }
        i += 1;
    }
    let explicit = if i < v.len() {
        let prefix = string_from_chars(&crate::text::slice_chars(&v, 0, i));
        assert(v@.subrange(0, i as int) =~= v@.take(i as int));
        keyword(prefix.as_str()).is_some()
    } else {
        false
    };
    let textual = (v.len() >= 2 && v[0] == '0' && (v[1] == 'x' || v[1] == 'X')) || (v.len() > 1
        && v[0] == '0');
    numeric && !explicit && textual
}

/// Stored data as the JSON view shows it: typed where it decodes.
#[derive(Debug, Clone, PartialEq, Eq)]
pub enum JsonData {
    Text(String),
    Number(u64),
    List(Vec<String>),
    Null,
}

pub open spec fn json_texts(v: Seq<String>) -> Seq<Seq<char>> {
    v.map_values(|s: String| s@)
}

/// Does `j` show the data `d` of type `ty`?
pub open spec fn json_shows(ty: ValueType, d: Seq<u8>, j: JsonData) -> bool {
    match ty {
        ValueType::Sz | ValueType::ExpandSz | ValueType::Link => j matches JsonData::Text(t) && t@
            == decode_sz_spec(d),
        ValueType::Dword => match decode_u32_le_spec(d) {
            Some(v) => j == JsonData::Number(v as u64),
            None => j matches JsonData::Text(t) && t@ == hex_text(d),
        },
        ValueType::DwordBigEndian => match decode_u32_be_spec(d) {
            Some(v) => j == JsonData::Number(v as u64),
            None => j matches JsonData::Text(t) && t@ == hex_text(d),
        },
        ValueType::Qword => match decode_u64_le_spec(d) {
            Some(v) => j == JsonData::Number(v),
            None => j matches JsonData::Text(t) && t@ == hex_text(d),
        },
        ValueType::MultiSz => j matches JsonData::List(l) && json_texts(l@) == decode_multi_spec(d),
        ValueType::NoneType => j is Null,
        _ => j matches JsonData::Text(t) && t@ == hex_text(d),
    }
}

/// The data half of the JSON view of a value (its type goes beside it as
/// `type_keyword`).
pub fn json_data(ty: ValueType, data: &[u8]) -> (j: JsonData)
    ensures
        json_shows(ty, data@, j),
{
    match ty {
        ValueType::Sz | ValueType::ExpandSz | ValueType::Link => JsonData::Text(decode_sz(data)),
        ValueType::Dword => match decode_u32_le(data) {
            Some(v) => JsonData::Number(v as u64),
            None => JsonData::Text(hex(data)),
        },
        ValueType::DwordBigEndian => match decode_u32_be(data) {
            Some(v) => JsonData::Number(v as u64),
            None => JsonData::Text(hex(data)),
        },
        ValueType::Qword => match decode_u64_le(data) {
            Some(v) => JsonData::Number(v),
            None => JsonData::Text(hex(data)),
        },
        ValueType::MultiSz => JsonData::List(decode_multi(data)),
        ValueType::NoneType => JsonData::Null,
        _ => JsonData::Text(hex(data)),
    }
}


// ---------------------------------------------------------------------------
// Batch documents: a `(type keyword, JSON data)` pair back into bytes.
// ---------------------------------------------------------------------------

/// A JSON value as a batch document holds it: what `value_bytes` reads.
#[derive(Debug, PartialEq, Eq)]
pub enum JsonValue {
    /// A string.
    Str(String),
    /// A non-negative integer that fits a `u64`.
    Uint(u64),
    /// An array.
    Array(Vec<JsonValue>),
    /// Anything else: null, a boolean, a negative or fractional number, an
    /// object.
    Other,
}

/// The hex digits of a text, everything else dropped.
pub open spec fn hex_digits_only(s: Seq<char>) -> Seq<char>
    decreases s.len(),
{
    if s.len() == 0 {
        s
    } else if crate::text::hex_value(s.last()) is Some {
        hex_digits_only(s.drop_last()).push(s.last())
    } else {
        hex_digits_only(s.drop_last())
    }
}

/// The bytes a run of hex digits spells, two digits each.
pub open spec fn digit_pairs(d: Seq<char>) -> Seq<u8>
    decreases d.len(),
{
    if d.len() < 2 {
        Seq::empty()
    } else {
        seq![
            (crate::text::hex_value(d[0])->0 * 16 + crate::text::hex_value(d[1])->0) as u8,
        ] + digit_pairs(d.skip(2))
    }
}

/// Hex data from a batch document: every non-hex character is dropped,
/// and an odd number of digits is refused.
pub open spec fn decode_hex_spec(s: Seq<char>) -> Option<Seq<u8>> {
    if hex_digits_only(s).len() % 2 != 0 {
        None
    } else {
        Some(digit_pairs(hex_digits_only(s)))
    }
}

pub fn decode_hex(s: &str) -> (r: Result<Vec<u8>>)
    ensures
        decode_hex_spec(s@) matches Some(b) ==> r matches Ok(x) && x@ == b,
        decode_hex_spec(s@) is None ==> (r matches Err(Error::InvalidSpec(m)) && m@
            == "binary: odd hex length"@),
{
    let v = chars_of(s);
    let mut d: Vec<char> = Vec::new();
    let mut i: usize = 0;
    while i < v.len()
        invariant
            i <= v@.len(),
            v@ == s@,
            d@ == hex_digits_only(v@.take(i as int)),
            forall|k: int| 0 <= k < d@.len() ==> (#[trigger] crate::text::hex_value(d@[k])) is Some,
        decreases v@.len() - i,
    {
        assert(v@.take(i + 1).drop_last() =~= v@.take(i as int));
        if crate::text::hex_digit_value(v[i]).is_some() {
            d.push(v[i]);
        }
        i += 1;
    }
    assert(v@.take(v@.len() as int) =~= v@);
    if d.len() % 2 != 0 {
        return Err(Error::InvalidSpec("binary: odd hex length".to_owned()));
    }
    let mut out: Vec<u8> = Vec::new();
    let mut k: usize = 0;
    assert(d@.skip(0) =~= d@);
    while k < d.len()
        invariant
            k <= d@.len(),
            k % 2 == 0,
            d@.len() % 2 == 0,
            d@ == hex_digits_only(s@),
            forall|j: int| 0 <= j < d@.len() ==> (#[trigger] crate::text::hex_value(d@[j])) is Some,
            digit_pairs(d@) == out@ + digit_pairs(d@.skip(k as int)),
        decreases d@.len() - k,
    {
        let ghost rest = d@.skip(k as int);
        let hi = match crate::text::hex_digit_value(d[k]) {
            Some(x) => x,
            None => 0,
        };
        let lo = match crate::text::hex_digit_value(d[k + 1]) {
            Some(x) => x,
            None => 0,
        };
        assert(rest[0] == d@[k as int] && rest[1] == d@[k + 1]);
        assert(rest.skip(2) =~= d@.skip(k + 2));
        let ghost before = out@;
        out.push(hi * 16 + lo);
        assert(out@ + digit_pairs(d@.skip(k + 2)) =~= before + digit_pairs(rest));
        k += 2;
    }
    assert(d@.skip(d@.len() as int) =~= Seq::<char>::empty());
    assert(out@ + Seq::<u8>::empty() =~= out@);
    Ok(out)
}

pub open spec fn json_values(v: Seq<JsonValue>) -> Seq<JsonValue> {
    v
}

/// The bytes a JSON array of strings stores as a multi-string, or `None`
/// when an element is not a string.
pub open spec fn multi_json(es: Seq<JsonValue>) -> Option<Seq<u8>>
    decreases es.len(),
{
    if es.len() == 0 {
        Some(Seq::empty())
    } else {
        match multi_json(es.drop_last()) {
            Some(b) => match es.last() {
                JsonValue::Str(t) => Some(b + vstd::utf8::encode_utf8(t@).push(0)),
                _ => None,
            },
            None => None,
        }
    }
}

/// What a batch entry's `(type keyword, data)` decodes to, or the message
/// refusing it.
pub open spec fn value_spec(ty: Seq<char>, d: JsonValue) -> core::result::Result<(ValueType, Seq<u8>), Seq<char>> {
    let str_err = ty + ": expected a JSON string"@;
    let int_err = ty + ": expected a non-negative integer"@;
    let fit_err = ty + ": value does not fit u32"@;
    if ty == "sz"@ || ty == "expand"@ || ty == "link"@ {
        let vt = if ty == "sz"@ {
            ValueType::Sz
        } else if ty == "expand"@ {
            ValueType::ExpandSz
        } else {
            ValueType::Link
        };
        match d {
            JsonValue::Str(t) => Ok((vt, sz_spec(t@))),
            _ => Err(str_err),
        }
    } else if ty == "dword"@ || ty == "dword-be"@ {
        match d {
            JsonValue::Uint(n) => if n > u32::MAX {
                Err(fit_err)
            } else if ty == "dword"@ {
                Ok((ValueType::Dword, vstd::bytes::spec_u32_to_le_bytes(n as u32)))
            } else {
                Ok((ValueType::DwordBigEndian, be32_bytes(n as u32)))
            },
            _ => Err(int_err),
        }
    } else if ty == "qword"@ {
        match d {
            JsonValue::Uint(n) => Ok((ValueType::Qword, vstd::bytes::spec_u64_to_le_bytes(n))),
            _ => Err(int_err),
        }
    } else if ty == "multi"@ {
        match d {
            JsonValue::Array(es) => match multi_json(es@) {
                Some(b) => Ok((ValueType::MultiSz, b.push(0))),
                None => Err("multi: expected a JSON string"@),
            },
            _ => Err("multi: expected a JSON array"@),
        }
    } else if ty == "binary"@ {
        match d {
            JsonValue::Str(t) => match decode_hex_spec(t@) {
                Some(b) => Ok((ValueType::Binary, b)),
                None => Err("binary: odd hex length"@),
            },
            _ => Err("binary: expected a JSON string"@),
        }
    } else if ty == "none"@ {
        Ok((ValueType::NoneType, Seq::empty()))
    } else if ty == "tombstone"@ {
        Ok((ValueType::Tombstone, Seq::empty()))
    } else {
        Err("unknown value type: "@ + ty)
    }
}

fn invalid(parts: &[&str]) -> (e: Error)
    ensures
        e matches Error::InvalidSpec(m) && m@ == concat_strs(parts@),
{
    let mut v: Vec<char> = Vec::new();
    let mut i: usize = 0;
    while i < parts.len()
        invariant
            i <= parts@.len(),
            v@ == concat_strs(parts@.take(i as int)),
        decreases parts@.len() - i,
    {
        extend_str(&mut v, parts[i]);
        i += 1;
        assert(parts@.take(i as int).drop_last() =~= parts@.take(i - 1));
    }
    assert(parts@.take(parts@.len() as int) =~= parts@);
    Error::InvalidSpec(string_from_chars(&v))
}

pub open spec fn concat_strs(p: Seq<&str>) -> Seq<char>
    decreases p.len(),
{
    if p.len() == 0 {
        Seq::empty()
    } else {
        concat_strs(p.drop_last()) + p.last()@
    }
}

/// Decode a `(type keyword, JSON data)` pair into `(type, bytes)`: the
/// inverse of the JSON view.
pub fn value_bytes(ty: &str, data: &JsonValue) -> (r: Result<(ValueType, Vec<u8>)>)
    ensures
        value_spec(ty@, *data) matches Ok((t, b)) ==> r matches Ok(x) && x.0 == t && x.1@ == b,
        value_spec(ty@, *data) matches Err(m) ==> (r matches Err(Error::InvalidSpec(e)) && e@ == m),
{
    if same(ty, "sz") || same(ty, "expand") || same(ty, "link") {
        let vt = if same(ty, "sz") {
            ValueType::Sz
        } else if same(ty, "expand") {
            ValueType::ExpandSz
        } else {
            ValueType::Link
        };
        match data {
            JsonValue::Str(t) => Ok((vt, sz_bytes(t.as_str()))),
            _ => {
                let e = invalid(&[ty, ": expected a JSON string"]);
                reveal_with_fuel(concat_strs, 3);
                Err(e)
            },
        }
    } else if same(ty, "dword") || same(ty, "dword-be") {
        match data {
            JsonValue::Uint(n) => {
                if *n > 0xffff_ffff {
                    let e = invalid(&[ty, ": value does not fit u32"]);
                    reveal_with_fuel(concat_strs, 3);
                    Err(e)
                } else if same(ty, "dword") {
                    Ok((ValueType::Dword, vstd::bytes::u32_to_le_bytes(*n as u32)))
                } else {
                    Ok((ValueType::DwordBigEndian, u32_to_be_bytes(*n as u32)))
                }
            },
            _ => {
                let e = invalid(&[ty, ": expected a non-negative integer"]);
                reveal_with_fuel(concat_strs, 3);
                Err(e)
            },
        }
    } else if same(ty, "qword") {
        match data {
            JsonValue::Uint(n) => Ok((ValueType::Qword, vstd::bytes::u64_to_le_bytes(*n))),
            _ => {
                let e = invalid(&[ty, ": expected a non-negative integer"]);
                reveal_with_fuel(concat_strs, 3);
                Err(e)
            },
        }
    } else if same(ty, "multi") {
        match data {
            JsonValue::Array(es) => {
                let mut out: Vec<u8> = Vec::new();
                let mut k: usize = 0;
                while k < es.len()
                    invariant
                        k <= es@.len(),
                        multi_json(es@.take(k as int)) == Some(out@),
                        !(ty@ == "sz"@ || ty@ == "expand"@ || ty@ == "link"@),
                        !(ty@ == "dword"@ || ty@ == "dword-be"@),
                        ty@ != "qword"@,
                        ty@ == "multi"@,
                        *data matches JsonValue::Array(x) && x@ == es@,
                    decreases es@.len() - k,
                {
                    assert(es@.take(k + 1).drop_last() =~= es@.take(k as int));
                    match &es[k] {
                        JsonValue::Str(t) => {
                            append_bytes(&mut out, t.as_str().as_bytes());
                            out.push(0);
                        },
                        _ => {
                            proof {
                                lemma_multi_json_none(es@, k as int);
                            }
                            return Err(Error::InvalidSpec("multi: expected a JSON string".to_owned()));
                        },
                    }
                    k += 1;
                }
                assert(es@.take(es@.len() as int) =~= es@);
                out.push(0);
                Ok((ValueType::MultiSz, out))
            },
            _ => Err(Error::InvalidSpec("multi: expected a JSON array".to_owned())),
        }
    } else if same(ty, "binary") {
        match data {
            JsonValue::Str(t) => match decode_hex(t.as_str()) {
                Ok(b) => Ok((ValueType::Binary, b)),
                Err(e) => Err(e),
            },
            _ => Err(Error::InvalidSpec("binary: expected a JSON string".to_owned())),
        }
    } else if same(ty, "none") {
        Ok((ValueType::NoneType, Vec::new()))
    } else if same(ty, "tombstone") {
        Ok((ValueType::Tombstone, Vec::new()))
    } else {
        let e = invalid(&["unknown value type: ", ty]);
        reveal_with_fuel(concat_strs, 3);
        Err(e)
    }
}

proof fn lemma_multi_json_none(es: Seq<JsonValue>, k: int)
    requires
        0 <= k < es.len(),
        !(es[k] is Str),
    ensures
        multi_json(es) is None,
    decreases es.len() - k,
{
    if k + 1 == es.len() {
        assert(es.drop_last() =~= es.take(k));
    } else {
        lemma_multi_json_none(es.drop_last(), k);
    }
}


// ---------------------------------------------------------------------------
// Round trips: what `parse` stores, the formatters give back.
// ---------------------------------------------------------------------------

proof fn lemma_encode_push(s: Seq<char>, c: char)
    ensures
        vstd::utf8::encode_utf8(s.push(c)) == vstd::utf8::encode_utf8(s) + vstd::utf8::encode_scalar(
            c as u32,
        ),
    decreases s.len(),
{
    reveal_with_fuel(vstd::utf8::encode_utf8, 2);
    if s.len() == 0 {
        assert(s.push(c).drop_first() =~= Seq::<char>::empty());
        assert(vstd::utf8::encode_utf8(s.push(c)) =~= vstd::utf8::encode_scalar(c as u32));
    } else {
        assert(s.push(c).drop_first() =~= s.drop_first().push(c));
        assert(s.push(c)[0] == s[0]);
        lemma_encode_push(s.drop_first(), c);
        assert(vstd::utf8::encode_utf8(s.push(c)) =~= vstd::utf8::encode_utf8(s)
            + vstd::utf8::encode_scalar(c as u32));
    }
}

proof fn lemma_scalar_last_nonzero(c: char)
    requires
        c != '\0',
    ensures
        vstd::utf8::encode_scalar(c as u32).len() > 0,
        vstd::utf8::encode_scalar(c as u32).last() != 0,
{
    let v = c as u32;
    vstd::utf8::char_is_scalar(c);
    if v == 0 {
        crate::text::lemma_char_inj(c, '\0');
    }
    if vstd::utf8::has_width_1_encoding(v) {
        assert(v != 0);
        assert((v & 0x7F) as u8 != 0) by (bit_vector)
            requires
                1 <= v <= 0x7F,
        ;
    } else {
        assert((0x80 | (v & 0x3F) as u8) != 0) by (bit_vector);
    }
}

/// A string's stored bytes, trailing NULs dropped, are its UTF-8.
proof fn lemma_unpadded_sz(s: Seq<char>)
    requires
        s.len() == 0 || s.last() != '\0',
    ensures
        unpadded_len(sz_spec(s)) == vstd::utf8::encode_utf8(s).len(),
{
    let e = vstd::utf8::encode_utf8(s);
    let b = e.push(0);
    assert(b.drop_last() =~= e);
    assert(b.last() == 0);
    assert(unpadded_len(b) == unpadded_len(e));
    if s.len() > 0 {
        lemma_encode_push(s.drop_last(), s.last());
        assert(s.drop_last().push(s.last()) =~= s);
        lemma_scalar_last_nonzero(s.last());
        assert(e.last() != 0);
        assert(e.len() > 0);
    } else {
        assert(e =~= Seq::<u8>::empty());
    }
}

/// A string value reads back as the text it was set from, and its token
/// is `sz:` and that text (for a text that does not end in NUL).
pub proof fn lemma_sz_round_trip(s: Seq<char>)
    requires
        s.len() == 0 || s.last() != '\0',
    ensures
        decode_sz_spec(sz_spec(s)) == s,
        bare_text(ValueType::Sz, sz_spec(s)) == s,
        token_text(ValueType::Sz, sz_spec(s)) == "sz:"@ + s,
        parse_spec("sz:"@ + s) == Ok::<(ValueType, Seq<u8>), Seq<char>>((ValueType::Sz, sz_spec(s))),
{
    broadcast use vstd::utf8::encode_utf8_valid_utf8, vstd::utf8::encode_utf8_decode_utf8;

    lemma_unpadded_sz(s);
    let e = vstd::utf8::encode_utf8(s);
    assert(sz_spec(s).take(e.len() as int) =~= e);
    reveal_strlit("sz:");
    reveal_strlit("sz");
    let t = "sz:"@ + s;
    reveal_with_fuel(first_from, 4);
    assert(t[0] == 's' && t[1] == 'z' && t[2] == ':');
    assert(first_from(t, ':', 0) == Some(2int));
    assert(t.take(2) =~= "sz"@);
    assert(t.skip(3) =~= s);
}

/// The decimal text of a number is white-space free and reads back as it.
proof fn lemma_decimal_reads_back(n: nat)
    ensures
        decimal(n).len() > 0,
        all_dec_digits(decimal(n)),
        crate::text::dec_run(decimal(n)) == Some(n),
    decreases n,
{
    let k = n % 10;
    let c = (('0' as nat) + k) as char;
    assert(c as int == 48 + k);
    assert(crate::text::dec_value(c) == Some(k));
    if n < 10 {
        let d = decimal(n);
        assert(d.drop_last() =~= Seq::<char>::empty());
        assert(d.last() == c);
        assert(crate::text::dec_run(Seq::<char>::empty()) == Some(0nat));
        assert(crate::text::dec_run(d) == Some(n));
    } else {
        lemma_decimal_reads_back(n / 10);
        let d = decimal(n);
        assert(d.drop_last() =~= decimal(n / 10));
        assert(d.last() == c);
        assert((n / 10) * 10 + k == n);
        assert(crate::text::dec_run(d) == Some(n));
        assert forall|i: int| 0 <= i < d.len() implies (#[trigger] crate::text::dec_value(d[i])) is Some by {
            if i < d.len() - 1 {
                assert(d[i] == decimal(n / 10)[i]);
            }
        }
    }
}

proof fn lemma_digits_trim(d: Seq<char>)
    requires
        all_dec_digits(d),
    ensures
        crate::text::trim(d) == d,
{
    if d.len() > 0 {
        assert(crate::text::dec_value(d[0]) is Some);
        assert(crate::text::dec_value(d.last()) is Some);
        assert(crate::text::dec_value(d[d.len() - 1]) is Some);
    }
    assert(crate::text::trim_start(d) =~= d);
    assert(crate::text::trim(d) =~= d);
}

/// A number's decimal text is read back as the number.
pub proof fn lemma_decimal_int(n: u64)
    ensures
        int_spec(decimal(n as nat)) == Some(n),
{
    lemma_decimal_reads_back(n as nat);
    let d = decimal(n as nat);
    lemma_digits_trim(d);
    assert(crate::text::dec_value(d[0]) is Some);
    if d.len() >= 2 {
        assert(crate::text::dec_value(d[1]) is Some);
    }
}

proof fn lemma_no_colon_in_digits(d: Seq<char>, p: Seq<char>, i: int)
    requires
        all_dec_digits(d),
        0 <= i <= p.len(),
        forall|k: int| i <= k < p.len() ==> p[k] != ':',
    ensures
        first_from(p + d, ':', i) is None,
    decreases p.len() + d.len() - i,
{
    let t = p + d;
    if i < t.len() {
        if i >= p.len() {
            assert(t[i] == d[i - p.len()]);
            assert(crate::text::dec_value(d[i - p.len()]) is Some);
        }
        if i < p.len() {
            lemma_no_colon_in_digits(d, p, i + 1);
        } else {
            lemma_no_colon_tail(d, p, i + 1);
        }
    }
}

proof fn lemma_no_colon_tail(d: Seq<char>, p: Seq<char>, i: int)
    requires
        all_dec_digits(d),
        p.len() <= i,
    ensures
        first_from(p + d, ':', i) is None,
    decreases p.len() + d.len() - i,
{
    let t = p + d;
    if 0 <= i < t.len() {
        assert(t[i] == d[i - p.len()]);
        assert(crate::text::dec_value(d[i - p.len()]) is Some);
        lemma_no_colon_tail(d, p, i + 1);
    }
}

/// A DWORD or QWORD value reads back as its number, and its token parses
/// back to the same type and bytes.
pub proof fn lemma_number_round_trip(v: u32, w: u64)
    ensures
        human_text(ValueType::Dword, vstd::bytes::spec_u32_to_le_bytes(v)) == decimal(v as nat),
        human_text(ValueType::Qword, vstd::bytes::spec_u64_to_le_bytes(w)) == decimal(w as nat),
        parse_spec(token_text(ValueType::Dword, vstd::bytes::spec_u32_to_le_bytes(v))) == Ok::<
            (ValueType, Seq<u8>),
            Seq<char>,
        >((ValueType::Dword, vstd::bytes::spec_u32_to_le_bytes(v))),
        parse_spec(token_text(ValueType::Qword, vstd::bytes::spec_u64_to_le_bytes(w))) == Ok::<
            (ValueType, Seq<u8>),
            Seq<char>,
        >((ValueType::Qword, vstd::bytes::spec_u64_to_le_bytes(w))),
{
    vstd::bytes::lemma_auto_spec_u32_to_from_le_bytes();
    vstd::bytes::lemma_auto_spec_u64_to_from_le_bytes();
    lemma_decimal_int(v as u64);
    lemma_decimal_int(w);
    lemma_decimal_reads_back(v as nat);
    lemma_decimal_reads_back(w as nat);
    reveal_strlit("dword:");
    reveal_strlit("dword");
    reveal_strlit("qword:");
    reveal_strlit("qword");
    reveal_strlit("sz");
    reveal_strlit("expand");
    reveal_strlit("dword-be");
    reveal_with_fuel(first_from, 7);
    let dv = decimal(v as nat);
    let le = vstd::bytes::spec_u32_to_le_bytes(v);
    assert(le.len() == 4);
    assert(decode_u32_le_spec(le) == Some(v));
    assert(token_text(ValueType::Dword, le) == "dword:"@ + dv);
    assert(u32_spec(dv) == Ok::<u32, Seq<char>>(v));
    let t = "dword:"@ + dv;
    assert(t[5] == ':');
    assert(t.take(5) =~= "dword"@);
    assert(t.skip(6) =~= dv);
    assert(first_from(t, ':', 0) == Some(5int));
    assert(keyword_type("dword"@) == Some(ValueType::Dword));
    let dw = decimal(w as nat);
    let le8 = vstd::bytes::spec_u64_to_le_bytes(w);
    assert(le8.len() == 8);
    assert(decode_u64_le_spec(le8) == Some(w));
    assert(token_text(ValueType::Qword, le8) == "qword:"@ + dw);
    let u = "qword:"@ + dw;
    assert(u[5] == ':');
    assert(u.take(5) =~= "qword"@);
    assert(u.skip(6) =~= dw);
    assert(first_from(u, ':', 0) == Some(5int));
    assert("qword"@[0] != "dword"@[0]);
    assert(keyword_type("qword"@) == Some(ValueType::Qword));
}

proof fn lemma_hex_digit(n: nat)
    requires
        n < 16,
    ensures
        crate::text::hex_value(hex_digit_lower(n)) == Some(n),
        !hex_noise(hex_digit_lower(n)),
        (hex_digit_lower(n) as u32) < 128,
        hex_digit_lower(n) != ':',
        hex_digit_lower(n) != '+',
{
    let c = hex_digit_lower(n);
    if n < 10 {
        assert(c as int == 48 + n);
    } else {
        assert(c as int == 97 + n - 10);
    }
}

proof fn lemma_hex_text_at(d: Seq<u8>, k: int)
    requires
        0 <= k < d.len(),
    ensures
        hex_text(d).len() == 2 * d.len(),
        hex_text(d)[2 * k] == hex_digit_lower((d[k] / 16) as nat),
        hex_text(d)[2 * k + 1] == hex_digit_lower((d[k] % 16) as nat),
    decreases d.len(),
{
    lemma_hex_text_len(d);
    if k < d.len() - 1 {
        lemma_hex_text_at(d.drop_last(), k);
        lemma_hex_text_len(d.drop_last());
        assert(d.drop_last()[k] == d[k]);
    }
}

proof fn lemma_hex_text_len(d: Seq<u8>)
    ensures
        hex_text(d).len() == 2 * d.len(),
    decreases d.len(),
{
    if d.len() > 0 {
        lemma_hex_text_len(d.drop_last());
    }
}

/// Every character of a byte's hex text is a digit, never a separator.
proof fn lemma_hex_text_chars(d: Seq<u8>)
    ensures
        forall|i: int|
            0 <= i < hex_text(d).len() ==> crate::text::hex_value(#[trigger] hex_text(d)[i]) is Some && !hex_noise(
                hex_text(d)[i],
            ) && (hex_text(d)[i] as u32) < 128 && hex_text(d)[i] != ':',
{
    lemma_hex_text_len(d);
    assert forall|i: int|
        0 <= i < hex_text(d).len() implies crate::text::hex_value(#[trigger] hex_text(d)[i]) is Some && !hex_noise(
            hex_text(d)[i],
        ) && (hex_text(d)[i] as u32) < 128 && hex_text(d)[i] != ':' by {
        let k = i / 2;
        lemma_hex_text_at(d, k);
        lemma_hex_digit((d[k] / 16) as nat);
        lemma_hex_digit((d[k] % 16) as nat);
        if i % 2 == 0 {
            assert(i == 2 * k);
        } else {
            assert(i == 2 * k + 1);
        }
    }
}

proof fn lemma_cleaned_identity(s: Seq<char>)
    requires
        forall|i: int| 0 <= i < s.len() ==> !hex_noise(#[trigger] s[i]),
    ensures
        hex_cleaned(s) == s,
    decreases s.len(),
{
    if s.len() > 0 {
        assert(!hex_noise(s[s.len() - 1]));
        lemma_cleaned_identity(s.drop_last());
        assert(s.drop_last().push(s.last()) =~= s);
    }
}

/// Bytes `2i` and `2i + 1` of `b` are the hex digits of byte `i` of `d`.
pub open spec fn chunk_ok(d: Seq<u8>, b: Seq<u8>, i: int) -> bool {
    b[2 * i] == hex_digit_lower((d[i] / 16) as nat) as u8 && b[2 * i + 1] == hex_digit_lower(
        (d[i] % 16) as nat,
    ) as u8
}

/// The chunks of the encoded hex text of `d`, from chunk `k` on, spell the
/// bytes of `d` from `k` on.
proof fn lemma_chunks_from(d: Seq<u8>, b: Seq<u8>, k: int)
    requires
        0 <= k <= d.len(),
        b.len() == 2 * d.len(),
        forall|i: int| 0 <= i < d.len() ==> #[trigger] chunk_ok(d, b, i),
    ensures
        chunks_spec(b.skip(2 * k)) == Ok::<Seq<u8>, Seq<char>>(d.skip(k)),
    decreases d.len() - k,
{
    let t = b.skip(2 * k);
    if k == d.len() {
        assert(d.skip(k) =~= Seq::<u8>::empty());
    } else {
        let x = d[k];
        let hi = hex_digit_lower((x / 16) as nat);
        let lo = hex_digit_lower((x % 16) as nat);
        assert(chunk_ok(d, b, k));
        lemma_hex_digit((x / 16) as nat);
        lemma_hex_digit((x % 16) as nat);
        assert(t[0] == hi as u8 && t[1] == lo as u8);
        assert(((hi as u8) as char) == hi);
        assert(((lo as u8) as char) == lo);
        let g = seq![hi, lo];
        assert(g.drop_last() =~= seq![hi]);
        assert(seq![hi].drop_last() =~= Seq::<char>::empty());
        assert(crate::text::hex_run(Seq::<char>::empty()) == Some(0nat));
        assert(crate::text::hex_run(seq![hi]) == Some((x / 16) as nat));
        assert(crate::text::hex_run(g) == Some(((x / 16) * 16 + x % 16) as nat));
        assert(crate::text::radix16(g) == Some(x as nat));
        assert(chunk_byte(t[0], t[1]) == Some(x));
        lemma_chunks_from(d, b, k + 1);
        assert(t.skip(2) =~= b.skip(2 * (k + 1)));
        assert(seq![x] + d.skip(k + 1) =~= d.skip(k));
    }
}

/// The hex text of some bytes reads back as them.
proof fn lemma_hex_spec_round_trip(d: Seq<u8>)
    ensures
        hex_spec(hex_text(d)) == Ok::<Seq<u8>, Seq<char>>(d),
{
    broadcast use vstd::utf8::is_ascii_chars_encode_utf8;

    let h = hex_text(d);
    lemma_hex_text_chars(d);
    lemma_hex_text_len(d);
    lemma_cleaned_identity(h);
    assert(vstd::utf8::is_ascii_chars(h));
    let b = vstd::utf8::encode_utf8(h);
    assert(b.len() == h.len());
    assert forall|i: int| 0 <= i < d.len() implies #[trigger] chunk_ok(d, b, i) by {
        lemma_hex_text_at(d, i);
        assert(h[2 * i] as u8 == b[2 * i]);
        assert(h[2 * i + 1] as u8 == b[2 * i + 1]);
    }
    assert(b.len() % 2 == 0);
    lemma_chunks_from(d, b, 0);
    assert(b.skip(0) =~= b);
    assert(d.skip(0) =~= d);
}

pub(crate) proof fn lemma_no_colon_before(t: Seq<char>, i: int, p: int)
    requires
        0 <= i <= p < t.len(),
        t[p] == ':',
        forall|k: int| i <= k < p ==> t[k] != ':',
    ensures
        first_from(t, ':', i) == Some(p),
    decreases p - i,
{
    if i < p {
        lemma_no_colon_before(t, i + 1, p);
    }
}

/// Binary data reads back unchanged from its token: `hex:` and two
/// lower-case digits per byte.
pub proof fn lemma_binary_round_trip(d: Seq<u8>)
    ensures
        token_text(ValueType::Binary, d) == "hex:"@ + hex_text(d),
        parse_spec(token_text(ValueType::Binary, d)) == Ok::<(ValueType, Seq<u8>), Seq<char>>(
            (ValueType::Binary, d),
        ),
{
    reveal_strlit("hex:");
    reveal_strlit("hex");
    reveal_strlit("sz");
    reveal_strlit("expand");
    reveal_strlit("dword");
    reveal_strlit("dword-be");
    reveal_strlit("qword");
    reveal_strlit("multi");
    let t = "hex:"@ + hex_text(d);
    assert(t[0] == 'h' && t[1] == 'e' && t[2] == 'x' && t[3] == ':');
    lemma_no_colon_before(t, 0, 3);
    assert(t.take(3) =~= "hex"@);
    assert(t.skip(4) =~= hex_text(d));
    assert("hex"@ != "sz"@);
    assert("hex"@ != "expand"@);
    assert("hex"@[0] != "dword"@[0]);
    assert("hex"@ != "dword-be"@);
    assert("hex"@[0] != "qword"@[0]);
    assert("hex"@ != "multi"@);
    assert(keyword_type("hex"@) == Some(ValueType::Binary));
    lemma_hex_spec_round_trip(d);
}

/// A big-endian DWORD reads back as its number, and its token parses back
/// to the same type and bytes.
pub proof fn lemma_dword_be_round_trip(v: u32)
    ensures
        decode_u32_be_spec(be32_bytes(v)) == Some(v),
        parse_spec(token_text(ValueType::DwordBigEndian, be32_bytes(v))) == Ok::<
            (ValueType, Seq<u8>),
            Seq<char>,
        >((ValueType::DwordBigEndian, be32_bytes(v))),
{
    let b = be32_bytes(v);
    assert(be32_value(b) == v) by (nonlinear_arith)
        requires
            b == be32_bytes(v),
    {
        assert(b[0] == v / 0x100_0000);
        assert(b[1] == (v / 0x1_0000) % 0x100);
        assert(b[2] == (v / 0x100) % 0x100);
        assert(b[3] == v % 0x100);
    }
    lemma_decimal_int(v as u64);
    lemma_decimal_reads_back(v as nat);
    reveal_strlit("dword-be:");
    reveal_strlit("dword-be");
    reveal_strlit("sz");
    reveal_strlit("expand");
    reveal_strlit("dword");
    let dv = decimal(v as nat);
    assert(token_text(ValueType::DwordBigEndian, b) == "dword-be:"@ + dv);
    assert(u32_spec(dv) == Ok::<u32, Seq<char>>(v));
    let t = "dword-be:"@ + dv;
    assert(t[8] == ':');
    assert forall|k: int| 0 <= k < 8 implies t[k] != ':' by {
        assert(t[k] == "dword-be"@[k]);
    }
    lemma_no_colon_before(t, 0, 8);
    assert(t.take(8) =~= "dword-be"@);
    assert(t.skip(9) =~= dv);
    assert("dword-be"@ != "sz"@);
    assert("dword-be"@ != "expand"@);
    assert("dword-be"@ != "dword"@);
    assert(keyword_type("dword-be"@) == Some(ValueType::DwordBigEndian));
}

/// Expandable strings and links read back like plain strings: each token
/// names its type and parses back to the same type and bytes. A value of
/// no type has the token `none:`, which parses back to no data.
pub proof fn lemma_text_kinds_round_trip(s: Seq<char>)
    requires
        s.len() == 0 || s.last() != '\0',
    ensures
        parse_spec(token_text(ValueType::ExpandSz, sz_spec(s))) == Ok::<(ValueType, Seq<u8>), Seq<char>>(
            (ValueType::ExpandSz, sz_spec(s)),
        ),
        parse_spec(token_text(ValueType::Link, sz_spec(s))) == Ok::<(ValueType, Seq<u8>), Seq<char>>(
            (ValueType::Link, sz_spec(s)),
        ),
        parse_spec(token_text(ValueType::NoneType, Seq::empty())) == Ok::<(ValueType, Seq<u8>), Seq<char>>(
            (ValueType::NoneType, Seq::empty()),
        ),
{
    lemma_sz_round_trip(s);
    reveal_strlit("expand:");
    reveal_strlit("link:");
    reveal_strlit("none:");
    reveal_strlit("sz");
    reveal_strlit("expand");
    reveal_strlit("dword");
    reveal_strlit("dword-be");
    reveal_strlit("qword");
    reveal_strlit("multi");
    reveal_strlit("hex");
    reveal_strlit("bin");
    reveal_strlit("link");
    reveal_strlit("none");
    let e = "expand:"@ + s;
    assert forall|k: int| 0 <= k < 6 implies e[k] != ':' by {
        assert(e[k] == "expand"@[k]);
    }
    assert(e[6] == ':');
    lemma_no_colon_before(e, 0, 6);
    assert(e.take(6) =~= "expand"@);
    assert(e.skip(7) =~= s);
    assert("expand"@ != "sz"@);
    assert(keyword_type("expand"@) == Some(ValueType::ExpandSz));
    let l = "link:"@ + s;
    assert forall|k: int| 0 <= k < 4 implies l[k] != ':' by {
        assert(l[k] == "link"@[k]);
    }
    assert(l[4] == ':');
    lemma_no_colon_before(l, 0, 4);
    assert(l.take(4) =~= "link"@);
    assert(l.skip(5) =~= s);
    assert("link"@ != "sz"@);
    assert("link"@ != "expand"@);
    assert("link"@[0] != "dword"@[0]);
    assert("link"@ != "dword-be"@);
    assert("link"@[0] != "qword"@[0]);
    assert("link"@ != "multi"@);
    assert("link"@ != "hex"@);
    assert("link"@ != "bin"@);
    assert(keyword_type("link"@) == Some(ValueType::Link));
    let n = "none:"@;
    assert forall|k: int| 0 <= k < 4 implies n[k] != ':' by {
        assert(n[k] == "none"@[k]);
    }
    lemma_no_colon_before(n, 0, 4);
    assert(n.take(4) =~= "none"@);
    assert(n.skip(5) =~= Seq::<char>::empty());
    assert("none"@ != "sz"@);
    assert("none"@ != "expand"@);
    assert("none"@[0] != "dword"@[0]);
    assert("none"@ != "dword-be"@);
    assert("none"@[0] != "qword"@[0]);
    assert("none"@ != "multi"@);
    assert("none"@ != "hex"@);
    assert("none"@ != "bin"@);
    assert("none"@ != "link"@);
    assert(keyword_type("none"@) == Some(ValueType::NoneType));
}

} // verus!
