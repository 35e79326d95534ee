//! Rendering of the KMES event stream for a terminal: event filtering,
//! origins, timestamps, and the compact and pretty renderings of an event's
//! payload, a decoded msgpack value.
use crate::reg::addr::{lossy, lossy_text};
use crate::reg::render::{byte_len, spaces};
use crate::text::{
    ascii_lowercase, chars_of, debug_quoted, debug_str, decimal, extend_chars, extend_str,
    hex_digit_lower, hex_lower, joined, lower_ascii_seq, string_from_chars, u128_decimal,
    u64_decimal,
};
use vstd::prelude::*;

verus! {

/// How long an idle drain thread blocks in the futex wait before looping
/// back to drain, in milliseconds.
pub const IDLE_WAIT_MS: i32 = 250;

/// Cap on the inline payload rendering, in characters.
pub const PAYLOAD_INLINE_CAP: usize = 240;

/// A decoded msgpack value, as the payload renderer reads it.
pub enum Msg {
    Nil,
    Bool(bool),
    /// A non-negative integer.
    UInt(u64),
    /// A negative integer.
    Int(i64),
    /// A float, as its shortest decimal rendering.
    Float(String),
    Str(String),
    Bin(Vec<u8>),
    /// An extension value: its type tag and the length of its data.
    Ext(i8, usize),
    Array(Vec<Msg>),
    Mapping(Vec<(Msg, Msg)>),
}

/// Signed decimal.
pub open spec fn int_text(i: int) -> Seq<char> {
    if i < 0 {
        seq!['-'] + decimal((-i) as nat)
    } else {
        decimal(i as nat)
    }
}

fn push_int(out: &mut Vec<char>, i: i64)
    ensures
        final(out)@ == old(out)@ + int_text(i as int),
{
    if i < 0 {
        out.push('-');
        let n: i128 = -(i as i128);
        extend_chars(out, &u128_decimal(n as u128));
    } else {
        extend_chars(out, &u64_decimal(i as u64));
    }
}

/// `n` in `w` lower-case hex digits, most significant first.
pub open spec fn hex_fixed(n: nat, w: nat) -> Seq<char>
    decreases w,
{
    if w == 0 {
        Seq::empty()
    } else {
        hex_fixed(n / 16, (w - 1) as nat).push(hex_digit_lower(n % 16))
    }
}

fn push_hex_fixed(out: &mut Vec<char>, n: u64, w: usize)
    ensures
        final(out)@ == old(out)@ + hex_fixed(n as nat, w as nat),
    decreases w,
{
    if w == 0 {
        return;
    }
    push_hex_fixed(out, n / 16, w - 1);
    out.push(hex_lower((n % 16) as u8));
}

/// `n` in `w` decimal digits, zero-padded.
pub open spec fn dec_fixed(n: nat, w: nat) -> Seq<char>
    decreases w,
{
    if w == 0 {
        Seq::empty()
    } else {
        dec_fixed(n / 10, (w - 1) as nat).push((('0' as nat) + n % 10) as char)
    }
}

fn push_dec_fixed(out: &mut Vec<char>, n: u64, w: usize)
    ensures
        final(out)@ == old(out)@ + dec_fixed(n as nat, w as nat),
    decreases w,
{
    if w == 0 {
        return;
    }
    push_dec_fixed(out, n / 10, w - 1);
    out.push(((48u8 + ((n % 10) as u8)) as char));
}

/// The hex digits of each byte, two apiece.
pub open spec fn hex_bytes(b: Seq<u8>) -> Seq<char>
    decreases b.len(),
{
    if b.len() == 0 {
        Seq::empty()
    } else {
        hex_bytes(b.drop_last()) + hex_fixed(b.last() as nat, 2)
    }
}

/// A `0x` hex preview of at most 32 bytes, an ellipsis marking more.
pub open spec fn hex_preview_text(b: Seq<u8>) -> Seq<char> {
    "0x"@ + hex_bytes(b.take(if b.len() < 32 { b.len() as int } else { 32 })) + (if b.len() > 32 {
        seq!['\u{2026}']
    } else {
        Seq::empty()
    })
}

/// `0x`-prefixed hex preview of up to 32 bytes, with an ellipsis if longer.
pub fn hex_preview(bytes: &[u8]) -> (s: String)
    ensures
        s@ == hex_preview_text(bytes@),
{
    let mut v: Vec<char> = Vec::new();
    extend_str(&mut v, "0x");
    let ghost start = v@;
    let n: usize = if bytes.len() < 32 {
        bytes.len()
    } else {
        32
    };
    let mut i: usize = 0;
    while i < n
        invariant
            i <= n <= bytes@.len(),
            v@ == start + hex_bytes(bytes@.take(i as int)),
        decreases n - i,
    {
        assert(bytes@.take(i + 1).drop_last() =~= bytes@.take(i as int));
        push_hex_fixed(&mut v, bytes[i] as u64, 2);
        i += 1;
    }
    if bytes.len() > 32 {
        v.push('\u{2026}');
    }
    string_from_chars(&v)
}

/// `s` cut to `cap` characters, an ellipsis marking the cut.
pub open spec fn truncate_text(s: Seq<char>, cap: int) -> Seq<char> {
    if s.len() > cap {
        s.take(cap).push('\u{2026}')
    } else {
        s
    }
}

/// Truncate `s` to at most `cap` chars, appending an ellipsis if it was cut.
pub fn truncate(s: &str, cap: usize) -> (r: String)
    ensures
        r@ == truncate_text(s@, cap as int),
{
    let v = chars_of(s);
    if v.len() > cap {
        let mut out = crate::text::slice_chars(&v, 0, cap);
        assert(out@ =~= v@.take(cap as int));
        out.push('\u{2026}');
        string_from_chars(&out)
    } else {
        string_from_chars(&v)
    }
}

/// A time of day, `HH:MM:SS.uuuuuu`, of Unix nanoseconds in UTC.
pub open spec fn time_text(ts_ns: nat) -> Seq<char> {
    let secs = ts_ns / 1_000_000_000;
    let micros = (ts_ns % 1_000_000_000) / 1_000;
    let tod = secs % 86_400;
    dec_fixed(tod / 3600, 2) + ":"@ + dec_fixed((tod % 3600) / 60, 2) + ":"@ + dec_fixed(tod % 60, 2)
        + "."@ + dec_fixed(micros, 6)
}

/// Render Unix nanoseconds as a UTC time of day with microsecond precision.
pub fn fmt_time(ts_ns: u64) -> (s: String)
    ensures
        s@ == time_text(ts_ns as nat),
{
    let secs = ts_ns / 1_000_000_000;
    let micros = (ts_ns % 1_000_000_000) / 1_000;
    let tod = secs % 86_400;
    let mut v: Vec<char> = Vec::new();
    push_dec_fixed(&mut v, tod / 3600, 2);
    extend_str(&mut v, ":");
    push_dec_fixed(&mut v, (tod % 3600) / 60, 2);
    extend_str(&mut v, ":");
    push_dec_fixed(&mut v, tod % 60, 2);
    extend_str(&mut v, ".");
    push_dec_fixed(&mut v, micros, 6);
    string_from_chars(&v)
}

/// The class of producer an event came from.
#[derive(Debug, Clone, Copy, PartialEq, Eq)]
pub enum Origin {
    Userspace,
    Kmes,
    Kacs,
    Lcs,
    Other(u8),
}

/// The raw `origin_class` byte of an origin, in the kernel's numbering.
pub fn origin_raw(o: Origin) -> (v: u8)
    ensures
        v == match o {
            Origin::Userspace => 0u8,
            Origin::Kmes => 1u8,
            Origin::Kacs => 2u8,
            Origin::Lcs => 3u8,
            Origin::Other(x) => x,
        },
{
    match o {
        Origin::Userspace => 0,
        Origin::Kmes => 1,
        Origin::Kacs => 2,
        Origin::Lcs => 3,
        Origin::Other(x) => x,
    }
}

pub open spec fn origin_of(v: u8) -> Origin {
    if v == 0 {
        Origin::Userspace
    } else if v == 1 {
        Origin::Kmes
    } else if v == 2 {
        Origin::Kacs
    } else if v == 3 {
        Origin::Lcs
    } else {
        Origin::Other(v)
    }
}

/// The origin a raw `origin_class` byte names.
pub fn origin_from_raw(v: u8) -> (o: Origin)
    ensures
        o == origin_of(v),
{
    match v {
        0 => Origin::Userspace,
        1 => Origin::Kmes,
        2 => Origin::Kacs,
        3 => Origin::Lcs,
        other => Origin::Other(other),
    }
}

/// The origin an `--origin` argument names, compared case-insensitively.
pub open spec fn origin_named(s: Seq<char>) -> Option<u8> {
    let l = lower_ascii_seq(s);
    if l == "userspace"@ || l == "user"@ || l == "usr"@ {
        Some(0u8)
    } else if l == "kmes"@ {
        Some(1u8)
    } else if l == "kacs"@ {
        Some(2u8)
    } else if l == "lcs"@ {
        Some(3u8)
    } else {
        None
    }
}

fn chars_are(v: &Vec<char>, lit: &str) -> (b: bool)
    ensures
        b == (v@ == lit@),
{
    crate::text::chars_eq(v, &chars_of(lit))
}

/// The raw `origin_class` byte an `--origin` argument names; the argument,
/// lower-cased, when it names none.
pub fn parse_origin(s: &str) -> (r: Result<u8, String>)
    ensures
        match r {
            Ok(v) => origin_named(s@) == Some(v),
            Err(e) => origin_named(s@) is None && e@ == lower_ascii_seq(s@),
        },
{
    let l = ascii_lowercase(&chars_of(s));
    if chars_are(&l, "userspace") || chars_are(&l, "user") || chars_are(&l, "usr") {
        Ok(origin_raw(Origin::Userspace))
    } else if chars_are(&l, "kmes") {
        Ok(origin_raw(Origin::Kmes))
    } else if chars_are(&l, "kacs") {
        Ok(origin_raw(Origin::Kacs))
    } else if chars_are(&l, "lcs") {
        Ok(origin_raw(Origin::Lcs))
    } else {
        Err(string_from_chars(&l))
    }
}

pub open spec fn origin_label_text(v: u8) -> Seq<char> {
    match origin_of(v) {
        Origin::Userspace => "USR"@,
        Origin::Kmes => "KMES"@,
        Origin::Kacs => "KACS"@,
        Origin::Lcs => "LCS"@,
        Origin::Other(o) => "c"@ + decimal(o as nat),
    }
}

/// Origin names and labels agree, in the kernel's numbering (0 userspace,
/// 1 KMES, 2 KACS, 3 LCS): each class's label, in any case, names that class
/// again; `user`, `usr` and `userspace` name the userspace class; a name of
/// any other class is its label, and nothing else names a class.
pub proof fn lemma_origin_names(s: Seq<char>)
    ensures
        origin_label_text(0) == "USR"@,
        origin_label_text(1) == "KMES"@,
        origin_label_text(2) == "KACS"@,
        origin_label_text(3) == "LCS"@,
        origin_named("USR"@) == Some(0u8),
        origin_named("KMES"@) == Some(1u8),
        origin_named("KACS"@) == Some(2u8),
        origin_named("LCS"@) == Some(3u8),
        origin_named(s) matches Some(v) ==> v <= 3 && (v == 0 || lower_ascii_seq(s) == lower_ascii_seq(
            origin_label_text(v),
        )),
        forall|v: u8| 1 <= v <= 3 && lower_ascii_seq(s) == lower_ascii_seq(#[trigger] origin_label_text(v))
            ==> origin_named(s) == Some(v),
        (origin_named(s) == Some(0u8)) <==> (lower_ascii_seq(s) == "userspace"@ || lower_ascii_seq(s)
            == "user"@ || lower_ascii_seq(s) == "usr"@),
{
    reveal_strlit("USR");
    reveal_strlit("KMES");
    reveal_strlit("KACS");
    reveal_strlit("LCS");
    reveal_strlit("usr");
    reveal_strlit("user");
    reveal_strlit("userspace");
    reveal_strlit("kmes");
    reveal_strlit("kacs");
    reveal_strlit("lcs");
    assert(lower_ascii_seq("USR"@) =~= "usr"@);
    assert(lower_ascii_seq("KMES"@) =~= "kmes"@);
    assert(lower_ascii_seq("KACS"@) =~= "kacs"@);
    assert(lower_ascii_seq("LCS"@) =~= "lcs"@);
    assert("kmes"@[0] != "user"@[0] && "kmes"@[0] != "usr"@[0] && "kmes"@[0] != "userspace"@[0]);
    assert("kacs"@[0] != "user"@[0] && "kacs"@[0] != "usr"@[0] && "kacs"@[0] != "userspace"@[0]);
    assert("kacs"@[1] != "kmes"@[1]);
    assert("lcs"@[0] != "usr"@[0] && "lcs"@.len() != "kmes"@.len() && "lcs"@.len() != "kacs"@.len());
}


/// Short, fixed-width-friendly label for an origin class.
pub fn origin_label(origin: u8) -> (s: String)
    ensures
        s@ == origin_label_text(origin),
{
    match origin_from_raw(origin) {
        Origin::Userspace => "USR".to_owned(),
        Origin::Kmes => "KMES".to_owned(),
        Origin::Kacs => "KACS".to_owned(),
        Origin::Lcs => "LCS".to_owned(),
        Origin::Other(o) => {
            let mut v: Vec<char> = Vec::new();
            extend_str(&mut v, "c");
            extend_chars(&mut v, &u64_decimal(o as u64));
            string_from_chars(&v)
        },
    }
}

/// The access-mask bits, low to high, with their names. The low 16 bits are
/// object-specific and named as filesystem rights.
pub open spec fn access_flags() -> Seq<(u32, Seq<char>)> {
    seq![
        (0x0000_0001u32, "FILE_READ_DATA"@),
        (0x0000_0002u32, "FILE_WRITE_DATA"@),
        (0x0000_0004u32, "FILE_APPEND_DATA"@),
        (0x0000_0008u32, "FILE_READ_EA"@),
        (0x0000_0010u32, "FILE_WRITE_EA"@),
        (0x0000_0020u32, "FILE_EXECUTE"@),
        (0x0000_0040u32, "FILE_DELETE_CHILD"@),
        (0x0000_0080u32, "FILE_READ_ATTRIBUTES"@),
        (0x0000_0100u32, "FILE_WRITE_ATTRIBUTES"@),
        (0x0001_0000u32, "DELETE"@),
        (0x0002_0000u32, "READ_CONTROL"@),
        (0x0004_0000u32, "WRITE_DAC"@),
        (0x0008_0000u32, "WRITE_OWNER"@),
        (0x0010_0000u32, "SYNCHRONIZE"@),
        (0x0100_0000u32, "ACCESS_SYSTEM_SECURITY"@),
        (0x0200_0000u32, "MAXIMUM_ALLOWED"@),
        (0x1000_0000u32, "GENERIC_ALL"@),
        (0x2000_0000u32, "GENERIC_EXECUTE"@),
        (0x4000_0000u32, "GENERIC_WRITE"@),
        (0x8000_0000u32, "GENERIC_READ"@),
    ]
}

fn access_flag(i: usize) -> (f: (u32, &'static str))
    requires
        i < 20,
    ensures
        f.0 == access_flags()[i as int].0,
        f.1@ == access_flags()[i as int].1,
{
    match i {
        0 => (0x0000_0001, "FILE_READ_DATA"),
        1 => (0x0000_0002, "FILE_WRITE_DATA"),
        2 => (0x0000_0004, "FILE_APPEND_DATA"),
        3 => (0x0000_0008, "FILE_READ_EA"),
        4 => (0x0000_0010, "FILE_WRITE_EA"),
        5 => (0x0000_0020, "FILE_EXECUTE"),
        6 => (0x0000_0040, "FILE_DELETE_CHILD"),
        7 => (0x0000_0080, "FILE_READ_ATTRIBUTES"),
        8 => (0x0000_0100, "FILE_WRITE_ATTRIBUTES"),
        9 => (0x0001_0000, "DELETE"),
        10 => (0x0002_0000, "READ_CONTROL"),
        11 => (0x0004_0000, "WRITE_DAC"),
        12 => (0x0008_0000, "WRITE_OWNER"),
        13 => (0x0010_0000, "SYNCHRONIZE"),
        14 => (0x0100_0000, "ACCESS_SYSTEM_SECURITY"),
        15 => (0x0200_0000, "MAXIMUM_ALLOWED"),
        16 => (0x1000_0000, "GENERIC_ALL"),
        17 => (0x2000_0000, "GENERIC_EXECUTE"),
        18 => (0x4000_0000, "GENERIC_WRITE"),
        _ => (0x8000_0000, "GENERIC_READ"),
    }
}

/// The names of the flags of `fl` that `mask` sets, in order.
pub open spec fn mask_names(mask: u32, fl: Seq<(u32, Seq<char>)>) -> Seq<Seq<char>>
    decreases fl.len(),
{
    if fl.len() == 0 {
        Seq::empty()
    } else if mask & fl.last().0 != 0 {
        mask_names(mask, fl.drop_last()).push(fl.last().1)
    } else {
        mask_names(mask, fl.drop_last())
    }
}

/// The bits of an access mask that no flag names.
pub open spec fn unnamed_bits(mask: u32) -> u32 {
    mask & 0x0CE0_FE00u32
}

/// An access mask as `|`-joined right names; bits without a name follow as
/// one `0x` remainder, so nothing is hidden.
pub open spec fn access_text(mask: u32) -> Seq<char> {
    if mask == 0 {
        "0 (none)"@
    } else {
        let names = joined(mask_names(mask, access_flags()), "|"@);
        let rest = unnamed_bits(mask);
        if rest != 0 {
            names + (if names.len() > 0 {
                "|"@
            } else {
                Seq::empty()
            }) + "0x"@ + hex_fixed(rest as nat, 8)
        } else {
            names
        }
    }
}

/// The bits of an access mask that carry a right name.
pub open spec fn named_bits(mask: u32) -> u32 {
    mask & 0xF31F_01FFu32
}

/// Text `t` is the name `n`, alone or first in a `|`-joined list.
pub open spec fn leads_with(t: Seq<char>, n: Seq<char>) -> bool {
    t == n || t.take(n.len() + 1int) == n + "|"@
}

/// When the only named bit of `mask` is `b`, `mask` meets every named bit
/// but `b` in nothing.
proof fn lemma_named_bit(mask: u32, b: u32)
    by (bit_vector)
    requires
        mask & 0xF31F_01FFu32 == b,
        b == 0x0000_0001u32 || b == 0x0000_0002u32 || b == 0x0000_0004u32 || b == 0x0000_0008u32 || b == 0x0000_0010u32 || b == 0x0000_0020u32 || b == 0x0000_0040u32 || b == 0x0000_0080u32 || b == 0x0000_0100u32 || b == 0x0001_0000u32 || b == 0x0002_0000u32 || b == 0x0004_0000u32 || b == 0x0008_0000u32 || b == 0x0010_0000u32 || b == 0x0100_0000u32 || b == 0x0200_0000u32 || b == 0x1000_0000u32 || b == 0x2000_0000u32 || b == 0x4000_0000u32 || b == 0x8000_0000u32,
    ensures
        (mask & 0x0000_0001u32 != 0) == (b == 0x0000_0001u32),
        (mask & 0x0000_0002u32 != 0) == (b == 0x0000_0002u32),
        (mask & 0x0000_0004u32 != 0) == (b == 0x0000_0004u32),
        (mask & 0x0000_0008u32 != 0) == (b == 0x0000_0008u32),
        (mask & 0x0000_0010u32 != 0) == (b == 0x0000_0010u32),
        (mask & 0x0000_0020u32 != 0) == (b == 0x0000_0020u32),
        (mask & 0x0000_0040u32 != 0) == (b == 0x0000_0040u32),
        (mask & 0x0000_0080u32 != 0) == (b == 0x0000_0080u32),
        (mask & 0x0000_0100u32 != 0) == (b == 0x0000_0100u32),
        (mask & 0x0001_0000u32 != 0) == (b == 0x0001_0000u32),
        (mask & 0x0002_0000u32 != 0) == (b == 0x0002_0000u32),
        (mask & 0x0004_0000u32 != 0) == (b == 0x0004_0000u32),
        (mask & 0x0008_0000u32 != 0) == (b == 0x0008_0000u32),
        (mask & 0x0010_0000u32 != 0) == (b == 0x0010_0000u32),
        (mask & 0x0100_0000u32 != 0) == (b == 0x0100_0000u32),
        (mask & 0x0200_0000u32 != 0) == (b == 0x0200_0000u32),
        (mask & 0x1000_0000u32 != 0) == (b == 0x1000_0000u32),
        (mask & 0x2000_0000u32 != 0) == (b == 0x2000_0000u32),
        (mask & 0x4000_0000u32 != 0) == (b == 0x4000_0000u32),
        (mask & 0x8000_0000u32 != 0) == (b == 0x8000_0000u32),
        mask == b ==> mask & 0x0CE0_FE00u32 == 0,
        mask != 0,
{
}

/// Entry `j` of the right table, written out.
proof fn lemma_access_flag_at(j: int)
    requires
        0 <= j < 20,
    ensures
        j == 0 ==> access_flags()[j] == (0x0000_0001u32, "FILE_READ_DATA"@),
        j == 1 ==> access_flags()[j] == (0x0000_0002u32, "FILE_WRITE_DATA"@),
        j == 2 ==> access_flags()[j] == (0x0000_0004u32, "FILE_APPEND_DATA"@),
        j == 3 ==> access_flags()[j] == (0x0000_0008u32, "FILE_READ_EA"@),
        j == 4 ==> access_flags()[j] == (0x0000_0010u32, "FILE_WRITE_EA"@),
        j == 5 ==> access_flags()[j] == (0x0000_0020u32, "FILE_EXECUTE"@),
        j == 6 ==> access_flags()[j] == (0x0000_0040u32, "FILE_DELETE_CHILD"@),
        j == 7 ==> access_flags()[j] == (0x0000_0080u32, "FILE_READ_ATTRIBUTES"@),
        j == 8 ==> access_flags()[j] == (0x0000_0100u32, "FILE_WRITE_ATTRIBUTES"@),
        j == 9 ==> access_flags()[j] == (0x0001_0000u32, "DELETE"@),
        j == 10 ==> access_flags()[j] == (0x0002_0000u32, "READ_CONTROL"@),
        j == 11 ==> access_flags()[j] == (0x0004_0000u32, "WRITE_DAC"@),
        j == 12 ==> access_flags()[j] == (0x0008_0000u32, "WRITE_OWNER"@),
        j == 13 ==> access_flags()[j] == (0x0010_0000u32, "SYNCHRONIZE"@),
        j == 14 ==> access_flags()[j] == (0x0100_0000u32, "ACCESS_SYSTEM_SECURITY"@),
        j == 15 ==> access_flags()[j] == (0x0200_0000u32, "MAXIMUM_ALLOWED"@),
        j == 16 ==> access_flags()[j] == (0x1000_0000u32, "GENERIC_ALL"@),
        j == 17 ==> access_flags()[j] == (0x2000_0000u32, "GENERIC_EXECUTE"@),
        j == 18 ==> access_flags()[j] == (0x4000_0000u32, "GENERIC_WRITE"@),
        j == 19 ==> access_flags()[j] == (0x8000_0000u32, "GENERIC_READ"@),
        access_flags()[j].1.len() > 0,
{
    reveal_strlit("FILE_READ_DATA");
    reveal_strlit("FILE_WRITE_DATA");
    reveal_strlit("FILE_APPEND_DATA");
    reveal_strlit("FILE_READ_EA");
    reveal_strlit("FILE_WRITE_EA");
    reveal_strlit("FILE_EXECUTE");
    reveal_strlit("FILE_DELETE_CHILD");
    reveal_strlit("FILE_READ_ATTRIBUTES");
    reveal_strlit("FILE_WRITE_ATTRIBUTES");
    reveal_strlit("DELETE");
    reveal_strlit("READ_CONTROL");
    reveal_strlit("WRITE_DAC");
    reveal_strlit("WRITE_OWNER");
    reveal_strlit("SYNCHRONIZE");
    reveal_strlit("ACCESS_SYSTEM_SECURITY");
    reveal_strlit("MAXIMUM_ALLOWED");
    reveal_strlit("GENERIC_ALL");
    reveal_strlit("GENERIC_EXECUTE");
    reveal_strlit("GENERIC_WRITE");
    reveal_strlit("GENERIC_READ");
}


/// Every right's bit is a named bit.
proof fn lemma_flag_is_named(b: u32)
    by (bit_vector)
    requires
        b == 0x0000_0001u32 || b == 0x0000_0002u32 || b == 0x0000_0004u32 || b == 0x0000_0008u32 || b == 0x0000_0010u32 || b == 0x0000_0020u32 || b == 0x0000_0040u32 || b == 0x0000_0080u32 || b == 0x0000_0100u32 || b == 0x0001_0000u32 || b == 0x0002_0000u32 || b == 0x0004_0000u32 || b == 0x0008_0000u32 || b == 0x0010_0000u32 || b == 0x0100_0000u32 || b == 0x0200_0000u32 || b == 0x1000_0000u32 || b == 0x2000_0000u32 || b == 0x4000_0000u32 || b == 0x8000_0000u32,
    ensures
        b & 0xF31F_01FFu32 == b,
        b != 0,
{
}

proof fn lemma_mask_names_none(m: u32, fl: Seq<(u32, Seq<char>)>)
    requires
        forall|j: int| 0 <= j < fl.len() ==> m & (#[trigger] fl[j]).0 == 0,
    ensures
        mask_names(m, fl) == Seq::<Seq<char>>::empty(),
    decreases fl.len(),
{
    if fl.len() > 0 {
        let f = fl.drop_last();
        assert forall|j: int| 0 <= j < f.len() implies m & (#[trigger] f[j]).0 == 0 by {
            assert(f[j] == fl[j]);
        }
        assert(m & fl[fl.len() - 1].0 == 0);
        lemma_mask_names_none(m, f);
    }
}

proof fn lemma_mask_names_single(m: u32, fl: Seq<(u32, Seq<char>)>, k: int)
    requires
        0 <= k < fl.len(),
        forall|j: int| 0 <= j < fl.len() ==> ((m & (#[trigger] fl[j]).0 != 0) == (j == k)),
    ensures
        mask_names(m, fl) == seq![fl[k].1],
    decreases fl.len(),
{
    let f = fl.drop_last();
    let last = fl.len() - 1;
    assert(fl.last() == fl[last]);
    if k == last {
        assert forall|j: int| 0 <= j < f.len() implies m & (#[trigger] f[j]).0 == 0 by {
            assert(f[j] == fl[j]);
        }
        lemma_mask_names_none(m, f);
        assert(Seq::<Seq<char>>::empty().push(fl[k].1) =~= seq![fl[k].1]);
    } else {
        assert forall|j: int| 0 <= j < f.len() implies ((m & (#[trigger] f[j]).0 != 0) == (j == k)) by {
            assert(f[j] == fl[j]);
        }
        lemma_mask_names_single(m, f, k);
        assert(f[k] == fl[k]);
    }
}

/// A mask whose only named bit is that of entry `k` decodes to entry `k`'s
/// name, alone or first.
proof fn lemma_right_named(k: int)
    requires
        0 <= k < 20,
    ensures
        forall|m: u32| named_bits(m) == access_flags()[k].0 ==> leads_with(
            #[trigger] access_text(m),
            access_flags()[k].1,
        ),
        access_text(access_flags()[k].0) == access_flags()[k].1,
{
    lemma_access_flag_at(k);
    let c = access_flags()[k].0;
    let n = access_flags()[k].1;
    assert(c == 0x0000_0001u32 || c == 0x0000_0002u32 || c == 0x0000_0004u32 || c == 0x0000_0008u32 || c == 0x0000_0010u32 || c == 0x0000_0020u32 || c == 0x0000_0040u32 || c == 0x0000_0080u32 || c == 0x0000_0100u32 || c == 0x0001_0000u32 || c == 0x0002_0000u32 || c == 0x0004_0000u32 || c == 0x0008_0000u32 || c == 0x0010_0000u32 || c == 0x0100_0000u32 || c == 0x0200_0000u32 || c == 0x1000_0000u32 || c == 0x2000_0000u32 || c == 0x4000_0000u32 || c == 0x8000_0000u32);
    assert forall|m: u32| named_bits(m) == c implies leads_with(#[trigger] access_text(m), n) by {
        lemma_one_named(m, k);
    }
    lemma_flag_is_named(c);
    lemma_one_named(c, k);
}

proof fn lemma_one_named(m: u32, k: int)
    requires
        0 <= k < 20,
        named_bits(m) == access_flags()[k].0,
    ensures
        leads_with(access_text(m), access_flags()[k].1),
        m == access_flags()[k].0 ==> access_text(m) == access_flags()[k].1,
{
    lemma_access_flag_at(k);
    let c = access_flags()[k].0;
    let n = access_flags()[k].1;
    assert(c == 0x0000_0001u32 || c == 0x0000_0002u32 || c == 0x0000_0004u32 || c == 0x0000_0008u32 || c == 0x0000_0010u32 || c == 0x0000_0020u32 || c == 0x0000_0040u32 || c == 0x0000_0080u32 || c == 0x0000_0100u32 || c == 0x0001_0000u32 || c == 0x0002_0000u32 || c == 0x0004_0000u32 || c == 0x0008_0000u32 || c == 0x0010_0000u32 || c == 0x0100_0000u32 || c == 0x0200_0000u32 || c == 0x1000_0000u32 || c == 0x2000_0000u32 || c == 0x4000_0000u32 || c == 0x8000_0000u32);
    lemma_named_bit(m, c);
    assert forall|j: int| 0 <= j < access_flags().len() implies ((m & (#[trigger] access_flags()[j]).0
        != 0) == (j == k)) by {
        lemma_access_flag_at(j);
    }
    lemma_mask_names_single(m, access_flags(), k);
    let names = mask_names(m, access_flags());
    assert(joined(names, "|"@) == n);
    assert(names =~= seq![n]);
    assert(names.len() > 0);
    let rest = unnamed_bits(m);
    if rest != 0 {
        reveal_strlit("|");
        let t = n + "|"@ + "0x"@ + hex_fixed(rest as nat, 8);
        assert(access_text(m) == t);
        assert(t.take(n.len() + 1int) =~= n + "|"@);
    }
}

/// Each access right is shown by its standard name: a mask whose only
/// named bit is that right's bit is decoded to the right's name, alone when
/// no other bit is set and first in the list otherwise.
pub proof fn lemma_access_right_names()
    ensures
        forall|m: u32| named_bits(m) == 0x0000_0001u32 ==> leads_with(#[trigger] access_text(m), "FILE_READ_DATA"@),
        access_text(0x0000_0001u32) == "FILE_READ_DATA"@,
        forall|m: u32| named_bits(m) == 0x0000_0002u32 ==> leads_with(#[trigger] access_text(m), "FILE_WRITE_DATA"@),
        access_text(0x0000_0002u32) == "FILE_WRITE_DATA"@,
        forall|m: u32| named_bits(m) == 0x0000_0004u32 ==> leads_with(#[trigger] access_text(m), "FILE_APPEND_DATA"@),
        access_text(0x0000_0004u32) == "FILE_APPEND_DATA"@,
        forall|m: u32| named_bits(m) == 0x0000_0008u32 ==> leads_with(#[trigger] access_text(m), "FILE_READ_EA"@),
        access_text(0x0000_0008u32) == "FILE_READ_EA"@,
        forall|m: u32| named_bits(m) == 0x0000_0010u32 ==> leads_with(#[trigger] access_text(m), "FILE_WRITE_EA"@),
        access_text(0x0000_0010u32) == "FILE_WRITE_EA"@,
        forall|m: u32| named_bits(m) == 0x0000_0020u32 ==> leads_with(#[trigger] access_text(m), "FILE_EXECUTE"@),
        access_text(0x0000_0020u32) == "FILE_EXECUTE"@,
        forall|m: u32| named_bits(m) == 0x0000_0040u32 ==> leads_with(#[trigger] access_text(m), "FILE_DELETE_CHILD"@),
        access_text(0x0000_0040u32) == "FILE_DELETE_CHILD"@,
        forall|m: u32| named_bits(m) == 0x0000_0080u32 ==> leads_with(#[trigger] access_text(m), "FILE_READ_ATTRIBUTES"@),
        access_text(0x0000_0080u32) == "FILE_READ_ATTRIBUTES"@,
        forall|m: u32| named_bits(m) == 0x0000_0100u32 ==> leads_with(#[trigger] access_text(m), "FILE_WRITE_ATTRIBUTES"@),
        access_text(0x0000_0100u32) == "FILE_WRITE_ATTRIBUTES"@,
        forall|m: u32| named_bits(m) == 0x0001_0000u32 ==> leads_with(#[trigger] access_text(m), "DELETE"@),
        access_text(0x0001_0000u32) == "DELETE"@,
        forall|m: u32| named_bits(m) == 0x0002_0000u32 ==> leads_with(#[trigger] access_text(m), "READ_CONTROL"@),
        access_text(0x0002_0000u32) == "READ_CONTROL"@,
        forall|m: u32| named_bits(m) == 0x0004_0000u32 ==> leads_with(#[trigger] access_text(m), "WRITE_DAC"@),
        access_text(0x0004_0000u32) == "WRITE_DAC"@,
        forall|m: u32| named_bits(m) == 0x0008_0000u32 ==> leads_with(#[trigger] access_text(m), "WRITE_OWNER"@),
        access_text(0x0008_0000u32) == "WRITE_OWNER"@,
        forall|m: u32| named_bits(m) == 0x0010_0000u32 ==> leads_with(#[trigger] access_text(m), "SYNCHRONIZE"@),
        access_text(0x0010_0000u32) == "SYNCHRONIZE"@,
        forall|m: u32| named_bits(m) == 0x0100_0000u32 ==> leads_with(#[trigger] access_text(m), "ACCESS_SYSTEM_SECURITY"@),
        access_text(0x0100_0000u32) == "ACCESS_SYSTEM_SECURITY"@,
        forall|m: u32| named_bits(m) == 0x0200_0000u32 ==> leads_with(#[trigger] access_text(m), "MAXIMUM_ALLOWED"@),
        access_text(0x0200_0000u32) == "MAXIMUM_ALLOWED"@,
        forall|m: u32| named_bits(m) == 0x1000_0000u32 ==> leads_with(#[trigger] access_text(m), "GENERIC_ALL"@),
        access_text(0x1000_0000u32) == "GENERIC_ALL"@,
        forall|m: u32| named_bits(m) == 0x2000_0000u32 ==> leads_with(#[trigger] access_text(m), "GENERIC_EXECUTE"@),
        access_text(0x2000_0000u32) == "GENERIC_EXECUTE"@,
        forall|m: u32| named_bits(m) == 0x4000_0000u32 ==> leads_with(#[trigger] access_text(m), "GENERIC_WRITE"@),
        access_text(0x4000_0000u32) == "GENERIC_WRITE"@,
        forall|m: u32| named_bits(m) == 0x8000_0000u32 ==> leads_with(#[trigger] access_text(m), "GENERIC_READ"@),
        access_text(0x8000_0000u32) == "GENERIC_READ"@,
{
    lemma_right_named(0);
    lemma_right_named(1);
    lemma_right_named(2);
    lemma_right_named(3);
    lemma_right_named(4);
    lemma_right_named(5);
    lemma_right_named(6);
    lemma_right_named(7);
    lemma_right_named(8);
    lemma_right_named(9);
    lemma_right_named(10);
    lemma_right_named(11);
    lemma_right_named(12);
    lemma_right_named(13);
    lemma_right_named(14);
    lemma_right_named(15);
    lemma_right_named(16);
    lemma_right_named(17);
    lemma_right_named(18);
    lemma_right_named(19);
}

/// Decode an access mask into `|`-joined right names.
pub fn decode_access_mask(mask: u32) -> (s: String)
    ensures
        s@ == access_text(mask),
{
    if mask == 0 {
        return "0 (none)".to_owned();
    }
    let mut v: Vec<char> = Vec::new();
    let mut any = false;
    let mut i: usize = 0;
    while i < 20
        invariant
            i <= 20,
            access_flags().len() == 20,
            v@ == joined(mask_names(mask, access_flags().take(i as int)), "|"@),
            any == (mask_names(mask, access_flags().take(i as int)).len() > 0),
        decreases 20 - i,
    {
        let (bit, name) = access_flag(i);
        assert(access_flags().take(i + 1).drop_last() =~= access_flags().take(i as int));
        let ghost ns = mask_names(mask, access_flags().take(i as int));
        if mask & bit != 0 {
            proof {
                assert(ns.push(name@).drop_last() =~= ns);
                if ns.len() > 0 {
                    assert(ns.push(name@).last() == name@);
                } else {
                    assert(ns.push(name@) =~= seq![name@]);
                }
            }
            if any {
                extend_str(&mut v, "|");
            }
            extend_str(&mut v, name);
            any = true;
        }
        i += 1;
    }
    assert(access_flags().take(20) =~= access_flags());
    let rest = mask & 0x0CE0_FE00;
    if rest != 0 {
        if v.len() > 0 {
            extend_str(&mut v, "|");
        }
        extend_str(&mut v, "0x");
        push_hex_fixed(&mut v, rest as u64, 8);
    }
    string_from_chars(&v)
}

/// Big-endian value of a byte string.
pub open spec fn be_value(b: Seq<u8>) -> nat
    decreases b.len(),
{
    if b.len() == 0 {
        0
    } else {
        be_value(b.drop_last()) * 256 + (b.last() as nat)
    }
}

/// The sub-authorities of a SID, each as `-` and its decimal, the first `k`.
pub open spec fn sub_auths(b: Seq<u8>, k: nat) -> Seq<char>
    decreases k,
{
    if k == 0 {
        Seq::empty()
    } else {
        let off = 8 + 4 * (k - 1);
        sub_auths(b, (k - 1) as nat) + "-"@ + decimal(
            vstd::bytes::spec_u32_from_le_bytes(b.subrange(off, off + 4)) as nat,
        )
    }
}

/// A binary SID in its canonical string form `S-<rev>-<authority>[-<sub>...]`,
/// or `None` when the length disagrees with the sub-authority count. The
/// authority is decimal, or `0x`-hex when it exceeds 32 bits.
pub open spec fn sid_text(b: Seq<u8>) -> Option<Seq<char>> {
    if b.len() < 8 || b.len() != 8 + 4 * b[1] {
        None
    } else {
        let a = be_value(b.subrange(2, 8));
        Some(
            "S-"@ + decimal(b[0] as nat) + "-"@ + (if a < 0x1_0000_0000 {
                decimal(a)
            } else {
                "0x"@ + hex_fixed(a, 12)
            }) + sub_auths(b, b[1] as nat),
        )
    }
}

/// Parse a binary SID into its canonical string form.
pub fn sid_to_string(b: &[u8]) -> (r: Option<String>)
    ensures
        match r {
            Some(s) => sid_text(b@) == Some(s@),
            None => sid_text(b@) is None,
        },
{
    if b.len() < 8 {
        return None;
    }
    let revision = b[0];
    let sub_count = b[1] as usize;
    if b.len() != 8 + 4 * sub_count {
        return None;
    }
    let mut authority: u64 = 0;
    let mut k: usize = 2;
    while k < 8
        invariant
            2 <= k <= 8,
            b@.len() >= 8,
            authority as nat == be_value(b@.subrange(2, k as int)),
            authority < pow256((k - 2) as nat),
        decreases 8 - k,
    {
        assert(b@.subrange(2, k + 1).drop_last() =~= b@.subrange(2, k as int));
        proof {
            lemma_pow256_step((k - 2) as nat);
        }
        authority = authority * 256 + b[k] as u64;
        k += 1;
    }
    let mut v: Vec<char> = Vec::new();
    extend_str(&mut v, "S-");
    extend_chars(&mut v, &u64_decimal(revision as u64));
    extend_str(&mut v, "-");
    if authority < 0x1_0000_0000 {
        extend_chars(&mut v, &u64_decimal(authority));
    } else {
        extend_str(&mut v, "0x");
        push_hex_fixed(&mut v, authority, 12);
    }
    let ghost head = v@;
    let mut i: usize = 0;
    while i < sub_count
        invariant
            i <= sub_count,
            b@.len() == 8 + 4 * sub_count,
            b.len() == 8 + 4 * sub_count,
            v@ == head + sub_auths(b@, i as nat),
        decreases sub_count - i,
    {
        let off = 8 + 4 * i;
        let sub = vstd::bytes::u32_from_le_bytes(&b[off..off + 4]);
        extend_str(&mut v, "-");
        extend_chars(&mut v, &u64_decimal(sub as u64));
        i += 1;
    }
    Some(string_from_chars(&v))
}

pub open spec fn pow256(k: nat) -> nat
    decreases k,
{
    if k == 0 {
        1
    } else {
        256 * pow256((k - 1) as nat)
    }
}

proof fn lemma_pow256_step(k: nat)
    requires
        k < 6,
    ensures
        pow256(k + 1) == 256 * pow256(k),
        pow256(k + 1) <= pow256(6),
        pow256(6) == 0x1_0000_0000_0000,
{
    reveal_with_fuel(pow256, 7);
}

/// Does `s` end with `t`?
pub open spec fn ends_with(s: Seq<char>, t: Seq<char>) -> bool {
    s.len() >= t.len() && s.skip(s.len() - t.len()) == t
}

fn ends_with_str(s: &Vec<char>, t: &str) -> (b: bool)
    ensures
        b == ends_with(s@, t@),
{
    let tv = chars_of(t);
    if tv.len() > s.len() {
        return false;
    }
    let tail = crate::text::slice_chars(s, s.len() - tv.len(), s.len());
    assert(tail@ =~= s@.skip(s@.len() - tv@.len()));
    crate::text::chars_eq(&tail, &tv)
}

/// A SID, or the hex preview of bytes that are not one.
pub open spec fn sid_or_hex(b: Seq<u8>) -> Seq<char> {
    match sid_text(b) {
        Some(s) => s,
        None => hex_preview_text(b),
    }
}

/// One-line rendering of a value: arrays and maps stay on one line.
pub open spec fn compact_text(m: Msg) -> Seq<char>
    decreases m,
{
    match m {
        Msg::Nil => "nil"@,
        Msg::Bool(b) => if b {
            "true"@
        } else {
            "false"@
        },
        Msg::UInt(u) => decimal(u as nat),
        Msg::Int(i) => int_text(i as int),
        Msg::Float(f) => f@,
        Msg::Str(s) => debug_str(s@),
        Msg::Bin(b) => hex_preview_text(b@),
        Msg::Ext(t, n) => "ext("@ + int_text(t as int) + ", "@ + decimal(n as nat) + " byte(s))"@,
        Msg::Array(items) => "["@ + items_text(items@) + "]"@,
        Msg::Mapping(ps) => "{"@ + pairs_text(ps@) + "}"@,
    }
}

pub open spec fn items_text(s: Seq<Msg>) -> Seq<char>
    decreases s,
{
    if s.len() == 0 {
        Seq::empty()
    } else if s.len() == 1 {
        compact_text(s[0])
    } else {
        items_text(s.drop_last()) + ", "@ + compact_text(s.last())
    }
}

pub open spec fn pairs_text(s: Seq<(Msg, Msg)>) -> Seq<char>
    decreases s,
{
    if s.len() == 0 {
        Seq::empty()
    } else if s.len() == 1 {
        pair_text(s[0])
    } else {
        pairs_text(s.drop_last()) + ", "@ + pair_text(s.last())
    }
}

/// A map entry, `key: value`; a string key names how its value renders.
pub open spec fn pair_text(p: (Msg, Msg)) -> Seq<char>
    decreases p,
{
    match p.0 {
        Msg::Str(k) => debug_str(k@) + ": "@ + match special_text(k@, p.1) {
            Some(r) => r,
            None => compact_text(p.1),
        },
        _ => compact_text(p.0) + ": "@ + compact_text(p.1),
    }
}

/// The elements of a SID array: each binary one as a SID.
pub open spec fn sid_items(s: Seq<Msg>) -> Seq<char>
    decreases s,
{
    if s.len() == 0 {
        Seq::empty()
    } else {
        let e = match s.last() {
            Msg::Bin(b) => sid_or_hex(b@),
            _ => compact_text(s.last()),
        };
        if s.len() == 1 {
            e
        } else {
            sid_items(s.drop_last()) + ", "@ + e
        }
    }
}

/// How a value renders under a key with a special meaning: a `sid` key's
/// binary as a SID, a `sids` key's array as SIDs, an `access` key's integer
/// as right names. `None` when the key means nothing special or the value
/// is not of the shape it calls for.
pub open spec fn special_text(key: Seq<char>, v: Msg) -> Option<Seq<char>>
    decreases v,
{
    let k = lower_ascii_seq(key);
    if ends_with(k, "sids"@) && v is Array {
        Some("["@ + sid_items(v->Array_0@) + "]"@)
    } else if !ends_with(k, "sids"@) && ends_with(k, "sid"@) && v is Bin {
        Some(sid_or_hex(v->Bin_0@))
    } else if ends_with(k, "access"@) {
        match v {
            Msg::UInt(u) => Some(
                if u <= u32::MAX {
                    access_text(u as u32)
                } else {
                    decimal(u as nat)
                },
            ),
            Msg::Int(i) => Some(int_text(i as int)),
            _ => None,
        }
    } else {
        None
    }
}

fn push_debug(out: &mut Vec<char>, s: &str)
    ensures
        final(out)@ == old(out)@ + debug_str(s@),
{
    extend_str(out, debug_quoted(s).as_str());
}

fn push_sid_or_hex(out: &mut Vec<char>, b: &[u8])
    ensures
        final(out)@ == old(out)@ + sid_or_hex(b@),
{
    match sid_to_string(b) {
        Some(s) => extend_str(out, s.as_str()),
        None => extend_str(out, hex_preview(b).as_str()),
    }
}

/// Render a value compactly onto `out`.
pub fn compact(m: &Msg, out: &mut Vec<char>)
    ensures
        final(out)@ == old(out)@ + compact_text(*m),
    decreases m,
{
    match m {
        Msg::Nil => extend_str(out, "nil"),
        Msg::Bool(b) => if *b {
            extend_str(out, "true")
        } else {
            extend_str(out, "false")
        },
        Msg::UInt(u) => extend_chars(out, &u64_decimal(*u)),
        Msg::Int(i) => push_int(out, *i),
        Msg::Float(f) => extend_str(out, f.as_str()),
        Msg::Str(s) => push_debug(out, s.as_str()),
        Msg::Bin(b) => extend_str(out, hex_preview(b.as_slice()).as_str()),
        Msg::Ext(t, n) => {
            extend_str(out, "ext(");
            push_int(out, *t as i64);
            extend_str(out, ", ");
            extend_chars(out, &u64_decimal(*n as u64));
            extend_str(out, " byte(s))");
        },
        Msg::Array(items) => {
            extend_str(out, "[");
            let ghost start = out@;
            let mut i: usize = 0;
            while i < items.len()
                invariant
                    i <= items@.len(),
                    *m == Msg::Array(*items),
                    out@ == start + items_text(items@.take(i as int)),
                decreases items@.len() - i,
            {
                assert(items@.take(i + 1).drop_last() =~= items@.take(i as int));
                if i > 0 {
                    extend_str(out, ", ");
                }
                proof {
                    assert(decreases_to!(*m => (*m)->Array_0));
                    assert(decreases_to!(*items => items@));
                    assert(decreases_to!(items@ => items@[i as int]));
                }
                compact(&items[i], out);
                i += 1;
            }
            assert(items@.take(items@.len() as int) =~= items@);
            extend_str(out, "]");
        },
        Msg::Mapping(ps) => {
            extend_str(out, "{");
            let ghost start = out@;
            let mut i: usize = 0;
            while i < ps.len()
                invariant
                    i <= ps@.len(),
                    *m == Msg::Mapping(*ps),
                    out@ == start + pairs_text(ps@.take(i as int)),
                decreases ps@.len() - i,
            {
                assert(ps@.take(i + 1).drop_last() =~= ps@.take(i as int));
                if i > 0 {
                    extend_str(out, ", ");
                }
                let p = &ps[i];
                let ghost before = out@;
                proof {
                    assert(decreases_to!(*m => (*m)->Mapping_0));
                    assert(decreases_to!(*ps => ps@));
                    assert(decreases_to!(ps@ => ps@[i as int]));
                    assert(decreases_to!(ps@[i as int] => ps@[i as int].0));
                    assert(decreases_to!(ps@[i as int] => ps@[i as int].1));
                }
                match &p.0 {
                    Msg::Str(k) => {
                        push_debug(out, k.as_str());
                        extend_str(out, ": ");
                        if !special(k.as_str(), &p.1, out) {
                            compact(&p.1, out);
                        }
                    },
                    _ => {
                        compact(&p.0, out);
                        extend_str(out, ": ");
                        compact(&p.1, out);
                    },
                }
                assert(out@ == before + pair_text(ps@[i as int]));
                i += 1;
            }
            assert(ps@.take(ps@.len() as int) =~= ps@);
            extend_str(out, "}");
        },
    }
}

/// Render `v` onto `out` as its key calls for, when the key has a special
/// meaning and the value the shape it needs; else leave `out` and say so.
pub fn special(key: &str, v: &Msg, out: &mut Vec<char>) -> (applied: bool)
    ensures
        match special_text(key@, *v) {
            Some(r) => applied && final(out)@ == old(out)@ + r,
            None => !applied && final(out)@ == old(out)@,
        },
    decreases v,
{
    let k = ascii_lowercase(&chars_of(key));
    let is_sids = ends_with_str(&k, "sids");
    if is_sids {
        if let Msg::Array(items) = v {
            extend_str(out, "[");
            let ghost start = out@;
            let mut i: usize = 0;
            while i < items.len()
                invariant
                    i <= items@.len(),
                    *v == Msg::Array(*items),
                    out@ == start + sid_items(items@.take(i as int)),
                decreases items@.len() - i,
            {
                assert(items@.take(i + 1).drop_last() =~= items@.take(i as int));
                if i > 0 {
                    extend_str(out, ", ");
                }
                proof {
                    assert(decreases_to!(*v => (*v)->Array_0));
                    assert(decreases_to!(*items => items@));
                    assert(decreases_to!(items@ => items@[i as int]));
                }
                match &items[i] {
                    Msg::Bin(b) => push_sid_or_hex(out, b.as_slice()),
                    e => compact(e, out),
                }
                i += 1;
            }
            assert(items@.take(items@.len() as int) =~= items@);
            extend_str(out, "]");
            return true;
        }
    } else if ends_with_str(&k, "sid") {
        if let Msg::Bin(b) = v {
            push_sid_or_hex(out, b.as_slice());
            return true;
        }
    }
    if ends_with_str(&k, "access") {
        match v {
            Msg::UInt(u) => {
                if *u <= 0xffff_ffff {
                    extend_str(out, decode_access_mask(*u as u32).as_str());
                } else {
                    extend_chars(out, &u64_decimal(*u));
                }
                return true;
            },
            Msg::Int(i) => {
                push_int(out, *i);
                return true;
            },
            _ => {},
        }
    }
    false
}

/// A map key as bare text: a string without quotes, anything else compact.
pub open spec fn key_label_text(k: Msg) -> Seq<char> {
    match k {
        Msg::Str(s) => s@,
        _ => compact_text(k),
    }
}

/// `s` padded with spaces to `w` characters.
pub open spec fn pad_to(s: Seq<char>, w: int) -> Seq<char> {
    s + spaces(w - s.len())
}

/// The widest key label of a map, in bytes.
pub open spec fn label_width(s: Seq<(Msg, Msg)>) -> nat
    decreases s.len(),
{
    if s.len() == 0 {
        0
    } else {
        let w = label_width(s.drop_last());
        let k = byte_len(key_label_text(s.last().0)) as nat;
        if k > w {
            k
        } else {
            w
        }
    }
}

/// The pretty form of a value at `indent`: whether it is a block of lines
/// (a non-empty map, or an array holding a container) printed under a
/// header, and its text; else an inline fragment printed on the key's line.
pub open spec fn pretty_text(m: Msg, indent: nat) -> (bool, Seq<char>)
    decreases m,
{
    match m {
        Msg::Mapping(ps) => if ps.len() == 0 {
            (false, "{}"@)
        } else {
            (true, map_rows(ps@, indent, label_width(ps@)))
        },
        Msg::Array(items) => if items.len() == 0 {
            (false, "[]"@)
        } else if !any_block(items@, indent) {
            (false, "["@ + inline_elems(items@, indent) + "]"@)
        } else {
            (true, array_rows(items@, indent))
        },
        _ => (false, compact_text(m)),
    }
}

/// The pretty form of a map entry's value: inline when its key calls for a
/// special rendering, else the value's own form one level in.
pub open spec fn row_value(p: (Msg, Msg), indent: nat) -> (bool, Seq<char>)
    decreases p,
{
    match special_text(key_label_text(p.0), p.1) {
        Some(r) => (false, r),
        None => pretty_text(p.1, indent + 2),
    }
}

/// The lines of a map's block: inline values aligned after keys padded to
/// `w`, blocks beneath a `key:` header.
pub open spec fn map_rows(s: Seq<(Msg, Msg)>, indent: nat, w: nat) -> Seq<char>
    decreases s,
{
    if s.len() == 0 {
        Seq::empty()
    } else {
        let key = key_label_text(s.last().0);
        let v = row_value(s.last(), indent);
        map_rows(s.drop_last(), indent, w) + if !v.0 {
            spaces(indent as int) + pad_to(key, w as int) + "  "@ + v.1 + "\n"@
        } else {
            spaces(indent as int) + key + ":\n"@ + v.1
        }
    }
}

/// Does any element of an array render as a block?
pub open spec fn any_block(s: Seq<Msg>, indent: nat) -> bool
    decreases s,
{
    if s.len() == 0 {
        false
    } else {
        any_block(s.drop_last(), indent) || pretty_text(s.last(), indent + 2).0
    }
}

/// The inline forms of an array's elements, comma-separated.
pub open spec fn inline_elems(s: Seq<Msg>, indent: nat) -> Seq<char>
    decreases s,
{
    if s.len() == 0 {
        Seq::empty()
    } else if s.len() == 1 {
        pretty_text(s[0], indent + 2).1
    } else {
        inline_elems(s.drop_last(), indent) + ", "@ + pretty_text(s.last(), indent + 2).1
    }
}

/// The lines of an array's block, one indexed entry per element.
pub open spec fn array_rows(s: Seq<Msg>, indent: nat) -> Seq<char>
    decreases s,
{
    if s.len() == 0 {
        Seq::empty()
    } else {
        let v = pretty_text(s.last(), indent + 2);
        let tag = spaces(indent as int) + "["@ + decimal((s.len() - 1) as nat);
        array_rows(s.drop_last(), indent) + if !v.0 {
            tag + "]  "@ + v.1 + "\n"@
        } else {
            tag + "]:\n"@ + v.1
        }
    }
}

/// A value's pretty form: an inline fragment, or a finished block of lines.
pub enum Pretty {
    Inline(String),
    Block(String),
}

pub open spec fn pretty_view(p: Pretty) -> (bool, Seq<char>) {
    match p {
        Pretty::Inline(s) => (false, s@),
        Pretty::Block(s) => (true, s@),
    }
}

fn key_label(k: &Msg) -> (s: String)
    ensures
        s@ == key_label_text(*k),
{
    match k {
        Msg::Str(s) => s.clone(),
        _ => {
            let mut v: Vec<char> = Vec::new();
            compact(k, &mut v);
            string_from_chars(&v)
        },
    }
}

fn deeper(pad: &Vec<char>, Ghost(indent): Ghost<nat>) -> (d: Vec<char>)
    requires
        pad@ == spaces(indent as int),
    ensures
        d@ == spaces(indent + 2int),
{
    let mut d = pad.clone();
    d.push(' ');
    d.push(' ');
    assert(d@ =~= spaces(indent + 2int));
    d
}

fn push_spaces(v: &mut Vec<char>, n: usize)
    ensures
        final(v)@ == old(v)@ + spaces(n as int),
{
    let mut i: usize = 0;
    while i < n
        invariant
            i <= n,
            v@ == old(v)@ + spaces(i as int),
        decreases n - i,
    {
        v.push(' ');
        i += 1;
        assert(v@ =~= old(v)@ + spaces(i as int));
    }
}

/// The pretty form of a map entry's value.
fn row_pretty(p: &(Msg, Msg), inner: &Vec<char>, Ghost(indent): Ghost<nat>) -> (r: Pretty)
    requires
        inner@ == spaces(indent + 2int),
    ensures
        pretty_view(r) == row_value(*p, indent),
    decreases p,
{
    let key = key_label(&p.0);
    let mut sv: Vec<char> = Vec::new();
    proof {
        assert(decreases_to!(*p => p.1));
    }
    if special(key.as_str(), &p.1, &mut sv) {
        Pretty::Inline(string_from_chars(&sv))
    } else {
        render_value(&p.1, inner, Ghost(indent + 2))
    }
}

/// One line (or block) of a map's rendering.
fn push_map_row(block: &mut Vec<char>, pad: &Vec<char>, key: &str, value: &Pretty, width: usize, Ghost(indent): Ghost<nat>)
    requires
        pad@ == spaces(indent as int),
    ensures
        final(block)@ == old(block)@ + if !pretty_view(*value).0 {
            spaces(indent as int) + pad_to(key@, width as int) + "  "@ + pretty_view(*value).1 + "\n"@
        } else {
            spaces(indent as int) + key@ + ":\n"@ + pretty_view(*value).1
        },
{
    match value {
        Pretty::Inline(s) => {
            extend_chars(block, pad);
            let kv = chars_of(key);
            extend_chars(block, &kv);
            if kv.len() < width {
                push_spaces(block, width - kv.len());
            } else {
                assert(spaces(width - kv@.len()) =~= Seq::<char>::empty());
            }
            extend_str(block, "  ");
            extend_str(block, s.as_str());
            extend_str(block, "\n");
        },
        Pretty::Block(b) => {
            extend_chars(block, pad);
            extend_str(block, key);
            extend_str(block, ":\n");
            extend_str(block, b.as_str());
        },
    }
}

/// Render the value in pretty form at the indent whose spaces are `pad`.
fn render_value(m: &Msg, pad: &Vec<char>, Ghost(indent): Ghost<nat>) -> (p: Pretty)
    requires
        pad@ == spaces(indent as int),
    ensures
        pretty_view(p) == pretty_text(*m, indent),
    decreases m,
{
    match m {
        Msg::Mapping(ps) => {
            if ps.len() == 0 {
                return Pretty::Inline("{}".to_owned());
            }
            let ghost w = label_width(ps@);
            let mut width: usize = 0;
            let mut i: usize = 0;
            while i < ps.len()
                invariant
                    i <= ps@.len(),
                    width as nat == label_width(ps@.take(i as int)),
                decreases ps@.len() - i,
            {
                assert(ps@.take(i + 1).drop_last() =~= ps@.take(i as int));
                let n = key_label(&ps[i].0).as_str().len();
                if n > width {
                    width = n;
                }
                i += 1;
            }
            assert(ps@.take(ps@.len() as int) =~= ps@);
            let inner = deeper(pad, Ghost(indent));
            let mut block: Vec<char> = Vec::new();
            let mut k: usize = 0;
            while k < ps.len()
                invariant
                    k <= ps@.len(),
                    *m == Msg::Mapping(*ps),
                    pad@ == spaces(indent as int),
                    inner@ == spaces(indent + 2int),
                    width as nat == w,
                    block@ == map_rows(ps@.take(k as int), indent, w),
                decreases ps@.len() - k,
            {
                assert(ps@.take(k + 1).drop_last() =~= ps@.take(k as int));
                let p = &ps[k];
                proof {
                    assert(decreases_to!(*m => (*m)->Mapping_0));
                    assert(decreases_to!(*ps => ps@));
                    assert(decreases_to!(ps@ => ps@[k as int]));
                    assert(decreases_to!(ps@[k as int] => ps@[k as int].1));
                }
                let key = key_label(&p.0);
                let value = row_pretty(p, &inner, Ghost(indent));
                push_map_row(&mut block, pad, key.as_str(), &value, width, Ghost(indent));
                k += 1;
            }
            assert(ps@.take(ps@.len() as int) =~= ps@);
            Pretty::Block(string_from_chars(&block))
        },
        Msg::Array(items) => {
            if items.len() == 0 {
                return Pretty::Inline("[]".to_owned());
            }
            let inner = deeper(pad, Ghost(indent));
            let mut elems: Vec<Pretty> = Vec::new();
            let mut any = false;
            let mut i: usize = 0;
            while i < items.len()
                invariant
                    i <= items@.len(),
                    *m == Msg::Array(*items),
                    inner@ == spaces(indent + 2int),
                    elems@.len() == i,
                    forall|j: int| 0 <= j < i ==> pretty_view(#[trigger] elems@[j]) == pretty_text(items@[j], indent + 2),
                    any == any_block(items@.take(i as int), indent),
                decreases items@.len() - i,
            {
                assert(items@.take(i + 1).drop_last() =~= items@.take(i as int));
                proof {
                    assert(decreases_to!(*m => (*m)->Array_0));
                    assert(decreases_to!(*items => items@));
                    assert(decreases_to!(items@ => items@[i as int]));
                }
                let p = render_value(&items[i], &inner, Ghost(indent + 2));
                if let Pretty::Block(_) = p {
                    any = true;
                }
                elems.push(p);
                i += 1;
            }
            assert(items@.take(items@.len() as int) =~= items@);
            if !any {
                let mut v: Vec<char> = Vec::new();
                extend_str(&mut v, "[");
                let mut k: usize = 0;
                while k < elems.len()
                    invariant
                        k <= elems@.len(),
                        elems@.len() == items@.len(),
                        forall|j: int| 0 <= j < elems@.len() ==> pretty_view(#[trigger] elems@[j]) == pretty_text(items@[j], indent + 2),
                        v@ == "["@ + inline_elems(items@.take(k as int), indent),
                    decreases elems@.len() - k,
                {
                    assert(items@.take(k + 1).drop_last() =~= items@.take(k as int));
                    assert(pretty_view(elems@[k as int]) == pretty_text(items@[k as int], indent + 2));
                    if k > 0 {
                        extend_str(&mut v, ", ");
                    }
                    match &elems[k] {
                        Pretty::Inline(f) => extend_str(&mut v, f.as_str()),
                        Pretty::Block(f) => extend_str(&mut v, f.as_str()),
                    }
                    k += 1;
                }
                assert(items@.take(items@.len() as int) =~= items@);
                extend_str(&mut v, "]");
                return Pretty::Inline(string_from_chars(&v));
            }
            let mut block: Vec<char> = Vec::new();
            let mut k: usize = 0;
            while k < elems.len()
                invariant
                    k <= elems@.len(),
                    elems@.len() == items@.len(),
                    pad@ == spaces(indent as int),
                    forall|j: int| 0 <= j < elems@.len() ==> pretty_view(#[trigger] elems@[j]) == pretty_text(items@[j], indent + 2),
                    block@ == array_rows(items@.take(k as int), indent),
                decreases elems@.len() - k,
            {
                assert(items@.take(k + 1).drop_last() =~= items@.take(k as int));
                assert(pretty_view(elems@[k as int]) == pretty_text(items@[k as int], indent + 2));
                extend_chars(&mut block, pad);
                extend_str(&mut block, "[");
                extend_chars(&mut block, &u64_decimal(k as u64));
                match &elems[k] {
                    Pretty::Inline(s) => {
                        extend_str(&mut block, "]  ");
                        extend_str(&mut block, s.as_str());
                        extend_str(&mut block, "\n");
                    },
                    Pretty::Block(b) => {
                        extend_str(&mut block, "]:\n");
                        extend_str(&mut block, b.as_str());
                    },
                }
                k += 1;
            }
            assert(items@.take(items@.len() as int) =~= items@);
            Pretty::Block(string_from_chars(&block))
        },
        _ => {
            let mut v: Vec<char> = Vec::new();
            compact(m, &mut v);
            Pretty::Inline(string_from_chars(&v))
        },
    }
}

/// What decoding a payload gave: its value and the count of bytes left
/// after it, or the decoder's complaint.
pub open spec fn trailing_note(rest: usize) -> Seq<char> {
    if rest != 0 {
        " (+"@ + decimal(rest as nat) + " trailing byte(s))"@
    } else {
        Seq::empty()
    }
}

pub open spec fn undecodable_text(p: Seq<u8>, e: Seq<char>) -> Seq<char> {
    "<"@ + decimal(p.len()) + " byte(s), undecodable: "@ + e + "> "@ + hex_preview_text(p)
}

/// The one-line rendering of a payload: `(empty)`; the value, compact, with
/// any trailing bytes noted, cut to the inline cap; or, when it would not
/// decode, its length, the complaint and a hex preview.
pub open spec fn payload_inline_text(p: Seq<u8>, d: Result<(Msg, usize), String>) -> Seq<char> {
    if p.len() == 0 {
        "(empty)"@
    } else {
        match d {
            Ok((m, rest)) => truncate_text(compact_text(m) + trailing_note(rest), PAYLOAD_INLINE_CAP as int),
            Err(e) => undecodable_text(p, e@),
        }
    }
}

fn push_undecodable(v: &mut Vec<char>, payload: &[u8], e: &String)
    ensures
        final(v)@ == old(v)@ + undecodable_text(payload@, e@),
{
    extend_str(v, "<");
    extend_chars(v, &u64_decimal(payload.len() as u64));
    extend_str(v, " byte(s), undecodable: ");
    extend_str(v, e.as_str());
    extend_str(v, "> ");
    extend_str(v, hex_preview(payload).as_str());
}

/// One-line, compact rendering of a decoded payload.
pub fn render_payload_inline(payload: &[u8], decoded: &Result<(Msg, usize), String>) -> (s: String)
    ensures
        s@ == payload_inline_text(payload@, *decoded),
{
    if payload.len() == 0 {
        return "(empty)".to_owned();
    }
    let mut v: Vec<char> = Vec::new();
    match decoded {
        Ok((m, rest)) => {
            compact(m, &mut v);
            if *rest != 0 {
                extend_str(&mut v, " (+");
                extend_chars(&mut v, &u64_decimal(*rest as u64));
                extend_str(&mut v, " trailing byte(s))");
            }
            truncate(string_from_chars(&v).as_str(), PAYLOAD_INLINE_CAP)
        },
        Err(e) => {
            push_undecodable(&mut v, payload, e);
            string_from_chars(&v)
        },
    }
}

/// The multi-line rendering of a payload at `indent`.
pub open spec fn payload_pretty_text(p: Seq<u8>, d: Result<(Msg, usize), String>, indent: nat) -> Seq<char> {
    let pad = spaces(indent as int);
    if p.len() == 0 {
        pad + "(empty)\n"@
    } else {
        match d {
            Ok((m, rest)) => {
                let v = pretty_text(m, indent);
                (if v.0 {
                    v.1
                } else {
                    pad + v.1 + "\n"@
                }) + (if rest != 0 {
                    pad + "(+"@ + decimal(rest as nat) + " trailing byte(s))\n"@
                } else {
                    Seq::empty()
                })
            },
            Err(e) => pad + undecodable_text(p, e@) + "\n"@,
        }
    }
}

/// Multi-line pretty rendering of a decoded payload at the given indent.
pub fn render_payload_pretty(payload: &[u8], decoded: &Result<(Msg, usize), String>, indent: usize) -> (s: String)
    ensures
        s@ == payload_pretty_text(payload@, *decoded, indent as nat),
{
    let mut pad: Vec<char> = Vec::new();
    push_spaces(&mut pad, indent);
    assert(pad@ =~= spaces(indent as int));
    let mut v: Vec<char> = Vec::new();
    if payload.len() == 0 {
        extend_chars(&mut v, &pad);
        extend_str(&mut v, "(empty)\n");
        return string_from_chars(&v);
    }
    match decoded {
        Ok((m, rest)) => {
            match render_value(m, &pad, Ghost(indent as nat)) {
                Pretty::Inline(s) => {
                    extend_chars(&mut v, &pad);
                    extend_str(&mut v, s.as_str());
                    extend_str(&mut v, "\n");
                },
                Pretty::Block(b) => extend_str(&mut v, b.as_str()),
            }
            if *rest != 0 {
                extend_chars(&mut v, &pad);
                extend_str(&mut v, "(+");
                extend_chars(&mut v, &u64_decimal(*rest as u64));
                extend_str(&mut v, " trailing byte(s))\n");
            }
        },
        Err(e) => {
            extend_chars(&mut v, &pad);
            push_undecodable(&mut v, payload, e);
            extend_str(&mut v, "\n");
        },
    }
    string_from_chars(&v)
}

/// `s` left-aligned in `w` characters.
pub open spec fn left_in(s: Seq<char>, w: int) -> Seq<char> {
    s + spaces(w - s.len())
}

/// `s` right-aligned in `w` characters.
pub open spec fn right_in(s: Seq<char>, w: int) -> Seq<char> {
    spaces(w - s.len()) + s
}

/// The text printed for one event: time, CPU, sequence number, origin and
/// type on one line, then the payload, inline or pretty.
pub open spec fn event_text(
    cpu: u16,
    seq: u64,
    ts_ns: u64,
    origin: u8,
    ev_type: Seq<u8>,
    payload: Seq<u8>,
    d: Result<(Msg, usize), String>,
    pretty: bool,
) -> Seq<char> {
    time_text(ts_ns as nat) + "  cpu"@ + left_in(decimal(cpu as nat), 2) + " #"@ + left_in(
        decimal(seq as nat),
        8,
    ) + " "@ + right_in(origin_label_text(origin), 4) + "  "@ + lossy(ev_type) + if pretty {
        "\n"@ + payload_pretty_text(payload, d, 4)
    } else {
        "  "@ + payload_inline_text(payload, d) + "\n"@
    }
}

fn push_left_in(v: &mut Vec<char>, s: &Vec<char>, w: usize)
    ensures
        final(v)@ == old(v)@ + left_in(s@, w as int),
{
    extend_chars(v, s);
    if s.len() < w {
        push_spaces(v, w - s.len());
    } else {
        assert(spaces(w - s@.len()) =~= Seq::<char>::empty());
    }
}

/// Format one event as printed.
pub fn event_line(
    cpu: u16,
    seq: u64,
    ts_ns: u64,
    origin: u8,
    ev_type: &[u8],
    payload: &[u8],
    decoded: &Result<(Msg, usize), String>,
    pretty: bool,
) -> (s: String)
    ensures
        s@ == event_text(cpu, seq, ts_ns, origin, ev_type@, payload@, *decoded, pretty),
{
    let mut v: Vec<char> = Vec::new();
    extend_str(&mut v, fmt_time(ts_ns).as_str());
    extend_str(&mut v, "  cpu");
    push_left_in(&mut v, &u64_decimal(cpu as u64), 2);
    extend_str(&mut v, " #");
    push_left_in(&mut v, &u64_decimal(seq), 8);
    extend_str(&mut v, " ");
    let label = chars_of(origin_label(origin).as_str());
    if label.len() < 4 {
        push_spaces(&mut v, 4 - label.len());
    } else {
        assert(spaces(4 - label@.len()) =~= Seq::<char>::empty());
    }
    extend_chars(&mut v, &label);
    extend_str(&mut v, "  ");
    let ty = lossy_text(ev_type);
    assert(ty@ == lossy(ev_type@));
    extend_str(&mut v, ty.as_str());
    if pretty {
        extend_str(&mut v, "\n");
        extend_str(&mut v, render_payload_pretty(payload, decoded, 4).as_str());
    } else {
        extend_str(&mut v, "  ");
        extend_str(&mut v, render_payload_inline(payload, decoded).as_str());
        extend_str(&mut v, "\n");
    }
    string_from_chars(&v)
}

/// A visible marker for the events lost since the last report, when a ring
/// lapped; `reported` then counts them too.
pub fn report_lost(cpu: u16, total_lost: u64, reported: &mut u64) -> (line: Option<String>)
    ensures
        total_lost > *old(reported) ==> *final(reported) == total_lost,
        total_lost > *old(reported) ==> (line matches Some(l) && l@
            == "--- cpu"@ + decimal(cpu as nat) + ": lost "@ + decimal((total_lost - *old(reported)) as nat)
            + " event(s) (ring lapped) ---\n"@),
        total_lost <= *old(reported) ==> *final(reported) == *old(reported) && line is None,
{
    if total_lost > *reported {
        let n = total_lost - *reported;
        *reported = total_lost;
        let mut v: Vec<char> = Vec::new();
        extend_str(&mut v, "--- cpu");
        extend_chars(&mut v, &u64_decimal(cpu as u64));
        extend_str(&mut v, ": lost ");
        extend_chars(&mut v, &u64_decimal(n));
        extend_str(&mut v, " event(s) (ring lapped) ---\n");
        Some(string_from_chars(&v))
    } else {
        None
    }
}

/// What `glob::Pattern::new` says is wrong with a pattern, if anything.
pub uninterp spec fn glob_error(p: Seq<char>) -> Option<Seq<char>>;

/// Whether a well-formed glob pattern matches a text.
pub uninterp spec fn glob_match(p: Seq<char>, s: Seq<char>) -> bool;

/// `glob::Pattern::new`: the error's message when the pattern does not
/// compile. The contract names the result; which patterns the crate refuses,
/// and its wording, are left to it.
#[verifier::external_body]
fn pattern_error(p: &str) -> (r: Option<String>)
    ensures
        match r {
            Some(e) => glob_error(p@) == Some(e@),
            None => glob_error(p@) is None,
        },
{
    match glob::Pattern::new(p) {
        Ok(_) => None,
        Err(e) => Some(e.to_string()),
    }
}

/// `glob::Pattern::matches` on a pattern that compiles. The contract names
/// the result; the matching rules are the crate's.
#[verifier::external_body]
fn pattern_matches(p: &str, s: &str) -> (b: bool)
    requires
        glob_error(p@) is None,
    ensures
        b == glob_match(p@, s@),
{
    match glob::Pattern::new(p) {
        Ok(pat) => pat.matches(s),
        Err(_) => false,
    }
}

/// Why a filter could not be built.
#[derive(Debug, Clone, PartialEq, Eq)]
pub enum FilterError {
    /// A type glob that does not compile: the pattern and the complaint.
    BadPattern(String, String),
    /// An origin name that names none, lower-cased.
    BadOrigin(String),
}

/// Event filter: type globs (any may match) and permitted origins. An
/// empty list for a dimension matches everything.
pub struct Filter {
    types: Vec<String>,
    origins: Vec<u8>,
}

pub open spec fn strs(v: Seq<String>) -> Seq<Seq<char>> {
    v.map_values(|s: String| s@)
}

/// The origin bytes that a list of `--origin` arguments names, when every
/// one names one.
pub open spec fn origins_named(os: Seq<Seq<char>>) -> Option<Seq<u8>>
    decreases os.len(),
{
    if os.len() == 0 {
        Some(Seq::empty())
    } else {
        match (origins_named(os.drop_last()), origin_named(os.last())) {
            (Some(v), Some(o)) => Some(v.push(o)),
            _ => None,
        }
    }
}

impl Filter {
    pub closed spec fn type_globs(&self) -> Seq<Seq<char>> {
        strs(self.types@)
    }

    pub closed spec fn origin_set(&self) -> Seq<u8> {
        self.origins@
    }

    /// Every type glob compiles.
    pub closed spec fn wf(&self) -> bool {
        forall|i: int| 0 <= i < self.types@.len() ==> glob_error((#[trigger] self.types@[i])@) is None
    }

    /// A filter from the `--type` globs and `--origin` names given: the first
    /// glob that does not compile, in order, or else the first origin name
    /// that names none, refuses it.
    pub fn new(types: &[String], origins: &[String]) -> (r: Result<Filter, FilterError>)
        ensures
            match r {
                Ok(f) => f.wf() && f.type_globs() == strs(types@) && origins_named(strs(origins@))
                    == Some(f.origin_set()) && forall|i: int|
                    0 <= i < types@.len() ==> glob_error((#[trigger] types@[i])@) is None,
                Err(FilterError::BadPattern(p, e)) => exists|i: int|
                    0 <= i < types@.len() && (#[trigger] types@[i])@ == p@ && glob_error(p@) == Some(e@)
                        && forall|j: int| 0 <= j < i ==> glob_error((#[trigger] types@[j])@) is None,
                Err(FilterError::BadOrigin(o)) => (forall|i: int|
                    0 <= i < types@.len() ==> glob_error((#[trigger] types@[i])@) is None)
                    && origins_named(strs(origins@)) is None,
            },
    {
        let mut ts: Vec<String> = Vec::new();
        let mut i: usize = 0;
        while i < types.len()
            invariant
                i <= types@.len(),
                strs(ts@) == strs(types@.take(i as int)),
                forall|j: int| 0 <= j < i ==> glob_error((#[trigger] types@[j])@) is None,
                forall|j: int| 0 <= j < ts@.len() ==> glob_error((#[trigger] ts@[j])@) is None,
            decreases types@.len() - i,
        {
            match pattern_error(types[i].as_str()) {
                Some(e) => {
                    return Err(FilterError::BadPattern(types[i].clone(), e));
                },
                None => {},
            }
            let t = types[i].clone();
            assert(types@.take(i + 1) =~= types@.take(i as int).push(types@[i as int]));
            assert(strs(ts@.push(t)) =~= strs(ts@).push(t@));
            assert(strs(types@.take(i + 1)) =~= strs(types@.take(i as int)).push(types@[i as int]@));
            ts.push(t);
            i += 1;
        }
        assert(types@.take(types@.len() as int) =~= types@);
        let mut os: Vec<u8> = Vec::new();
        let mut k: usize = 0;
        while k < origins.len()
            invariant
                k <= origins@.len(),
                origins_named(strs(origins@.take(k as int))) == Some(os@),
                forall|j: int| 0 <= j < types@.len() ==> glob_error((#[trigger] types@[j])@) is None,
                strs(ts@) == strs(types@),
                forall|j: int| 0 <= j < ts@.len() ==> glob_error((#[trigger] ts@[j])@) is None,
            decreases origins@.len() - k,
        {
            assert(strs(origins@.take(k + 1)).drop_last() =~= strs(origins@.take(k as int)));
            match parse_origin(origins[k].as_str()) {
                Ok(o) => os.push(o),
                Err(other) => {
                    proof {
                        assert(strs(origins@)[k as int] == origins@[k as int]@);
                        lemma_origins_none(strs(origins@), k as int);
                    }
                    return Err(FilterError::BadOrigin(other));
                },
            }
            k += 1;
        }
        assert(strs(origins@.take(origins@.len() as int)) =~= strs(origins@));
        Ok(Filter { types: ts, origins: os })
    }

    /// Does an event of this origin and type pass?
    pub fn matches(&self, origin: u8, ev_type: &[u8]) -> (b: bool)
        requires
            self.wf(),
        ensures
            b == ((self.origin_set().len() == 0 || self.origin_set().contains(origin)) && (
            self.type_globs().len() == 0 || exists|i: int|
                0 <= i < self.type_globs().len() && glob_match(#[trigger] self.type_globs()[i], lossy(ev_type@)))),
    {
        if self.origins.len() > 0 {
            let mut found = false;
            let mut i: usize = 0;
            while i < self.origins.len()
                invariant
                    i <= self.origins@.len(),
                    found == (exists|j: int| 0 <= j < i && self.origins@[j] == origin),
                decreases self.origins@.len() - i,
            {
                if self.origins[i] == origin {
                    found = true;
                }
                i += 1;
            }
            if !found {
                return false;
            }
        }
        if self.types.len() > 0 {
            let s = lossy_text(ev_type);
            assert(s@ == lossy(ev_type@));
            let mut k: usize = 0;
            while k < self.types.len()
                invariant
                    k <= self.types@.len(),
                    self.wf(),
                    self.origin_set().len() == 0 || self.origin_set().contains(origin),
                    s@ == lossy(ev_type@),
                    forall|j: int| 0 <= j < k ==> !glob_match(#[trigger] self.type_globs()[j], lossy(ev_type@)),
                decreases self.types@.len() - k,
            {
                assert(glob_error(self.types@[k as int]@) is None);
                if pattern_matches(self.types[k].as_str(), s.as_str()) {
                    assert(self.type_globs()[k as int] == self.types@[k as int]@);
                    assert(glob_match(self.type_globs()[k as int], lossy(ev_type@)));
                    return true;
                }
                assert(self.type_globs()[k as int] == self.types@[k as int]@);
                k += 1;
            }
            return false;
        }
        true
    }
}

proof fn lemma_origins_none(os: Seq<Seq<char>>, k: int)
    requires
        0 <= k < os.len(),
        origin_named(os[k]) is None,
    ensures
        origins_named(os) is None,
    decreases os.len(),
{
    if k < os.len() - 1 {
        lemma_origins_none(os.drop_last(), k);
    }
}

/// The formatter every drain thread shares: the filter, and whether
/// payloads print pretty.
pub struct Printer {
    pub filter: Filter,
    pub pretty: bool,
}

impl Printer {
    /// The text to print for an event: its formatted line, when it passes the
    /// filter; nothing otherwise.
    pub fn emit(
        &self,
        cpu: u16,
        seq: u64,
        ts_ns: u64,
        origin: u8,
        ev_type: &[u8],
        payload: &[u8],
        decoded: &Result<(Msg, usize), String>,
    ) -> (r: Option<String>)
        requires
            self.filter.wf(),
        ensures
            match r {
                Some(t) => t@ == event_text(cpu, seq, ts_ns, origin, ev_type@, payload@, *decoded, self.pretty),
                None => true,
            },
            r is Some == ((self.filter.origin_set().len() == 0 || self.filter.origin_set().contains(origin)) && (
            self.filter.type_globs().len() == 0 || exists|i: int|
                0 <= i < self.filter.type_globs().len() && glob_match(
                    #[trigger] self.filter.type_globs()[i],
                    lossy(ev_type@),
                ))),
    {
        if !self.filter.matches(origin, ev_type) {
            return None;
        }
        Some(event_line(cpu, seq, ts_ns, origin, ev_type, payload, decoded, self.pretty))
    }
}

} // verus!
