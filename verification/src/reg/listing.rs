//! The lines `reg ls`, `reg tree` and `reg set` print, from what the
//! registry answered: subkeys with their counts, and value records.
use crate::part::device::stable_sorted;
use crate::reg::addr::{display_value_name, lossy, lossy_text};
use crate::reg::literal::{format_human, human_text, is_surprising_coercion, surprising, type_name_text, value_type_name, ValueType};
use crate::regman::scan::{bytes_less, bytes_lt};
use crate::text::{decimal, extend_chars, extend_str, string_from_chars, u64_decimal};
use vstd::prelude::*;

verus! {

/// One subkey as an enumeration reports it.
pub struct SubkeyInfo {
    pub name: Vec<u8>,
    pub subkey_count: u64,
    pub value_count: u64,
}

/// One value as a batch query reports it.
pub struct ValueRecord {
    pub name: Vec<u8>,
    pub ty: ValueType,
    pub data: Vec<u8>,
}

/// A value's name for display: the default value as `(default)`.
pub open spec fn name_text(name: Seq<u8>) -> Seq<char> {
    if name.len() == 0 {
        "(default)"@
    } else {
        lossy(name)
    }
}

/// ASCII lowercase of a byte.
pub open spec fn lower_byte(b: u8) -> u8 {
    if 65 <= b <= 90 {
        (b + 32) as u8
    } else {
        b
    }
}

pub open spec fn lower_bytes(s: Seq<u8>) -> Seq<u8> {
    s.map_values(|b: u8| lower_byte(b))
}

/// The order `reg ls` lists values in: the default value first, then by
/// name with ASCII case ignored.
pub open spec fn value_before(a: Seq<u8>, b: Seq<u8>) -> bool {
    if a.len() == 0 {
        b.len() > 0
    } else if b.len() == 0 {
        false
    } else {
        bytes_lt(lower_bytes(a), lower_bytes(b))
    }
}

pub open spec fn record_lt(a: (Seq<u8>, ValueType, Seq<u8>), b: (Seq<u8>, ValueType, Seq<u8>)) -> bool {
    value_before(a.0, b.0)
}

pub open spec fn record_view(r: ValueRecord) -> (Seq<u8>, ValueType, Seq<u8>) {
    (r.name@, r.ty, r.data@)
}

pub open spec fn record_views(v: Seq<ValueRecord>) -> Seq<(Seq<u8>, ValueType, Seq<u8>)> {
    v.map_values(|r: ValueRecord| record_view(r))
}

/// The line `reg ls` prints for a subkey.
pub open spec fn subkey_text(s: SubkeyInfo, long: bool) -> Seq<char> {
    if long {
        lossy(s.name@) + "/"@ + "   ("@ + decimal(s.subkey_count as nat) + " subkeys, "@ + decimal(
            s.value_count as nat,
        ) + " values)"@
    } else {
        lossy(s.name@) + "/"@
    }
}

/// The line `reg ls` prints for a value.
pub open spec fn value_text(r: (Seq<u8>, ValueType, Seq<u8>), long: bool) -> Seq<char> {
    if long {
        name_text(r.0) + " = "@ + type_name_text(r.1) + " "@ + human_text(r.1, r.2) + "   ("@ + decimal(
            r.2.len(),
        ) + " bytes)"@
    } else {
        name_text(r.0) + " = "@ + human_text(r.1, r.2)
    }
}

fn lower_copy(s: &[u8]) -> (out: Vec<u8>)
    ensures
        out@ == lower_bytes(s@),
{
    let mut out: Vec<u8> = Vec::new();
    let mut i: usize = 0;
    while i < s.len()
        invariant
            i <= s@.len(),
            out@ == lower_bytes(s@.take(i as int)),
        decreases s@.len() - i,
    {
        let b = s[i];
        out.push(if 65 <= b && b <= 90 { b + 32 } else { b });
        i += 1;
        assert(out@ =~= lower_bytes(s@.take(i as int)));
    }
    assert(s@.take(s@.len() as int) =~= s@);
    out
}

fn goes_before(a: &ValueRecord, b: &ValueRecord) -> (r: bool)
    ensures
        r == record_lt(record_view(*a), record_view(*b)),
{
    if a.name.len() == 0 {
        b.name.len() > 0
    } else if b.name.len() == 0 {
        false
    } else {
        bytes_less(&lower_copy(&a.name), &lower_copy(&b.name))
    }
}

/// Values in listing order, equal names keeping their order.
pub fn order_values(values: Vec<ValueRecord>) -> (out: Vec<ValueRecord>)
    ensures
        record_views(out@) == stable_sorted(
            |a: (Seq<u8>, ValueType, Seq<u8>), b: (Seq<u8>, ValueType, Seq<u8>)| record_lt(a, b),
            record_views(values@),
        ),
{
    let ghost lt = |a: (Seq<u8>, ValueType, Seq<u8>), b: (Seq<u8>, ValueType, Seq<u8>)| record_lt(a, b);
    let ghost orig = record_views(values@);
    let total = values.len();
    let mut src = values;
    let mut out: Vec<ValueRecord> = Vec::new();
    let mut i: usize = 0;
    assert(record_views(src@) =~= orig.skip(0));
    while src.len() > 0
        invariant
            i + src@.len() == total,
            total == orig.len(),
            record_views(src@) == orig.skip(i as int),
            record_views(out@) == stable_sorted(lt, orig.take(i as int)),
            lt == (|a: (Seq<u8>, ValueType, Seq<u8>), b: (Seq<u8>, ValueType, Seq<u8>)| record_lt(a, b)),
        decreases src@.len(),
    {
        let ghost before_src = src@;
        let x = src.remove(0);
        assert(record_views(before_src)[0] == record_view(x));
        assert(orig.skip(i as int)[0] == record_view(x));
        assert(record_views(src@) =~= record_views(before_src).drop_first());
        assert(orig.take(i + 1).drop_last() =~= orig.take(i as int));
        assert(orig.take(i + 1).last() == record_view(x));
        let mut p: usize = out.len();
        while p > 0 && goes_before(&x, &out[p - 1])
            invariant
                p <= out@.len(),
                forall|k: int| p <= k < out@.len() ==> lt(record_view(x), #[trigger] record_views(out@)[k]),
                lt == (|a: (Seq<u8>, ValueType, Seq<u8>), b: (Seq<u8>, ValueType, Seq<u8>)| record_lt(a, b)),
            decreases p,
        {
            assert(record_views(out@)[p - 1] == record_view(out@[p - 1]));
            p -= 1;
        }
        proof {
            if p > 0 {
                assert(record_views(out@)[p - 1] == record_view(out@[p - 1]));
            }
            crate::part::device::lemma_insert_stable_at(lt, record_views(out@), record_view(x), p as int);
        }
        let ghost before = record_views(out@);
        out.insert(p, x);
        assert(record_views(out@) =~= before.take(p as int).push(record_view(x)) + before.skip(p as int));
        assert(orig.skip(i as int).drop_first() =~= orig.skip(i + 1));
        i += 1;
    }
    assert(orig.take(i as int) =~= orig);
    out
}

/// The lines `reg ls` prints for subkeys.
pub fn subkey_lines(subkeys: &[SubkeyInfo], long: bool) -> (out: Vec<String>)
    ensures
        out@.len() == subkeys@.len(),
        forall|k: int| 0 <= k < out@.len() ==> (#[trigger] out@[k])@ == subkey_text(subkeys@[k], long),
{
    let mut out: Vec<String> = Vec::new();
    let mut i: usize = 0;
    while i < subkeys.len()
        invariant
            i <= subkeys@.len(),
            out@.len() == i,
            forall|k: int| 0 <= k < i ==> (#[trigger] out@[k])@ == subkey_text(subkeys@[k], long),
        decreases subkeys@.len() - i,
    {
        let s = &subkeys[i];
        let mut v: Vec<char> = Vec::new();
        let n = lossy_text(&s.name);
        assert(n@ == lossy(s.name@));
        extend_str(&mut v, n.as_str());
        extend_str(&mut v, "/");
        if long {
            extend_str(&mut v, "   (");
            extend_chars(&mut v, &u64_decimal(s.subkey_count));
            extend_str(&mut v, " subkeys, ");
            extend_chars(&mut v, &u64_decimal(s.value_count));
            extend_str(&mut v, " values)");
        }
        assert(v@ =~= subkey_text(*s, long));
        out.push(string_from_chars(&v));
        i += 1;
    }
    out
}

/// The line for one value, in the short or the long form.
pub fn value_line(r: &ValueRecord, long: bool) -> (s: String)
    ensures
        s@ == value_text(record_view(*r), long),
{
    let mut v: Vec<char> = Vec::new();
    extend_str(&mut v, display_value_name(&r.name).as_str());
    extend_str(&mut v, " = ");
    if long {
        extend_str(&mut v, value_type_name(r.ty).as_str());
        extend_str(&mut v, " ");
    }
    extend_str(&mut v, format_human(r.ty, &r.data).as_str());
    if long {
        extend_str(&mut v, "   (");
        extend_chars(&mut v, &u64_decimal(r.data.len() as u64));
        extend_str(&mut v, " bytes)");
    }
    string_from_chars(&v)
}

/// The lines `reg ls` prints for values, and the values in that order.
pub fn value_lines(values: Vec<ValueRecord>, long: bool) -> (r: (Vec<String>, Vec<ValueRecord>))
    ensures
        record_views(r.1@) == stable_sorted(
            |a: (Seq<u8>, ValueType, Seq<u8>), b: (Seq<u8>, ValueType, Seq<u8>)| record_lt(a, b),
            record_views(values@),
        ),
        r.0@.len() == r.1@.len(),
        forall|k: int| 0 <= k < r.0@.len() ==> (#[trigger] r.0@[k])@ == value_text(record_view(r.1@[k]), long),
{
    let ordered = order_values(values);
    let mut out: Vec<String> = Vec::new();
    let mut i: usize = 0;
    while i < ordered.len()
        invariant
            i <= ordered@.len(),
            out@.len() == i,
            forall|k: int| 0 <= k < i ==> (#[trigger] out@[k])@ == value_text(record_view(ordered@[k]), long),
        decreases ordered@.len() - i,
    {
        out.push(value_line(&ordered[i], long));
        i += 1;
    }
    (out, ordered)
}

/// The line `reg tree` prints for a subkey: its branch, then its name.
pub open spec fn branch_text(indent: Seq<char>, last: bool, name: Seq<char>) -> Seq<char> {
    indent + (if last {
        "\u{2514}\u{2500}\u{2500} "@
    } else {
        "\u{251c}\u{2500}\u{2500} "@
    }) + name
}

/// The indent beneath a subkey: blank under the last one, a rule otherwise.
pub open spec fn indent_text(indent: Seq<char>, last: bool) -> Seq<char> {
    indent + (if last {
        "    "@
    } else {
        "\u{2502}   "@
    })
}

pub fn tree_branch(indent: &str, last: bool, name: &str) -> (s: String)
    ensures
        s@ == branch_text(indent@, last, name@),
{
    let mut v: Vec<char> = Vec::new();
    extend_str(&mut v, indent);
    if last {
        extend_str(&mut v, "\u{2514}\u{2500}\u{2500} ");
    } else {
        extend_str(&mut v, "\u{251c}\u{2500}\u{2500} ");
    }
    extend_str(&mut v, name);
    string_from_chars(&v)
}

pub fn tree_indent(indent: &str, last: bool) -> (s: String)
    ensures
        s@ == indent_text(indent@, last),
{
    let mut v: Vec<char> = Vec::new();
    extend_str(&mut v, indent);
    if last {
        extend_str(&mut v, "    ");
    } else {
        extend_str(&mut v, "\u{2502}   ");
    }
    string_from_chars(&v)
}

/// The line `reg tree --values` prints for a value under a key.
pub fn tree_value(indent: &str, r: &ValueRecord) -> (s: String)
    ensures
        s@ == indent@ + "  "@ + name_text(r.name@) + " = "@ + type_name_text(r.ty) + " "@ + human_text(
            r.ty,
            r.data@,
        ),
{
    let mut v: Vec<char> = Vec::new();
    extend_str(&mut v, indent);
    extend_str(&mut v, "  ");
    extend_str(&mut v, display_value_name(&r.name).as_str());
    extend_str(&mut v, " = ");
    extend_str(&mut v, value_type_name(r.ty).as_str());
    extend_str(&mut v, " ");
    extend_str(&mut v, format_human(r.ty, &r.data).as_str());
    string_from_chars(&v)
}

/// What `reg set` echoes: the resolved type and data, so a broad inference
/// is never silent. `--quiet` suppresses it unless the coercion would
/// surprise.
pub fn set_echo(quiet: bool, token: &str, target: &str, name: &[u8], ty: ValueType, data: &[u8], layer: &str) -> (r:
    Option<String>)
    ensures
        quiet && !surprising(token@, ty) ==> r is None,
        !(quiet && !surprising(token@, ty)) ==> (r matches Some(s) && s@ == "set "@ + target@ + " "@
            + name_text(name@) + " = "@ + type_name_text(ty) + " "@ + human_text(ty, data@)
            + "   (layer: "@ + layer@ + ")"@),
{
    if quiet && !is_surprising_coercion(token, ty) {
        return None;
    }
    let mut v: Vec<char> = Vec::new();
    extend_str(&mut v, "set ");
    extend_str(&mut v, target);
    extend_str(&mut v, " ");
    extend_str(&mut v, display_value_name(name).as_str());
    extend_str(&mut v, " = ");
    extend_str(&mut v, value_type_name(ty).as_str());
    extend_str(&mut v, " ");
    extend_str(&mut v, format_human(ty, data).as_str());
    extend_str(&mut v, "   (layer: ");
    extend_str(&mut v, layer);
    extend_str(&mut v, ")");
    Some(string_from_chars(&v))
}

} // verus!
