//! Knob-card rendering: an identity line, an aligned block of the fields
//! present, then the prose body. The key-level view doubles as an index: the
//! key body, then a `Values` list with a one-line summary per value.
//!
//! Everything here is pure, with an explicit width and style.
use crate::reg::render::{byte_len, spaces};
use crate::regman::fragment::{summary_text, value_name_text, Kind, Record};
use crate::regman::markdown::{inline_segs, render, render_text, seg_chars, strip_inline, wrap_text, Style};
use crate::regman::scan::Hit;
use crate::text::{extend_chars, extend_str, string_from_chars, u64_decimal, decimal};
use vstd::prelude::*;

verus! {

/// `s` cut to at most `max` characters, elision marked with `…`.
pub open spec fn truncate_text(s: Seq<char>, max: int) -> Seq<char> {
    if s.len() <= max {
        s
    } else if max <= 0 {
        Seq::empty()
    } else {
        s.take(max - 1).push('\u{2026}')
    }
}

/// Truncate `s` to at most `max` characters, marking elision with `…`.
pub fn truncate(s: &str, max: usize) -> (r: String)
    ensures
        r@ == truncate_text(s@, max as int),
{
    let v = crate::text::chars_of(s);
    if v.len() <= max {
        return s.to_owned();
    }
    if max == 0 {
        return String::new();
    }
    let mut out = crate::text::slice_chars(&v, 0, max - 1);
    assert(out@ =~= v@.take(max - 1));
    out.push('\u{2026}');
    string_from_chars(&out)
}

pub open spec fn max_int(a: int, b: int) -> int {
    if a >= b {
        a
    } else {
        b
    }
}

pub open spec fn sat_sub(a: int, b: int) -> int {
    if a >= b {
        a - b
    } else {
        0
    }
}

/// The identity line: the canonical name in bold, the provider dimmed and
/// pushed right, at least two spaces between.
pub open spec fn identity_text(color: bool, canonical: Seq<char>, provider: Seq<char>, width: int) -> Seq<char> {
    let right = "documented by "@ + provider;
    let pad = max_int(sat_sub(width, byte_len(canonical) + byte_len(right)), 2);
    wrap_text(color, canonical, "1"@) + spaces(pad) + wrap_text(color, right, "2"@)
}

fn push_spaces(v: &mut Vec<char>, n: usize)
    ensures
        final(v)@ == old(v)@ + spaces(n as int),
{
    let mut i: usize = 0;
    while i < n
        invariant
            i <= n,
            v@ == old(v)@ + spaces(i as int),
        decreases n - i,
    {
        v.push(' ');
        i += 1;
        assert(v@ =~= old(v)@ + spaces(i as int));
    }
}

pub fn identity_line(canonical: &str, provider: &str, width: usize, style: Style) -> (s: String)
    ensures
        s@ == identity_text(style.colored(), canonical@, provider@, width as int),
{
    let mut r: Vec<char> = Vec::new();
    extend_str(&mut r, "documented by ");
    extend_str(&mut r, provider);
    let right = string_from_chars(&r);
    let used: u128 = (canonical.len() as u128) + (right.as_str().len() as u128);
    let pad: usize = if (width as u128) > used {
        let p = ((width as u128) - used) as usize;
        if p >= 2 {
            p
        } else {
            2
        }
    } else {
        2
    };
    let mut v: Vec<char> = Vec::new();
    extend_str(&mut v, style.bold(canonical).as_str());
    push_spaces(&mut v, pad);
    extend_str(&mut v, style.dim(right.as_str()).as_str());
    string_from_chars(&v)
}

/// A label padded to `w` characters.
pub open spec fn pad_to(s: Seq<char>, w: int) -> Seq<char> {
    s + spaces(w - s.len())
}

/// The fields a value card shows, in order, each labelled.
pub open spec fn card_fields(r: Record) -> Seq<(Seq<char>, Seq<char>)> {
    let a = match r.type_ {
        Some(v) => seq![("Type"@, v@)],
        None => Seq::empty(),
    };
    let b = match r.default {
        Some(v) => a.push(("Default"@, v@)),
        None => a,
    };
    let c = match r.valid {
        Some(v) => b.push(("Valid"@, v@)),
        None => b,
    };
    match r.applies {
        Some(v) => c.push(("Applies"@, v@)),
        None => c,
    }
}

/// The longest label, in bytes.
pub open spec fn label_width(fs: Seq<(Seq<char>, Seq<char>)>) -> int
    decreases fs.len(),
{
    if fs.len() == 0 {
        0
    } else {
        max_int(label_width(fs.drop_last()), byte_len(fs.last().0) as int)
    }
}

pub open spec fn field_lines(color: bool, fs: Seq<(Seq<char>, Seq<char>)>, w: int) -> Seq<char>
    decreases fs.len(),
{
    if fs.len() == 0 {
        Seq::empty()
    } else {
        field_lines(color, fs.drop_last(), w) + "  "@ + wrap_text(color, pad_to(fs.last().0, w), "1"@)
            + "  "@ + fs.last().1 + "\n"@
    }
}

/// The aligned field block of a value card; empty when no field is present.
pub open spec fn field_block_text(color: bool, r: Record) -> Seq<char> {
    field_lines(color, card_fields(r), label_width(card_fields(r)))
}

fn push_field(fs: &mut Vec<(&'static str, String)>, label: &'static str, v: &Option<String>)
    requires
        label@.len() <= 7,
        byte_len(label@) <= 7,
        forall|j: int| 0 <= j < old(fs)@.len() ==> (#[trigger] old(fs)@[j]).0@.len() <= 7 && byte_len(old(fs)@[j].0@) <= 7,
    ensures
        fields_view(final(fs)@) == match *v {
            Some(x) => fields_view(old(fs)@).push((label@, x@)),
            None => fields_view(old(fs)@),
        },
        forall|j: int| 0 <= j < final(fs)@.len() ==> (#[trigger] final(fs)@[j]).0@.len() <= 7 && byte_len(final(fs)@[j].0@) <= 7,
{
    match v {
        Some(x) => {
            let e = (label, x.clone());
            proof {
                assert(fields_view(fs@.push(e)) =~= fields_view(fs@).push((label@, x@)));
            }
            fs.push(e);
        },
        None => {},
    }
}

pub open spec fn fields_view(v: Seq<(&'static str, String)>) -> Seq<(Seq<char>, Seq<char>)> {
    v.map_values(|f: (&'static str, String)| (f.0@, f.1@))
}

proof fn lemma_label_bytes()
    ensures
        byte_len("Type"@) == 4 && "Type"@.len() == 4,
        byte_len("Default"@) == 7 && "Default"@.len() == 7,
        byte_len("Valid"@) == 5 && "Valid"@.len() == 5,
        byte_len("Applies"@) == 7 && "Applies"@.len() == 7,
{
    reveal_strlit("Type");
    reveal_strlit("Default");
    reveal_strlit("Valid");
    reveal_strlit("Applies");
    reveal_with_fuel(vstd::utf8::encode_utf8, 8);
}

pub fn field_block(rec: &Record, style: Style) -> (s: String)
    ensures
        s@ == field_block_text(style.colored(), *rec),
{
    proof {
        lemma_label_bytes();
    }
    let mut fs: Vec<(&'static str, String)> = Vec::new();
    assert(fields_view(fs@) =~= Seq::<(Seq<char>, Seq<char>)>::empty());
    push_field(&mut fs, "Type", &rec.type_);
    push_field(&mut fs, "Default", &rec.default);
    push_field(&mut fs, "Valid", &rec.valid);
    push_field(&mut fs, "Applies", &rec.applies);
    let ghost fv = fields_view(fs@);
    assert(fv =~= card_fields(*rec));
    let mut w: usize = 0;
    let mut i: usize = 0;
    while i < fs.len()
        invariant
            i <= fs@.len(),
            fv == fields_view(fs@),
            w as int == label_width(fv.take(i as int)),
            w <= 7,
            forall|j: int| 0 <= j < fs@.len() ==> (#[trigger] fs@[j]).0@.len() <= 7 && byte_len(fs@[j].0@) <= 7,
        decreases fs@.len() - i,
    {
        assert(fv.take(i + 1).drop_last() =~= fv.take(i as int));
        let n = fs[i].0.len();
        if n > w {
            w = n;
        }
        i += 1;
    }
    assert(fv.take(fs@.len() as int) =~= fv);
    let mut v: Vec<char> = Vec::new();
    let mut k: usize = 0;
    while k < fs.len()
        invariant
            k <= fs@.len(),
            fv == fields_view(fs@),
            w as int == label_width(fv),
            w <= 7,
            forall|j: int| 0 <= j < fs@.len() ==> (#[trigger] fs@[j]).0@.len() <= 7,
            v@ == field_lines(style.colored(), fv.take(k as int), w as int),
        decreases fs@.len() - k,
    {
        assert(fv.take(k + 1).drop_last() =~= fv.take(k as int));
        let mut lab = crate::text::chars_of(fs[k].0);
        let n = lab.len();
        if n < w {
            push_spaces(&mut lab, w - n);
        } else {
            assert(spaces(w - n) =~= Seq::<char>::empty());
            assert(lab@ + spaces(w - n) =~= lab@);
        }
        let padded = string_from_chars(&lab);
        extend_str(&mut v, "  ");
        extend_str(&mut v, style.bold(padded.as_str()).as_str());
        extend_str(&mut v, "  ");
        extend_str(&mut v, fs[k].1.as_str());
        extend_str(&mut v, "\n");
        k += 1;
    }
    assert(fv.take(fs@.len() as int) =~= fv);
    string_from_chars(&v)
}

/// A value card: the deprecation banner when there is one, the identity
/// line, the field block, and the rendered body, one blank line apart.
pub open spec fn card_text(color: bool, r: Record, provider: Seq<char>, width: int) -> Seq<char> {
    let dep = match r.deprecated {
        Some(d) => wrap_text(color, "DEPRECATED: "@ + d@, "1;31"@) + "\n\n"@,
        None => Seq::empty(),
    };
    let block = field_block_text(color, r);
    let body = render_text(color, r.body@, width);
    dep + identity_text(color, r.canonical@, provider, width) + "\n"@ + (if block.len() > 0 {
        "\n"@ + block
    } else {
        Seq::empty()
    }) + (if body.len() > 0 {
        "\n"@ + body + "\n"@
    } else {
        Seq::empty()
    })
}

pub open spec fn body_fits(r: Record) -> bool {
    r.body@.len() + 2 < usize::MAX
}

pub fn value_card(rec: &Record, provider: &str, width: usize, style: Style) -> (s: String)
    requires
        body_fits(*rec),
    ensures
        s@ == card_text(style.colored(), *rec, provider@, width as int),
{
    let ghost color = style.colored();
    let mut v: Vec<char> = Vec::new();
    match &rec.deprecated {
        Some(d) => {
            let mut m: Vec<char> = Vec::new();
            extend_str(&mut m, "DEPRECATED: ");
            extend_str(&mut m, d.as_str());
            let w = style.warn(string_from_chars(&m).as_str());
            extend_str(&mut v, w.as_str());
            extend_str(&mut v, "\n\n");
        },
        None => {},
    }
    let ghost dep = v@;
    assert(dep =~= match rec.deprecated {
        Some(d) => wrap_text(color, "DEPRECATED: "@ + d@, "1;31"@) + "\n\n"@,
        None => Seq::<char>::empty(),
    });
    extend_str(&mut v, identity_line(rec.canonical.as_str(), provider, width, style).as_str());
    extend_str(&mut v, "\n");
    let ghost head = v@;
    let block = field_block(rec, style);
    if !block.as_str().is_empty() {
        extend_str(&mut v, "\n");
        extend_str(&mut v, block.as_str());
    }
    let ghost blk = if block@.len() > 0 { "\n"@ + block@ } else { Seq::<char>::empty() };
    assert(v@ =~= head + blk);
    let ghost mid = v@;
    let body = render(rec.body.as_str(), width, style);
    if !body.as_str().is_empty() {
        extend_str(&mut v, "\n");
        extend_str(&mut v, body.as_str());
        extend_str(&mut v, "\n");
    }
    let ghost bd = if body@.len() > 0 { "\n"@ + body@ + "\n"@ } else { Seq::<char>::empty() };
    assert(v@ =~= mid + bd);
    assert(v@ =~= card_text(color, *rec, provider@, width as int));
    string_from_chars(&v)
}

/// The value cards of `hs`, each preceded by a blank line.
pub open spec fn cards_text(color: bool, hs: Seq<Hit>, width: int) -> Seq<char>
    decreases hs.len(),
{
    if hs.len() == 0 {
        Seq::empty()
    } else {
        cards_text(color, hs.drop_last(), width) + "\n"@ + card_text(
            color,
            hs.last().record,
            hs.last().provider@,
            width,
        )
    }
}

/// The answer to an exact `(path, value)` query: the one card, or a banner
/// counting the providers followed by each provider's card.
pub open spec fn exact_text(color: bool, hs: Seq<Hit>, width: int) -> Seq<char> {
    if hs.len() == 1 {
        card_text(color, hs[0].record, hs[0].provider@, width)
    } else {
        "documented by "@ + decimal(hs.len()) + " packages:\n"@ + cards_text(color, hs, width)
    }
}

/// Every record's body is short enough to render.
pub open spec fn bodies_fit(hs: Seq<Hit>) -> bool {
    forall|i: int| 0 <= i < hs.len() ==> body_fits(#[trigger] hs[i].record)
}

/// Render the result of an exact `(path, value)` query.
pub fn exact(hits: &[Hit], width: usize, style: Style) -> (s: String)
    requires
        bodies_fit(hits@),
    ensures
        s@ == exact_text(style.colored(), hits@, width as int),
{
    let ghost color = style.colored();
    if hits.len() == 1 {
        return value_card(&hits[0].record, hits[0].provider.as_str(), width, style);
    }
    let mut v: Vec<char> = Vec::new();
    extend_str(&mut v, "documented by ");
    extend_chars(&mut v, &u64_decimal(hits.len() as u64));
    extend_str(&mut v, " packages:\n");
    let ghost head = v@;
    let mut i: usize = 0;
    while i < hits.len()
        invariant
            i <= hits@.len(),
            bodies_fit(hits@),
            color == style.colored(),
            v@ == head + cards_text(color, hits@.take(i as int), width as int),
        decreases hits@.len() - i,
    {
        assert(hits@.take(i + 1).drop_last() =~= hits@.take(i as int));
        assert(body_fits(hits@[i as int].record));
        extend_str(&mut v, "\n");
        let card = value_card(&hits[i].record, hits[i].provider.as_str(), width, style);
        extend_str(&mut v, card.as_str());
        i += 1;
    }
    assert(hits@.take(hits@.len() as int) =~= hits@);
    string_from_chars(&v)
}

/// One apropos line: the canonical name in bold and, when the summary is
/// not empty, the summary (markup stripped, cut to the width left) dimmed.
pub open spec fn apropos_line(color: bool, h: Hit, width: int) -> Seq<char> {
    let canon = h.record.canonical@;
    let summary = truncate_text(
        seg_chars(inline_segs(summary_text(h.record.body@))),
        sat_sub(width, canon.len() + 2int),
    );
    if summary.len() == 0 {
        wrap_text(color, canon, "1"@) + "\n"@
    } else {
        wrap_text(color, canon, "1"@) + "  "@ + wrap_text(color, summary, "2"@) + "\n"@
    }
}

pub open spec fn apropos_text(color: bool, hs: Seq<Hit>, width: int) -> Seq<char>
    decreases hs.len(),
{
    if hs.len() == 0 {
        Seq::empty()
    } else {
        apropos_text(color, hs.drop_last(), width) + apropos_line(color, hs.last(), width)
    }
}

fn apropos_one(h: &Hit, width: usize, style: Style) -> (s: String)
    ensures
        s@ == apropos_line(style.colored(), *h, width as int),
{
    let canon = h.record.canonical.as_str();
    let summary = crate::regman::markdown::strip_inline(h.record.summary());
    let n = crate::text::chars_of(canon).len();
    let avail: usize = if (width as u128) > (n as u128) + 2 {
        ((width as u128) - (n as u128) - 2) as usize
    } else {
        0
    };
    let summary = truncate(summary.as_str(), avail);
    let mut v: Vec<char> = Vec::new();
    extend_str(&mut v, style.bold(canon).as_str());
    if summary.as_str().is_empty() {
        extend_str(&mut v, "\n");
    } else {
        extend_str(&mut v, "  ");
        extend_str(&mut v, style.dim(summary.as_str()).as_str());
        extend_str(&mut v, "\n");
    }
    string_from_chars(&v)
}

/// Render apropos results: one line per match, `name  summary`, the summary
/// truncated to fit.
pub fn apropos(hits: &[Hit], width: usize, style: Style) -> (s: String)
    ensures
        s@ == apropos_text(style.colored(), hits@, width as int),
{
    let mut v: Vec<char> = Vec::new();
    let mut i: usize = 0;
    while i < hits.len()
        invariant
            i <= hits@.len(),
            v@ == apropos_text(style.colored(), hits@.take(i as int), width as int),
        decreases hits@.len() - i,
    {
        assert(hits@.take(i + 1).drop_last() =~= hits@.take(i as int));
        extend_str(&mut v, apropos_one(&hits[i], width, style).as_str());
        i += 1;
    }
    assert(hits@.take(hits@.len() as int) =~= hits@);
    string_from_chars(&v)
}

/// The hits whose records are of kind `k`, in order.
pub open spec fn of_kind(hs: Seq<Hit>, k: Kind) -> Seq<Hit>
    decreases hs.len(),
{
    if hs.len() == 0 {
        Seq::empty()
    } else if hs.last().record.spec_kind() == k {
        of_kind(hs.drop_last(), k).push(hs.last())
    } else {
        of_kind(hs.drop_last(), k)
    }
}

/// The canonical key path a key view heads with: that of the first
/// key-level doc, else the path asked about.
pub open spec fn key_canon(hs: Seq<Hit>, query: Seq<char>) -> Seq<char> {
    let kd = of_kind(hs, Kind::Key);
    if kd.len() > 0 {
        kd[0].record.canonical@
    } else {
        query
    }
}

/// The longest of `ns`, in bytes.
pub open spec fn max_bytes(ns: Seq<Seq<char>>) -> int
    decreases ns.len(),
{
    if ns.len() == 0 {
        0
    } else {
        max_int(max_bytes(ns.drop_last()), byte_len(ns.last()) as int)
    }
}

/// The value names that `vd` show under `key`.
pub open spec fn names_of(vd: Seq<Hit>, key: Seq<char>) -> Seq<Seq<char>> {
    vd.map_values(|h: Hit| value_name_text(h.record.canonical@, key))
}

/// One line of the `Values` index: the name padded to `w`, then the
/// summary, markup stripped and cut to `avail` characters.
pub open spec fn value_line(color: bool, h: Hit, key: Seq<char>, w: int, avail: int) -> Seq<char> {
    "  "@ + wrap_text(color, pad_to(value_name_text(h.record.canonical@, key), w), "1"@) + "  "@
        + truncate_text(seg_chars(inline_segs(summary_text(h.record.body@))), avail) + "\n"@
}

pub open spec fn value_lines(color: bool, vd: Seq<Hit>, key: Seq<char>, w: int, avail: int) -> Seq<char>
    decreases vd.len(),
{
    if vd.len() == 0 {
        Seq::empty()
    } else {
        value_lines(color, vd.drop_last(), key, w, avail) + value_line(color, vd.last(), key, w, avail)
    }
}

/// The head of a key-level doc: its identity line, deprecation notice and
/// rendered body.
pub open spec fn doc_head(color: bool, h: Hit, width: int) -> Seq<char> {
    let r = h.record;
    let dep = match r.deprecated {
        Some(d) => "\n"@ + wrap_text(color, "DEPRECATED: "@ + d@, "1;31"@) + "\n"@,
        None => Seq::empty(),
    };
    let body = render_text(color, r.body@, width);
    identity_text(color, r.canonical@, h.provider@, width) + "\n"@ + dep + (if body.len() > 0 {
        "\n"@ + body + "\n"@
    } else {
        Seq::empty()
    })
}

/// The head of a key view: that of the first key doc; or, with no key
/// doc, the key path in bold.
pub open spec fn key_head(color: bool, kd: Seq<Hit>, key: Seq<char>, width: int) -> Seq<char> {
    if kd.len() > 0 {
        doc_head(color, kd[0], width)
    } else {
        wrap_text(color, key, "1"@) + "\n"@
    }
}

/// The `Values` index of the value docs `vd`, named under `key`; empty
/// when there are none.
pub open spec fn values_text(color: bool, vd: Seq<Hit>, key: Seq<char>, width: int) -> Seq<char> {
    let w = max_bytes(names_of(vd, key));
    if vd.len() > 0 {
        "\n"@ + wrap_text(color, "Values"@, "1"@) + "\n"@ + value_lines(
            color,
            vd,
            key,
            w,
            sat_sub(width, w + 4),
        )
    } else {
        Seq::empty()
    }
}

/// A key view: a banner when several packages document the key, the head,
/// then the `Values` index of the value docs.
pub open spec fn key_text(color: bool, hs: Seq<Hit>, query: Seq<char>, width: int) -> Seq<char> {
    let kd = of_kind(hs, Kind::Key);
    let key = key_canon(hs, query);
    let banner = if kd.len() > 1 {
        "documented by "@ + decimal(kd.len()) + " packages:\n\n"@
    } else {
        Seq::empty()
    };
    banner + key_head(color, kd, key, width) + values_text(color, of_kind(hs, Kind::Value), key, width)
}

/// `ix` read as indices into `hs`.
pub open spec fn pick(hs: Seq<Hit>, ix: Seq<usize>) -> Seq<Hit> {
    ix.map_values(|j: usize| hs[j as int])
}

fn kind_indices(hits: &[Hit], k: Kind) -> (ix: Vec<usize>)
    ensures
        forall|j: int| 0 <= j < ix@.len() ==> (#[trigger] ix@[j]) < hits@.len(),
        pick(hits@, ix@) == of_kind(hits@, k),
{
    let mut ix: Vec<usize> = Vec::new();
    let mut i: usize = 0;
    while i < hits.len()
        invariant
            i <= hits@.len(),
            forall|j: int| 0 <= j < ix@.len() ==> (#[trigger] ix@[j]) < hits@.len(),
            pick(hits@, ix@) == of_kind(hits@.take(i as int), k),
        decreases hits@.len() - i,
    {
        assert(hits@.take(i + 1).drop_last() =~= hits@.take(i as int));
        let hk = hits[i].record.kind();
        let same = match (hk, k) {
            (Kind::Key, Kind::Key) => true,
            (Kind::Value, Kind::Value) => true,
            _ => false,
        };
        if same {
            assert(pick(hits@, ix@.push(i)) =~= pick(hits@, ix@).push(hits@[i as int]));
            ix.push(i);
        }
        i += 1;
    }
    assert(hits@.take(hits@.len() as int) =~= hits@);
    ix
}

fn doc_head_exec(h: &Hit, width: usize, style: Style) -> (s: String)
    requires
        body_fits(h.record),
    ensures
        s@ == doc_head(style.colored(), *h, width as int),
{
    let mut v: Vec<char> = Vec::new();
    extend_str(&mut v, identity_line(h.record.canonical.as_str(), h.provider.as_str(), width, style).as_str());
    extend_str(&mut v, "\n");
    match &h.record.deprecated {
        Some(d) => {
            let mut m: Vec<char> = Vec::new();
            extend_str(&mut m, "DEPRECATED: ");
            extend_str(&mut m, d.as_str());
            extend_str(&mut v, "\n");
            extend_str(&mut v, style.warn(string_from_chars(&m).as_str()).as_str());
            extend_str(&mut v, "\n");
        },
        None => {},
    }
    let ghost mid = v@;
    let body = render(h.record.body.as_str(), width, style);
    if !body.as_str().is_empty() {
        extend_str(&mut v, "\n");
        extend_str(&mut v, body.as_str());
        extend_str(&mut v, "\n");
    }
    assert(v@ =~= doc_head(style.colored(), *h, width as int));
    string_from_chars(&v)
}

fn value_line_exec(rec: &Record, key_canonical: &str, w: usize, avail: usize, style: Style) -> (s: String)
    ensures
        s@ == "  "@ + wrap_text(style.colored(), pad_to(value_name_text(rec.canonical@, key_canonical@), w as int), "1"@)
            + "  "@ + truncate_text(seg_chars(inline_segs(summary_text(rec.body@))), avail as int) + "\n"@,
{
    let name = rec.value_name(key_canonical);
    let mut lab = crate::text::chars_of(name);
    let n = lab.len();
    if n < w {
        push_spaces(&mut lab, w - n);
    } else {
        assert(lab@ + spaces(w - n) =~= lab@);
    }
    let summary = truncate(crate::regman::markdown::strip_inline(rec.summary()).as_str(), avail);
    let mut v: Vec<char> = Vec::new();
    extend_str(&mut v, "  ");
    extend_str(&mut v, style.bold(string_from_chars(&lab).as_str()).as_str());
    extend_str(&mut v, "  ");
    extend_str(&mut v, summary.as_str());
    extend_str(&mut v, "\n");
    string_from_chars(&v)
}

fn values_exec(hits: &[Hit], vix: &Vec<usize>, key_canonical: &str, width: usize, style: Style) -> (s: String)
    requires
        forall|j: int| 0 <= j < vix@.len() ==> (#[trigger] vix@[j]) < hits@.len(),
    ensures
        s@ == values_text(style.colored(), pick(hits@, vix@), key_canonical@, width as int),
{
    let ghost color = style.colored();
    let ghost hs = hits@;
    let ghost vd = pick(hs, vix@);
    let ghost key = key_canonical@;
    let mut v: Vec<char> = Vec::new();
    if vix.len() == 0 {
        return string_from_chars(&v);
    }
    extend_str(&mut v, "\n");
    extend_str(&mut v, style.bold("Values").as_str());
    extend_str(&mut v, "\n");
    let ghost names = names_of(vd, key);
    let mut w: usize = 0;
    let mut i: usize = 0;
    while i < vix.len()
        invariant
            i <= vix@.len(),
            vd == pick(hs, vix@),
            hs == hits@,
            forall|j: int| 0 <= j < vix@.len() ==> (#[trigger] vix@[j]) < hs.len(),
            names == names_of(vd, key),
            key == key_canonical@,
            w as int == max_bytes(names.take(i as int)),
        decreases vix@.len() - i,
    {
        assert(names.take(i + 1).drop_last() =~= names.take(i as int));
        let n = hits[vix[i]].record.value_name(key_canonical);
        let nb = n.len();
        if nb > w {
            w = nb;
        }
        i += 1;
    }
    assert(names.take(vix@.len() as int) =~= names);
    let avail: usize = if (width as u128) > (w as u128) + 4 {
        ((width as u128) - (w as u128) - 4) as usize
    } else {
        0
    };
    let ghost pre = v@;
    let mut k: usize = 0;
    while k < vix.len()
        invariant
            k <= vix@.len(),
            vd == pick(hs, vix@),
            hs == hits@,
            forall|j: int| 0 <= j < vix@.len() ==> (#[trigger] vix@[j]) < hs.len(),
            key == key_canonical@,
            color == style.colored(),
            v@ == pre + value_lines(color, vd.take(k as int), key, w as int, avail as int),
        decreases vix@.len() - k,
    {
        assert(vd.take(k + 1).drop_last() =~= vd.take(k as int));
        let line = value_line_exec(&hits[vix[k]].record, key_canonical, w, avail, style);
        extend_str(&mut v, line.as_str());
        k += 1;
    }
    assert(vd.take(vix@.len() as int) =~= vd);
    string_from_chars(&v)
}

/// Render a key-level query: the key body, when documented, and the index
/// of its values. `query_canonical` is the path asked about, which names the
/// values when no key-level doc supplies the canonical key path.
pub fn key(hits: &[Hit], query_canonical: &str, width: usize, style: Style) -> (s: String)
    requires
        bodies_fit(hits@),
    ensures
        s@ == key_text(style.colored(), hits@, query_canonical@, width as int),
{
    let ghost color = style.colored();
    let ghost hs = hits@;
    let kix = kind_indices(hits, Kind::Key);
    let vix = kind_indices(hits, Kind::Value);
    let ghost kd = of_kind(hs, Kind::Key);
    assert(kd.len() == kix@.len());
    let key_canonical: String = if kix.len() > 0 {
        assert(kd[0] == hs[kix@[0] as int]);
        hits[kix[0]].record.canonical.clone()
    } else {
        query_canonical.to_owned()
    };
    assert(key_canonical@ == key_canon(hs, query_canonical@));
    let mut v: Vec<char> = Vec::new();
    if kix.len() > 1 {
        extend_str(&mut v, "documented by ");
        extend_chars(&mut v, &u64_decimal(kix.len() as u64));
        extend_str(&mut v, " packages:\n\n");
    }
    let ghost banner = v@;
    if kix.len() > 0 {
        assert(kd[0] == hs[kix@[0] as int]);
        assert(body_fits(hs[kix@[0] as int].record));
        extend_str(&mut v, doc_head_exec(&hits[kix[0]], width, style).as_str());
    } else {
        extend_str(&mut v, style.bold(key_canonical.as_str()).as_str());
        extend_str(&mut v, "\n");
    }
    assert(v@ =~= banner + key_head(color, kd, key_canonical@, width as int));
    extend_str(&mut v, values_exec(hits, &vix, key_canonical.as_str(), width, style).as_str());
    string_from_chars(&v)
}

} // verus!
