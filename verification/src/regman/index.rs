//! The optional flat-file index. It exists only to skip the global scan and
//! is never needed for a right answer: it maps a folded anchor to the
//! `(fragment file, byte offset)` locations that define it.
//!
//! Layout, little-endian throughout:
//!
//!   header (40 bytes)
//!     0  magic     [u8;8] = "REGMANIX"
//!     8  version   u32    = 1
//!     12 entries   u32      number of descriptors (distinct anchors, sorted)
//!     16 desc_off  u32      byte offset of the descriptor array
//!     20 locs_off  u32      byte offset of the locations array
//!     24 files_off u32      byte offset of the file table
//!     28 anch_off  u32      byte offset of the anchor blob
//!     32 files     u32      number of provider files
//!     36 reserved  u32
//!   descriptors  entries × 16: anchor_off u32, anchor_len u32, loc_idx u32, loc_n u32
//!   locations    Σ loc_n × 12: file_idx u32, rec_offset u64
//!   file table   files × (len u32 + path bytes)
//!   anchor blob  concatenated anchor bytes (descriptors point in absolutely)
use crate::bytes::{read_u32_le, read_u64_le};
use crate::reg::addr::{lossy, lossy_text};
use crate::regman::fragment::{parse, parse_text, record_texts, RecordText};
use crate::regman::query::Location;
use crate::regman::scan::{all_fit, bytes_less, bytes_lt, bytes_same, enc, fits, FragmentFile};
use vstd::prelude::*;

verus! {

pub const VERSION: u32 = 1;

pub const HEADER_LEN: usize = 40;

pub const DESC_LEN: usize = 16;

pub const LOC_LEN: usize = 12;

/// The magic bytes an index starts with: `REGMANIX`.
pub open spec fn magic() -> Seq<u8> {
    seq![0x52u8, 0x45u8, 0x47u8, 0x4Du8, 0x41u8, 0x4Eu8, 0x49u8, 0x58u8]
}

pub open spec fn le32(x: u32) -> Seq<u8> {
    vstd::bytes::spec_u32_to_le_bytes(x)
}

pub open spec fn le64(x: u64) -> Seq<u8> {
    vstd::bytes::spec_u64_to_le_bytes(x)
}

/// One anchor and its locations, as `(file index, record offset)` pairs.
pub struct Entry {
    pub anchor: String,
    pub locs: Vec<(u32, u64)>,
}

pub open spec fn entry_view(e: Entry) -> (Seq<u8>, Seq<(u32, u64)>) {
    (enc(e.anchor@), e.locs@)
}

pub open spec fn entries_view(es: Seq<Entry>) -> Seq<(Seq<u8>, Seq<(u32, u64)>)> {
    es.map_values(|e: Entry| entry_view(e))
}

pub open spec fn paths_view(fs: Seq<String>) -> Seq<Seq<u8>> {
    fs.map_values(|f: String| enc(f@))
}

/// Total anchor bytes.
pub open spec fn anchors_len(es: Seq<(Seq<u8>, Seq<(u32, u64)>)>) -> nat
    decreases es.len(),
{
    if es.len() == 0 {
        0
    } else {
        anchors_len(es.drop_last()) + es.last().0.len()
    }
}

/// Total locations.
pub open spec fn locs_total(es: Seq<(Seq<u8>, Seq<(u32, u64)>)>) -> nat
    decreases es.len(),
{
    if es.len() == 0 {
        0
    } else {
        locs_total(es.drop_last()) + es.last().1.len()
    }
}

/// Length of the file table.
pub open spec fn table_len(fs: Seq<Seq<u8>>) -> nat
    decreases fs.len(),
{
    if fs.len() == 0 {
        0
    } else {
        table_len(fs.drop_last()) + 4 + fs.last().len()
    }
}

pub open spec fn desc_bytes(es: Seq<(Seq<u8>, Seq<(u32, u64)>)>, anch_off: nat) -> Seq<u8>
    decreases es.len(),
{
    if es.len() == 0 {
        Seq::empty()
    } else {
        let p = es.drop_last();
        desc_bytes(p, anch_off) + le32((anch_off + anchors_len(p)) as u32) + le32(es.last().0.len() as u32)
            + le32(locs_total(p) as u32) + le32(es.last().1.len() as u32)
    }
}

pub open spec fn locs_bytes(ls: Seq<(u32, u64)>) -> Seq<u8>
    decreases ls.len(),
{
    if ls.len() == 0 {
        Seq::empty()
    } else {
        locs_bytes(ls.drop_last()) + le32(ls.last().0) + le64(ls.last().1)
    }
}

pub open spec fn all_locs_bytes(es: Seq<(Seq<u8>, Seq<(u32, u64)>)>) -> Seq<u8>
    decreases es.len(),
{
    if es.len() == 0 {
        Seq::empty()
    } else {
        all_locs_bytes(es.drop_last()) + locs_bytes(es.last().1)
    }
}

pub open spec fn table_bytes(fs: Seq<Seq<u8>>) -> Seq<u8>
    decreases fs.len(),
{
    if fs.len() == 0 {
        Seq::empty()
    } else {
        table_bytes(fs.drop_last()) + le32(fs.last().len() as u32) + fs.last()
    }
}

pub open spec fn blob_bytes(es: Seq<(Seq<u8>, Seq<(u32, u64)>)>) -> Seq<u8>
    decreases es.len(),
{
    if es.len() == 0 {
        Seq::empty()
    } else {
        blob_bytes(es.drop_last()) + es.last().0
    }
}

/// The bytes of an index of the entries `es` (sorted by anchor) and the
/// file table `fs`.
pub open spec fn index_bytes(es: Seq<(Seq<u8>, Seq<(u32, u64)>)>, fs: Seq<Seq<u8>>) -> Seq<u8> {
    let locs_off = 40 + 16 * es.len();
    let files_off = locs_off + 12 * locs_total(es);
    let anch_off = files_off + table_len(fs);
    magic() + le32(1) + le32(es.len() as u32) + le32(40) + le32(locs_off as u32) + le32(files_off as u32)
        + le32(anch_off as u32) + le32(fs.len() as u32) + le32(0) + desc_bytes(es, anch_off)
        + all_locs_bytes(es) + table_bytes(fs) + blob_bytes(es)
}

/// The size of that index.
pub open spec fn index_len(es: Seq<(Seq<u8>, Seq<(u32, u64)>)>, fs: Seq<Seq<u8>>) -> nat {
    40 + 16 * es.len() + 12 * locs_total(es) + table_len(fs) + anchors_len(es)
}

pub(crate) proof fn lemma_sums_grow(es: Seq<(Seq<u8>, Seq<(u32, u64)>)>, i: int)
    requires
        0 <= i <= es.len(),
    ensures
        anchors_len(es.take(i)) <= anchors_len(es),
        locs_total(es.take(i)) <= locs_total(es),
    decreases es.len() - i,
{
    if i < es.len() {
        lemma_sums_grow(es, i + 1);
        assert(es.take(i + 1).drop_last() =~= es.take(i));
    } else {
        assert(es.take(i) =~= es);
    }
}

pub(crate) proof fn lemma_table_grows(fs: Seq<Seq<u8>>, i: int)
    requires
        0 <= i <= fs.len(),
    ensures
        table_len(fs.take(i)) <= table_len(fs),
    decreases fs.len() - i,
{
    if i < fs.len() {
        lemma_table_grows(fs, i + 1);
        assert(fs.take(i + 1).drop_last() =~= fs.take(i));
    } else {
        assert(fs.take(i) =~= fs);
    }
}

fn push32(v: &mut Vec<u8>, x: u32)
    ensures
        final(v)@ == old(v)@ + le32(x),
{
    let b = vstd::bytes::u32_to_le_bytes(x);
    let mut i: usize = 0;
    let ghost start = v@;
    while i < b.len()
        invariant
            i <= b@.len(),
            b@ == le32(x),
            v@ == start + b@.take(i as int),
        decreases b@.len() - i,
    {
        v.push(b[i]);
        i += 1;
        assert(v@ =~= start + b@.take(i as int));
    }
    assert(b@.take(b@.len() as int) =~= b@);
}

fn push64(v: &mut Vec<u8>, x: u64)
    ensures
        final(v)@ == old(v)@ + le64(x),
{
    let b = vstd::bytes::u64_to_le_bytes(x);
    let mut i: usize = 0;
    let ghost start = v@;
    while i < b.len()
        invariant
            i <= b@.len(),
            b@ == le64(x),
            v@ == start + b@.take(i as int),
        decreases b@.len() - i,
    {
        v.push(b[i]);
        i += 1;
        assert(v@ =~= start + b@.take(i as int));
    }
    assert(b@.take(b@.len() as int) =~= b@);
}

fn push_bytes(v: &mut Vec<u8>, b: &[u8])
    ensures
        final(v)@ == old(v)@ + b@,
{
    let mut i: usize = 0;
    let ghost start = v@;
    while i < b.len()
        invariant
            i <= b@.len(),
            v@ == start + b@.take(i as int),
        decreases b@.len() - i,
    {
        v.push(b[i]);
        i += 1;
        assert(v@ =~= start + b@.take(i as int));
    }
    assert(b@.take(b@.len() as int) =~= b@);
}

/// Serialise the entries (sorted by anchor) and the file table.
pub fn serialize(entries: &[Entry], files: &[String]) -> (out: Vec<u8>)
    requires
        index_len(entries_view(entries@), paths_view(files@)) <= usize::MAX,
        locs_total(entries_view(entries@)) <= u32::MAX,
    ensures
        out@ == index_bytes(entries_view(entries@), paths_view(files@)),
{
    let ghost es = entries_view(entries@);
    let ghost fs = paths_view(files@);
    let mut loc_count: usize = 0;
    let mut anchors_total: usize = 0;
    let mut i: usize = 0;
    while i < entries.len()
        invariant
            i <= entries@.len(),
            es == entries_view(entries@),
            index_len(es, fs) <= usize::MAX,
            loc_count as nat == locs_total(es.take(i as int)),
            anchors_total as nat == anchors_len(es.take(i as int)),
        decreases entries@.len() - i,
    {
        assert(es.take(i + 1).drop_last() =~= es.take(i as int));
        proof {
            lemma_sums_grow(es, i + 1);
        }
        loc_count = loc_count + entries[i].locs.len();
        anchors_total = anchors_total + entries[i].anchor.as_str().len();
        i += 1;
    }
    assert(es.take(entries@.len() as int) =~= es);
    let mut files_len: usize = 0;
    let mut k: usize = 0;
    while k < files.len()
        invariant
            k <= files@.len(),
            fs == paths_view(files@),
            index_len(es, fs) <= usize::MAX,
            files_len as nat == table_len(fs.take(k as int)),
        decreases files@.len() - k,
    {
        assert(fs.take(k + 1).drop_last() =~= fs.take(k as int));
        proof {
            lemma_table_grows(fs, k + 1);
        }
        files_len = files_len + 4 + files[k].as_str().len();
        k += 1;
    }
    assert(fs.take(files@.len() as int) =~= fs);
    let desc_off: usize = 40;
    let locs_off: usize = desc_off + entries.len() * 16;
    let files_off: usize = locs_off + loc_count * 12;
    let anch_off: usize = files_off + files_len;
    let mut descriptors: Vec<u8> = Vec::new();
    let mut locations: Vec<u8> = Vec::new();
    let mut anchors: Vec<u8> = Vec::new();
    let mut loc_idx: u32 = 0;
    let mut e: usize = 0;
    while e < entries.len()
        invariant
            e <= entries@.len(),
            es == entries_view(entries@),
            index_len(es, fs) <= usize::MAX,
            locs_total(es) <= u32::MAX,
            anch_off as nat == 40 + 16 * es.len() + 12 * locs_total(es) + table_len(fs),
            descriptors@ == desc_bytes(es.take(e as int), anch_off as nat),
            locations@ == all_locs_bytes(es.take(e as int)),
            anchors@ == blob_bytes(es.take(e as int)),
            anchors@.len() == anchors_len(es.take(e as int)),
            loc_idx as nat == locs_total(es.take(e as int)),
        decreases entries@.len() - e,
    {
        let ghost p = es.take(e as int);
        assert(es.take(e + 1).drop_last() =~= p);
        proof {
            lemma_sums_grow(es, e + 1);
        }
        let anchor = entries[e].anchor.as_str().as_bytes();
        let locs = &entries[e].locs;
        let a_off = (anch_off + anchors.len()) as u32;
        let a_len = anchor.len() as u32;
        push_bytes(&mut anchors, anchor);
        push32(&mut descriptors, a_off);
        push32(&mut descriptors, a_len);
        push32(&mut descriptors, loc_idx);
        push32(&mut descriptors, locs.len() as u32);
        let ghost before = locations@;
        let mut j: usize = 0;
        while j < locs.len()
            invariant
                j <= locs@.len(),
                loc_idx as nat == locs_total(p) + j,
                locs_total(p) + locs@.len() <= u32::MAX,
                locations@ == before + locs_bytes(locs@.take(j as int)),
            decreases locs@.len() - j,
        {
            assert(locs@.take(j + 1).drop_last() =~= locs@.take(j as int));
            let (file_idx, offset) = locs[j];
            push32(&mut locations, file_idx);
            push64(&mut locations, offset);
            loc_idx = loc_idx + 1;
            j += 1;
        }
        assert(locs@.take(locs@.len() as int) =~= locs@);
        e += 1;
    }
    assert(es.take(entries@.len() as int) =~= es);
    let mut table: Vec<u8> = Vec::new();
    let mut f: usize = 0;
    while f < files.len()
        invariant
            f <= files@.len(),
            fs == paths_view(files@),
            table@ == table_bytes(fs.take(f as int)),
        decreases files@.len() - f,
    {
        assert(fs.take(f + 1).drop_last() =~= fs.take(f as int));
        let b = files[f].as_str().as_bytes();
        push32(&mut table, b.len() as u32);
        push_bytes(&mut table, b);
        f += 1;
    }
    assert(fs.take(files@.len() as int) =~= fs);
    let mut out: Vec<u8> = Vec::new();
    push_bytes(&mut out, &[0x52u8, 0x45u8, 0x47u8, 0x4Du8, 0x41u8, 0x4Eu8, 0x49u8, 0x58u8]);
    push32(&mut out, VERSION);
    push32(&mut out, entries.len() as u32);
    push32(&mut out, desc_off as u32);
    push32(&mut out, locs_off as u32);
    push32(&mut out, files_off as u32);
    push32(&mut out, anch_off as u32);
    push32(&mut out, files.len() as u32);
    push32(&mut out, 0);
    push_bytes(&mut out, &descriptors);
    push_bytes(&mut out, &locations);
    push_bytes(&mut out, &table);
    push_bytes(&mut out, &anchors);
    out
}

/// `(a, l)` recorded in the anchor-sorted entries `es`: appended to `a`'s
/// locations, or `a` added in its place.
pub open spec fn insert_loc(es: Seq<(Seq<u8>, Seq<(u32, u64)>)>, a: Seq<u8>, l: (u32, u64)) -> Seq<(Seq<u8>, Seq<(u32, u64)>)>
    decreases es.len(),
{
    if es.len() == 0 {
        seq![(a, seq![l])]
    } else if bytes_lt(a, es.last().0) {
        insert_loc(es.drop_last(), a, l).push(es.last())
    } else if a == es.last().0 {
        es.drop_last().push((a, es.last().1.push(l)))
    } else {
        es.push((a, seq![l]))
    }
}

/// Every record of `rs` recorded, in order, as found in file `idx`.
pub open spec fn add_records(es: Seq<(Seq<u8>, Seq<(u32, u64)>)>, rs: Seq<RecordText>, idx: u32) -> Seq<(Seq<u8>, Seq<(u32, u64)>)>
    decreases rs.len(),
{
    if rs.len() == 0 {
        es
    } else {
        insert_loc(add_records(es, rs.drop_last(), idx), enc(rs.last().anchor), (idx, rs.last().fence_offset as u64))
    }
}

/// The first position of `p` in `t`.
pub open spec fn position(t: Seq<Seq<char>>, p: Seq<char>) -> Option<int>
    decreases t.len(),
{
    if t.len() == 0 {
        None
    } else {
        match position(t.drop_last(), p) {
            Some(i) => Some(i),
            None => if t.last() == p {
                Some(t.len() - 1)
            } else {
                None
            },
        }
    }
}

/// The entries and file table of an index over the fragments `fs`, read in
/// order: each file takes the next table slot unless already listed, and
/// each of its records is recorded under its anchor.
pub open spec fn index_of_files(fs: Seq<FragmentFile>) -> (Seq<(Seq<u8>, Seq<(u32, u64)>)>, Seq<Seq<char>>)
    decreases fs.len(),
{
    if fs.len() == 0 {
        (Seq::empty(), Seq::empty())
    } else {
        let (es, t) = index_of_files(fs.drop_last());
        let f = fs.last();
        let (t2, idx) = match position(t, f.path@) {
            Some(i) => (t, i),
            None => (t.push(f.path@), t.len() as int),
        };
        (add_records(es, parse_text(enc(f.text@)).0, idx as u32), t2)
    }
}

proof fn lemma_insert_loc_at(es: Seq<(Seq<u8>, Seq<(u32, u64)>)>, a: Seq<u8>, l: (u32, u64), p: int)
    requires
        0 <= p <= es.len(),
        forall|k: int| p <= k < es.len() ==> bytes_lt(a, #[trigger] es[k].0),
        p == 0 || !bytes_lt(a, es[p - 1].0),
    ensures
        p > 0 && a == es[p - 1].0 ==> insert_loc(es, a, l) == es.update(p - 1, (a, es[p - 1].1.push(l))),
        !(p > 0 && a == es[p - 1].0) ==> insert_loc(es, a, l) == es.take(p).push((a, seq![l])) + es.skip(p),
    decreases es.len(),
{
    if es.len() == 0 {
        assert(es.take(p).push((a, seq![l])) + es.skip(p) =~= seq![(a, seq![l])]);
    } else if p == es.len() {
        assert(es.take(p) =~= es);
        assert(es.take(p).push((a, seq![l])) + es.skip(p) =~= es.push((a, seq![l])));
        assert(es.drop_last().push((a, es.last().1.push(l))) =~= es.update(p - 1, (a, es[p - 1].1.push(l))));
    } else {
        let t = es.drop_last();
        assert forall|k: int| p <= k < t.len() implies bytes_lt(a, #[trigger] t[k].0) by {
            assert(t[k] == es[k]);
        }
        lemma_insert_loc_at(t, a, l, p);
        assert(t.take(p) =~= es.take(p));
        assert((t.take(p).push((a, seq![l])) + t.skip(p)).push(es.last()) =~= es.take(p).push((a, seq![l])) + es.skip(p));
        if p > 0 {
            assert(t.update(p - 1, (a, t[p - 1].1.push(l))).push(es.last()) =~= es.update(p - 1, (a, es[p - 1].1.push(l))));
        }
    }
}

fn record_loc(entries: &mut Vec<Entry>, anchor: &String, l: (u32, u64))
    ensures
        entries_view(final(entries)@) == insert_loc(entries_view(old(entries)@), enc(anchor@), l),
{
    let ghost es = entries_view(entries@);
    let a = anchor.as_str().as_bytes();
    let mut p: usize = entries.len();
    while p > 0 && bytes_less(a, entries[p - 1].anchor.as_str().as_bytes())
        invariant
            p <= entries@.len(),
            es == entries_view(entries@),
            a@ == enc(anchor@),
            forall|k: int| p <= k < es.len() ==> bytes_lt(a@, #[trigger] es[k].0),
        decreases p,
    {
        p -= 1;
    }
    proof {
        lemma_insert_loc_at(es, a@, l, p as int);
    }
    if p > 0 && bytes_same(a, entries[p - 1].anchor.as_str().as_bytes()) {
        let mut e = entries.remove(p - 1);
        e.locs.push(l);
        entries.insert(p - 1, e);
        assert(entries_view(entries@) =~= es.update(p - 1, (a@, es[p - 1].1.push(l))));
    } else {
        let mut locs: Vec<(u32, u64)> = Vec::new();
        locs.push(l);
        let e = Entry { anchor: anchor.clone(), locs };
        entries.insert(p, e);
        assert(entries_view(entries@) =~= es.take(p as int).push((a@, seq![l])) + es.skip(p as int));
    }
}

pub open spec fn table_view(t: Seq<String>) -> Seq<Seq<char>> {
    t.map_values(|s: String| s@)
}

/// The entries and file table of the index over the fragments `files`.
pub fn collect(files: &[FragmentFile]) -> (r: (Vec<Entry>, Vec<String>))
    requires
        all_fit(files@),
    ensures
        (entries_view(r.0@), table_view(r.1@)) == index_of_files(files@),
{
    let mut entries: Vec<Entry> = Vec::new();
    let mut table: Vec<String> = Vec::new();
    let mut i: usize = 0;
    while i < files.len()
        invariant
            i <= files@.len(),
            all_fit(files@),
            (entries_view(entries@), table_view(table@)) == index_of_files(files@.take(i as int)),
        decreases files@.len() - i,
    {
        assert(files@.take(i + 1).drop_last() =~= files@.take(i as int));
        let f = &files[i];
        assert(fits(files@[i as int]));
        let ghost t = table_view(table@);
        let mut j: usize = 0;
        while j < table.len() && !bytes_same(table[j].as_str().as_bytes(), f.path.as_str().as_bytes())
            invariant
                j <= table@.len(),
                t == table_view(table@),
                position(t.take(j as int), f.path@) is None,
            decreases table@.len() - j,
        {
            assert(t.take(j + 1).drop_last() =~= t.take(j as int));
            proof {
                if t[j as int] == f.path@ {
                    vstd::utf8::encode_utf8_decode_utf8(t[j as int]);
                    vstd::utf8::encode_utf8_decode_utf8(f.path@);
                }
            }
            j += 1;
        }
        proof {
            lemma_position(t, f.path@, j as int);
        }
        let idx: usize = if j < table.len() {
            j
        } else {
            table.push(f.path.clone());
            assert(table_view(table@) =~= t.push(f.path@));
            j
        };
        let (records, _) = parse(f.text.as_str());
        let ghost rs = record_texts(records@);
        let ghost base = entries_view(entries@);
        let mut k: usize = 0;
        while k < records.len()
            invariant
                k <= records@.len(),
                rs == record_texts(records@),
                entries_view(entries@) == add_records(base, rs.take(k as int), idx as u32),
            decreases records@.len() - k,
        {
            assert(rs.take(k + 1).drop_last() =~= rs.take(k as int));
            let r = &records[k];
            record_loc(&mut entries, &r.anchor, (idx as u32, r.fence_offset as u64));
            k += 1;
        }
        assert(rs.take(records@.len() as int) =~= rs);
        i += 1;
    }
    assert(files@.take(files@.len() as int) =~= files@);
    (entries, table)
}

proof fn lemma_position(t: Seq<Seq<char>>, p: Seq<char>, j: int)
    requires
        0 <= j <= t.len(),
        position(t.take(j), p) is None,
        j < t.len() ==> enc(t[j]) == enc(p),
    ensures
        j < t.len() ==> position(t, p) == Some(j),
        j == t.len() ==> position(t, p) is None,
    decreases t.len(),
{
    if j == t.len() {
        assert(t.take(j) =~= t);
    } else {
        vstd::utf8::encode_utf8_decode_utf8(t[j]);
        vstd::utf8::encode_utf8_decode_utf8(p);
        if j == t.len() - 1 {
            assert(t.drop_last() =~= t.take(j));
        } else {
            assert(t.drop_last().take(j) =~= t.take(j));
            lemma_position(t.drop_last(), p, j);
        }
    }
}

pub open spec fn u32_at(b: Seq<u8>, at: int) -> u32 {
    vstd::bytes::spec_u32_from_le_bytes(b.subrange(at, at + 4))
}

pub open spec fn u64_at(b: Seq<u8>, at: int) -> u64 {
    vstd::bytes::spec_u64_from_le_bytes(b.subrange(at, at + 8))
}

/// Does the text start like an index of this version?
pub open spec fn header_ok(b: Seq<u8>) -> bool {
    b.len() >= 40 && b.take(8) == magic() && u32_at(b, 8) == 1
}

/// The `n` file-table paths starting at `at`, each read lossily, or `None`
/// when the table runs past the end.
pub open spec fn files_from(b: Seq<u8>, at: nat, n: nat) -> Option<Seq<Seq<char>>>
    decreases n,
{
    if n == 0 {
        Some(Seq::empty())
    } else if at + 4 > b.len() {
        None
    } else {
        let len = u32_at(b, at as int);
        if at + 4 + len > b.len() {
            None
        } else {
            match files_from(b, (at + 4 + len) as nat, (n - 1) as nat) {
                Some(rest) => Some(seq![lossy(b.subrange(at + 4int, at + 4 + len))] + rest),
                None => None,
            }
        }
    }
}

/// A loaded index: its bytes and its file table.
pub struct Index {
    bytes: Vec<u8>,
    files: Vec<String>,
    entries: usize,
    desc_off: usize,
    locs_off: usize,
}

/// `std::str::from_utf8`: the text the bytes encode, when they are valid
/// UTF-8.
#[verifier::external_body]
fn utf8_str(b: &[u8]) -> (r: Option<String>)
    ensures
        r is Some == vstd::utf8::valid_utf8(b@),
        r matches Some(s) ==> s@ == vstd::utf8::decode_utf8(b@),
{
    match std::str::from_utf8(b) {
        Ok(s) => Some(s.to_string()),
        Err(_) => None,
    }
}

/// Load an index from its bytes. A malformed index gives `None`, and the
/// caller falls back to a global scan.
pub fn load(bytes: Vec<u8>) -> (r: Option<Index>)
    ensures
        match r {
            Some(ix) => header_ok(bytes@) && files_from(
                bytes@,
                u32_at(bytes@, 24) as nat,
                u32_at(bytes@, 32) as nat,
            ) == Some(ix.file_names()) && ix.data() == bytes@ && ix.entry_count() == u32_at(bytes@, 12)
                && ix.desc_start() == u32_at(bytes@, 16) && ix.locs_start() == u32_at(bytes@, 20),
            None => !header_ok(bytes@) || files_from(
                bytes@,
                u32_at(bytes@, 24) as nat,
                u32_at(bytes@, 32) as nat,
            ) is None,
        },
{
    if bytes.len() < 40 {
        return None;
    }
    let mut m: usize = 0;
    while m < 8
        invariant
            m <= 8,
            bytes@.len() >= 40,
            forall|q: int| 0 <= q < m ==> bytes@[q] == magic()[q],
        decreases 8 - m,
    {
        let want: u8 = match m {
            0 => 0x52,
            1 => 0x45,
            2 => 0x47,
            3 => 0x4D,
            4 => 0x41,
            5 => 0x4E,
            6 => 0x49,
            _ => 0x58,
        };
        if bytes[m] != want {
            assert(bytes@.take(8)[m as int] != magic()[m as int]);
            return None;
        }
        m += 1;
    }
    assert(bytes@.take(8) =~= magic());
    if read_u32_le(&bytes, 8) != VERSION {
        return None;
    }
    let entries = read_u32_le(&bytes, 12) as usize;
    let desc_off = read_u32_le(&bytes, 16) as usize;
    let locs_off = read_u32_le(&bytes, 20) as usize;
    let files_off = read_u32_le(&bytes, 24);
    let file_count = read_u32_le(&bytes, 32);
    let ghost b = bytes@;
    let ghost total = files_from(b, files_off as nat, file_count as nat);
    let mut files: Vec<String> = Vec::new();
    let blen = bytes.len();
    let mut at: u128 = files_off as u128;
    let mut k: u32 = 0;
    while k < file_count
        invariant
            k <= file_count,
            b == bytes@,
            blen == bytes@.len(),
            files_off == u32_at(bytes@, 24),
            file_count == u32_at(bytes@, 32),
            total == files_from(b, files_off as nat, file_count as nat),
            at <= u32::MAX as u128 || at <= blen as u128,
            match files_from(b, at as nat, (file_count - k) as nat) {
                Some(rest) => total == Some(table_names(files@) + rest),
                None => total is None,
            },
        decreases file_count - k,
    {
        if at + 4 > blen as u128 {
            assert(files_from(b, at as nat, (file_count - k) as nat) is None);
            assert(total is None);
            assert(files_from(bytes@, u32_at(bytes@, 24) as nat, u32_at(bytes@, 32) as nat) is None);
            return None;
        }
        let len = read_u32_le(&bytes, at as usize) as u128;
        if at + 4 + len > blen as u128 {
            assert(files_from(b, at as nat, (file_count - k) as nat) is None);
            assert(total is None);
            assert(files_from(bytes@, u32_at(bytes@, 24) as nat, u32_at(bytes@, 32) as nat) is None);
            return None;
        }
        let lo = (at + 4) as usize;
        let hi = (at + 4 + len) as usize;
        let name = lossy_text(&bytes[lo..hi]);
        assert(bytes@.subrange(lo as int, hi as int) == b.subrange(at + 4, at + 4 + len));
        let ghost rest_after = files_from(b, (at + 4 + len) as nat, (file_count - k - 1) as nat);
        proof {
            if let Some(r) = rest_after {
                assert(table_names(files@.push(name)) + r =~= table_names(files@) + (seq![name@] + r));
            }
        }
        files.push(name);
        at = at + 4 + len;
        k += 1;
    }
    assert(table_names(files@) + Seq::<Seq<char>>::empty() =~= table_names(files@));
    Some(Index { bytes, files, entries, desc_off, locs_off })
}

pub open spec fn table_names(v: Seq<String>) -> Seq<Seq<char>> {
    v.map_values(|s: String| s@)
}

impl Index {
    pub closed spec fn data(&self) -> Seq<u8> {
        self.bytes@
    }

    pub closed spec fn file_names(&self) -> Seq<Seq<char>> {
        table_names(self.files@)
    }

    pub closed spec fn entry_count(&self) -> nat {
        self.entries as nat
    }

    pub closed spec fn desc_start(&self) -> nat {
        self.desc_off as nat
    }

    pub closed spec fn locs_start(&self) -> nat {
        self.locs_off as nat
    }

    /// The four fields of descriptor `i`.
    pub open spec fn desc_at(&self, i: int) -> (u32, u32, u32, u32) {
        let base = self.desc_start() + 16 * i;
        (
            u32_at(self.data(), base),
            u32_at(self.data(), base + 4),
            u32_at(self.data(), base + 8),
            u32_at(self.data(), base + 12),
        )
    }

    /// The anchor bytes of descriptor `i`.
    pub open spec fn anchor_at(&self, i: int) -> Seq<u8> {
        let (off, len, _, _) = self.desc_at(i);
        self.data().subrange(off as int, off + len)
    }

    /// Descriptor `i`, the anchor it points at and the locations it counts
    /// lie inside the index.
    pub open spec fn desc_ok(&self, i: int) -> bool {
        let d = self.desc_at(i);
        &&& self.desc_start() + 16 * i + 16 <= self.data().len()
        &&& d.0 + d.1 <= self.data().len()
        &&& self.locs_start() + 12 * (d.2 + d.3) <= self.data().len()
    }

    /// Every descriptor is in bounds.
    pub open spec fn sound(&self) -> bool {
        forall|i: int| 0 <= i < self.entry_count() ==> #[trigger] self.desc_ok(i)
    }

    /// The anchors are strictly increasing.
    pub open spec fn sorted(&self) -> bool {
        forall|i: int, j: int|
            0 <= i < j < self.entry_count() ==> bytes_lt(#[trigger] self.anchor_at(i), #[trigger] self.anchor_at(j))
    }

    /// The locations `idx .. idx + n`, each naming a file of the table;
    /// those that name none are skipped.
    pub open spec fn loc_list(&self, idx: nat, n: nat) -> Seq<(Seq<char>, u64)>
        decreases n,
    {
        if n == 0 {
            Seq::empty()
        } else {
            let base = self.locs_start() + 12 * (idx + n - 1);
            let f = u32_at(self.data(), base);
            let prev = self.loc_list(idx, (n - 1) as nat);
            if f < self.file_names().len() {
                prev.push((self.file_names()[f as int], u64_at(self.data(), base + 4)))
            } else {
                prev
            }
        }
    }

    /// Check that the index is sound.
    pub fn is_sound(&self) -> (b: bool)
        ensures
            b == self.sound(),
    {
        let len = self.bytes.len() as u128;
        let mut i: usize = 0;
        while i < self.entries
            invariant
                i <= self.entries,
                len == self.data().len(),
                forall|q: int| 0 <= q < i ==> #[trigger] self.desc_ok(q),
            decreases self.entries - i,
        {
            let base = self.desc_off as u128 + 16 * (i as u128);
            if base + 16 > len {
                assert(!self.desc_ok(i as int));
                return false;
            }
            let (off, l, idx, n) = self.desc(i);
            if off as u128 + l as u128 > len || self.locs_off as u128 + 12 * (idx as u128 + n as u128) > len {
                assert(!self.desc_ok(i as int));
                return false;
            }
            i += 1;
        }
        true
    }

    fn desc(&self, i: usize) -> (d: (u32, u32, u32, u32))
        requires
            self.desc_start() + 16 * i + 16 <= self.data().len(),
        ensures
            d == self.desc_at(i as int),
    {
        let blen = self.bytes.len();
        let base = self.desc_off + i * 16;
        (
            read_u32_le(&self.bytes, base),
            read_u32_le(&self.bytes, base + 4),
            read_u32_le(&self.bytes, base + 8),
            read_u32_le(&self.bytes, base + 12),
        )
    }

    fn anchor(&self, i: usize) -> (a: &[u8])
        requires
            self.sound(),
            i < self.entry_count(),
        ensures
            a@ == self.anchor_at(i as int),
    {
        let blen = self.bytes.len();
        assert(self.desc_ok(i as int));
        let (off, len, _, _) = self.desc(i);
        &self.bytes.as_slice()[off as usize..(off as usize + len as usize)]
    }

    fn locations(&self, loc_idx: u32, loc_n: u32) -> (out: Vec<Location>)
        requires
            self.locs_start() + 12 * (loc_idx + loc_n) <= self.data().len(),
        ensures
            locations_view(out@) == self.loc_list(loc_idx as nat, loc_n as nat),
    {
        let mut out: Vec<Location> = Vec::new();
        let blen = self.bytes.len();
        let mut k: u32 = 0;
        while k < loc_n
            invariant
                k <= loc_n,
                blen == self.data().len(),
                self.locs_start() + 12 * (loc_idx + loc_n) <= self.data().len(),
                locations_view(out@) == self.loc_list(loc_idx as nat, k as nat),
            decreases loc_n - k,
        {
            let base = self.locs_off + (loc_idx as usize + k as usize) * 12;
            let file_idx = read_u32_le(&self.bytes, base) as usize;
            let offset = read_u64_le(&self.bytes, base + 4);
            if file_idx < self.files.len() {
                let l = Location { file: self.files[file_idx].clone(), offset };
                assert(locations_view(out@.push(l)) =~= locations_view(out@).push((l.file@, offset)));
                out.push(l);
            }
            k += 1;
        }
        out
    }
}

impl Index {
    /// The first descriptor at or after `i` whose anchor is not below `t`.
    pub open spec fn first_not_below(&self, t: Seq<u8>, i: int) -> int
        decreases self.entry_count() - i,
    {
        if i >= self.entry_count() {
            self.entry_count() as int
        } else if bytes_lt(self.anchor_at(i), t) {
            self.first_not_below(t, i + 1)
        } else {
            i
        }
    }

    /// The locations of descriptor `i`.
    pub open spec fn locs_of(&self, i: int) -> Seq<(Seq<char>, u64)> {
        let d = self.desc_at(i);
        self.loc_list(d.2 as nat, d.3 as nat)
    }

    /// The locations a key query collects from descriptor `i` on: those of
    /// each anchor in the run that starts with `path` and that is the key
    /// or one of its values.
    pub open spec fn key_run(&self, path: Seq<u8>, i: int) -> Seq<(Seq<char>, u64)>
        decreases self.entry_count() - i,
    {
        if i < 0 || i >= self.entry_count() || !starts_with(self.anchor_at(i), path) {
            Seq::empty()
        } else {
            (if vstd::utf8::valid_utf8(self.anchor_at(i)) && crate::regman::scan::under_key_bytes(
                self.anchor_at(i),
                path,
            ) {
                self.locs_of(i)
            } else {
                Seq::empty()
            }) + self.key_run(path, i + 1)
        }
    }

    /// First descriptor index whose anchor is not below `target`.
    fn lower_bound(&self, target: &[u8]) -> (lo: usize)
        requires
            self.sound(),
        ensures
            lo <= self.entry_count(),
            self.sorted() ==> lo == self.first_not_below(target@, 0),
    {
        let mut lo: usize = 0;
        let mut hi: usize = self.entries;
        while lo < hi
            invariant
                lo <= hi <= self.entry_count(),
                self.sound(),
                self.sorted() ==> forall|i: int| 0 <= i < lo ==> bytes_lt(#[trigger] self.anchor_at(i), target@),
                self.sorted() ==> forall|i: int| hi <= i < self.entry_count() ==> !bytes_lt(#[trigger] self.anchor_at(i), target@),
            decreases hi - lo,
        {
            let mid = lo + (hi - lo) / 2;
            if bytes_less(self.anchor(mid), target) {
                proof {
                    if self.sorted() {
                        assert forall|i: int| 0 <= i < mid + 1 implies bytes_lt(#[trigger] self.anchor_at(i), target@) by {
                            crate::regman::scan::lemma_bytes_lt_order(self.anchor_at(i), self.anchor_at(mid as int), target@);
                        }
                    }
                }
                lo = mid + 1;
            } else {
                proof {
                    if self.sorted() {
                        assert forall|i: int| mid <= i < self.entry_count() implies !bytes_lt(#[trigger] self.anchor_at(i), target@) by {
                            crate::regman::scan::lemma_bytes_lt_order(self.anchor_at(mid as int), self.anchor_at(i), target@);
                        }
                    }
                }
                hi = mid;
            }
        }
        proof {
            if self.sorted() {
                self.lemma_first_not_below(target@, 0, lo as int);
            }
        }
        lo
    }

    proof fn lemma_first_not_below(&self, t: Seq<u8>, i: int, lo: int)
        requires
            0 <= i <= lo <= self.entry_count(),
            forall|k: int| i <= k < lo ==> bytes_lt(#[trigger] self.anchor_at(k), t),
            lo < self.entry_count() ==> !bytes_lt(self.anchor_at(lo), t),
        ensures
            self.first_not_below(t, i) == lo,
        decreases lo - i,
    {
        if i < lo {
            self.lemma_first_not_below(t, i + 1, lo);
        }
    }

    /// Locations for an exact anchor match. In a sorted index, the
    /// locations of the anchor equal to the query, or none.
    pub fn lookup_exact(&self, folded_anchor: &str) -> (out: Vec<Location>)
        requires
            self.sound(),
        ensures
            self.sorted() ==> forall|i: int|
                0 <= i < self.entry_count() && #[trigger] self.anchor_at(i) == enc(folded_anchor@) ==> locations_view(out@)
                    == self.locs_of(i),
            self.sorted() && (forall|i: int| 0 <= i < self.entry_count() ==> #[trigger] self.anchor_at(i) != enc(folded_anchor@))
                ==> out@.len() == 0,
    {
        let target = folded_anchor.as_bytes();
        let i = self.lower_bound(target);
        if i < self.entries && bytes_same(self.anchor(i), target) {
            assert(self.desc_ok(i as int));
            let (_, _, loc_idx, loc_n) = self.desc(i);
            let out = self.locations(loc_idx, loc_n);
            proof {
                if self.sorted() {
                    assert forall|k: int| 0 <= k < self.entry_count() && #[trigger] self.anchor_at(k) == enc(folded_anchor@) implies k == i by {
                        if k < i {
                            assert(bytes_lt(self.anchor_at(k), self.anchor_at(i as int)));
                            crate::regman::scan::lemma_bytes_lt_order(self.anchor_at(k), self.anchor_at(k), self.anchor_at(k));
                        } else if k > i {
                            assert(bytes_lt(self.anchor_at(i as int), self.anchor_at(k)));
                            crate::regman::scan::lemma_bytes_lt_order(self.anchor_at(k), self.anchor_at(k), self.anchor_at(k));
                        }
                    }
                }
            }
            out
        } else {
            proof {
                if self.sorted() {
                    self.lemma_found_at_bound(target@, i as int);
                }
            }
            Vec::new()
        }
    }

    proof fn lemma_found_at_bound(&self, t: Seq<u8>, lo: int)
        requires
            self.sorted(),
            0 <= lo <= self.entry_count(),
            lo == self.first_not_below(t, 0),
            lo < self.entry_count() ==> self.anchor_at(lo) != t,
        ensures
            forall|i: int| 0 <= i < self.entry_count() ==> #[trigger] self.anchor_at(i) != t,
    {
        self.lemma_bound_facts(t, 0);
        assert forall|i: int| 0 <= i < self.entry_count() implies #[trigger] self.anchor_at(i) != t by {
            crate::regman::scan::lemma_bytes_lt_order(t, t, t);
            if i > lo {
                crate::regman::scan::lemma_bytes_lt_order(self.anchor_at(lo), t, t);
                crate::regman::scan::lemma_bytes_lt_order(t, self.anchor_at(lo), self.anchor_at(i));
                assert(bytes_lt(self.anchor_at(lo), self.anchor_at(i)));
            }
        }
    }

    proof fn lemma_bound_facts(&self, t: Seq<u8>, i: int)
        requires
            0 <= i <= self.entry_count(),
        ensures
            i <= self.first_not_below(t, i) <= self.entry_count(),
            forall|k: int| i <= k < self.first_not_below(t, i) ==> bytes_lt(#[trigger] self.anchor_at(k), t),
            self.first_not_below(t, i) < self.entry_count() ==> !bytes_lt(self.anchor_at(self.first_not_below(t, i)), t),
        decreases self.entry_count() - i,
    {
        if i < self.entry_count() && bytes_lt(self.anchor_at(i), t) {
            self.lemma_bound_facts(t, i + 1);
        }
    }

    /// Locations for a key query: the key doc and its directly attached
    /// values. In a sorted index the anchors that share the key's prefix are
    /// contiguous from the lower bound, so the walk stops where the prefix
    /// ends.
    pub fn lookup_key(&self, folded_path: &str) -> (out: Vec<Location>)
        requires
            self.sound(),
        ensures
            self.sorted() ==> locations_view(out@) == self.key_run(
                enc(folded_path@),
                self.first_not_below(enc(folded_path@), 0),
            ),
    {
        let path = folded_path.as_bytes();
        let mut out: Vec<Location> = Vec::new();
        let start = self.lower_bound(path);
        let mut i = start;
        while i < self.entries && begins_with(self.anchor(i), path)
            invariant
                start <= i <= self.entry_count(),
                self.sound(),
                path@ == enc(folded_path@),
                locations_view(out@) + self.key_run(path@, i as int) == self.key_run(path@, start as int),
            decreases self.entry_count() - i,
        {
            let ghost before = out@;
            let a = self.anchor(i);
            match utf8_str(a) {
                Some(anchor) => {
                    proof {
                        vstd::utf8::encode_utf8_decode_utf8(anchor@);
                        assert(vstd::utf8::encode_utf8(vstd::utf8::decode_utf8(a@)) == a@) by {
                            vstd::utf8::decode_utf8_encode_utf8(a@);
                        }
                    }
                    if crate::regman::scan::is_under_key(anchor.as_str(), folded_path) {
                        assert(self.desc_ok(i as int));
                        let (_, _, loc_idx, loc_n) = self.desc(i);
                        let more = self.locations(loc_idx, loc_n);
                        let mut k: usize = 0;
                        while k < more.len()
                            invariant
                                k <= more@.len(),
                                locations_view(out@) == locations_view(before) + locations_view(more@).take(k as int),
                            decreases more@.len() - k,
                        {
                            let l = Location { file: more[k].file.clone(), offset: more[k].offset };
                            assert(locations_view(out@.push(l)) =~= locations_view(out@).push((l.file@, l.offset)));
                            assert(locations_view(more@).take(k + 1) =~= locations_view(more@).take(k as int).push((l.file@, l.offset)));
                            out.push(l);
                            k += 1;
                        }
                        assert(locations_view(more@).take(more@.len() as int) =~= locations_view(more@));
                    }
                },
                None => {},
            }
            assert(locations_view(out@) + self.key_run(path@, i + 1) =~= locations_view(before) + self.key_run(path@, i as int));
            i += 1;
        }
        assert(locations_view(out@) + Seq::<(Seq<char>, u64)>::empty() =~= locations_view(out@));
        out
    }
}

/// Does `a` start with `p`?
pub open spec fn starts_with(a: Seq<u8>, p: Seq<u8>) -> bool {
    a.len() >= p.len() && a.take(p.len() as int) == p
}

fn begins_with(a: &[u8], p: &[u8]) -> (b: bool)
    ensures
        b == starts_with(a@, p@),
{
    if a.len() < p.len() {
        return false;
    }
    let r = bytes_same(&a[0..p.len()], p);
    assert(a@.subrange(0, p@.len() as int) =~= a@.take(p@.len() as int));
    r
}

pub open spec fn locations_view(v: Seq<Location>) -> Seq<(Seq<char>, u64)> {
    v.map_values(|l: Location| (l.file@, l.offset))
}

} // verus!
