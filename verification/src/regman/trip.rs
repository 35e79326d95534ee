//! Why an index reads back as it was written: loading the bytes of an index
//! gives back its file table, and each descriptor gives back its anchor and
//! the locations recorded under it, so a lookup answers with what the build
//! recorded.
use crate::reg::addr::lossy;
use crate::regman::index::{
    all_locs_bytes, anchors_len, blob_bytes, desc_bytes, files_from, header_ok, index_bytes, index_len,
    lemma_sums_grow, lemma_table_grows, le32, le64, locs_bytes, locs_total, magic, table_bytes, table_len,
    u32_at, u64_at, Index,
};
use crate::regman::scan::bytes_lt;
use vstd::prelude::*;

verus! {

/// The locations `ls` as a lookup reports them: each naming a file of the
/// table `names`; those that name none are skipped.
pub open spec fn resolved(ls: Seq<(u32, u64)>, names: Seq<Seq<char>>) -> Seq<(Seq<char>, u64)>
    decreases ls.len(),
{
    if ls.len() == 0 {
        Seq::empty()
    } else {
        let prev = resolved(ls.drop_last(), names);
        if (ls.last().0 as int) < names.len() {
            prev.push((names[ls.last().0 as int], ls.last().1))
        } else {
            prev
        }
    }
}

/// The anchors are strictly increasing.
pub open spec fn strictly_sorted(es: Seq<(Seq<u8>, Seq<(u32, u64)>)>) -> bool {
    forall|i: int, j: int| 0 <= i < j < es.len() ==> bytes_lt(#[trigger] es[i].0, #[trigger] es[j].0)
}

/// The file table as a lookup names its files.
pub open spec fn names_of(fs: Seq<Seq<u8>>) -> Seq<Seq<char>> {
    fs.map_values(|f: Seq<u8>| lossy(f))
}

/// Every offset and count the index records fits its 32-bit field.
pub open spec fn fits_u32(es: Seq<(Seq<u8>, Seq<(u32, u64)>)>, fs: Seq<Seq<u8>>) -> bool {
    &&& index_len(es, fs) <= u32::MAX
    &&& fs.len() <= u32::MAX
}

proof fn lemma_le_lens()
    ensures
        forall|x: u32| #![trigger le32(x)] le32(x).len() == 4 && vstd::bytes::spec_u32_from_le_bytes(le32(x)) == x,
        forall|x: u64| #![trigger le64(x)] le64(x).len() == 8 && vstd::bytes::spec_u64_from_le_bytes(le64(x)) == x,
{
    assert forall|x: u32| #![trigger le32(x)] le32(x).len() == 4 && vstd::bytes::spec_u32_from_le_bytes(le32(x)) == x by {
        vstd::bytes::lemma_auto_spec_u32_to_from_le_bytes();
        assert(vstd::bytes::spec_u32_to_le_bytes(x).len() == 4);
    }
    assert forall|x: u64| #![trigger le64(x)] le64(x).len() == 8 && vstd::bytes::spec_u64_from_le_bytes(le64(x)) == x by {
        vstd::bytes::lemma_auto_spec_u64_to_from_le_bytes();
        assert(vstd::bytes::spec_u64_to_le_bytes(x).len() == 8);
    }
}

proof fn lemma_sub_right(x: Seq<u8>, y: Seq<u8>, a: int, b: int)
    requires
        x.len() <= a <= b <= x.len() + y.len(),
    ensures
        (x + y).subrange(a, b) == y.subrange(a - x.len(), b - x.len()),
{
    assert((x + y).subrange(a, b) =~= y.subrange(a - x.len(), b - x.len()));
}

proof fn lemma_sub_left(x: Seq<u8>, y: Seq<u8>, a: int, b: int)
    requires
        0 <= a <= b <= x.len(),
    ensures
        (x + y).subrange(a, b) == x.subrange(a, b),
{
    assert((x + y).subrange(a, b) =~= x.subrange(a, b));
}

proof fn lemma_desc_len(es: Seq<(Seq<u8>, Seq<(u32, u64)>)>, a: nat)
    ensures
        desc_bytes(es, a).len() == 16 * es.len(),
    decreases es.len(),
{
    lemma_le_lens();
    if es.len() > 0 {
        lemma_desc_len(es.drop_last(), a);
    }
}

/// The sixteen bytes of descriptor `i`.
proof fn lemma_desc_at(es: Seq<(Seq<u8>, Seq<(u32, u64)>)>, a: nat, i: int)
    requires
        0 <= i < es.len(),
    ensures
        desc_bytes(es, a).subrange(16 * i, 16 * i + 16) == le32((a + anchors_len(es.take(i))) as u32) + le32(
            es[i].0.len() as u32,
        ) + le32(locs_total(es.take(i)) as u32) + le32(es[i].1.len() as u32),
    decreases es.len(),
{
    lemma_le_lens();
    let p = es.drop_last();
    lemma_desc_len(p, a);
    lemma_desc_len(es, a);
    let tail = le32((a + anchors_len(p)) as u32) + le32(es.last().0.len() as u32) + le32(locs_total(p) as u32)
        + le32(es.last().1.len() as u32);
    assert(desc_bytes(es, a) == desc_bytes(p, a) + tail);
    if i < es.len() - 1 {
        lemma_desc_at(p, a, i);
        lemma_sub_left(desc_bytes(p, a), tail, 16 * i, 16 * i + 16);
        assert(p.take(i) =~= es.take(i));
        assert(p[i] == es[i]);
    } else {
        assert(p =~= es.take(i));
        lemma_sub_right(desc_bytes(p, a), tail, 16 * i, 16 * i + 16);
        assert(tail.len() == 16);
        assert(tail.subrange(0, 16) =~= tail);
    }
}

proof fn lemma_locs_len(ls: Seq<(u32, u64)>)
    ensures
        locs_bytes(ls).len() == 12 * ls.len(),
    decreases ls.len(),
{
    lemma_le_lens();
    if ls.len() > 0 {
        lemma_locs_len(ls.drop_last());
    }
}

/// The twelve bytes of location `j`.
proof fn lemma_loc_at(ls: Seq<(u32, u64)>, j: int)
    requires
        0 <= j < ls.len(),
    ensures
        locs_bytes(ls).subrange(12 * j, 12 * j + 12) == le32(ls[j].0) + le64(ls[j].1),
    decreases ls.len(),
{
    lemma_le_lens();
    let p = ls.drop_last();
    lemma_locs_len(p);
    let tail = le32(ls.last().0) + le64(ls.last().1);
    assert(locs_bytes(ls) == locs_bytes(p) + tail);
    if j < ls.len() - 1 {
        lemma_loc_at(p, j);
        lemma_sub_left(locs_bytes(p), tail, 12 * j, 12 * j + 12);
        assert(p[j] == ls[j]);
    } else {
        lemma_sub_right(locs_bytes(p), tail, 12 * j, 12 * j + 12);
        assert(tail.subrange(0, 12) =~= tail);
    }
}

proof fn lemma_all_locs_len(es: Seq<(Seq<u8>, Seq<(u32, u64)>)>)
    ensures
        all_locs_bytes(es).len() == 12 * locs_total(es),
    decreases es.len(),
{
    lemma_le_lens();
    if es.len() > 0 {
        lemma_all_locs_len(es.drop_last());
        lemma_locs_len(es.last().1);
    }
}

/// The twelve bytes of location `j` of entry `i`.
proof fn lemma_entry_loc_at(es: Seq<(Seq<u8>, Seq<(u32, u64)>)>, i: int, j: int)
    requires
        0 <= i < es.len(),
        0 <= j < es[i].1.len(),
    ensures
        all_locs_bytes(es).subrange(12 * (locs_total(es.take(i)) + j), 12 * (locs_total(es.take(i)) + j) + 12)
            == le32(es[i].1[j].0) + le64(es[i].1[j].1),
    decreases es.len(),
{
    lemma_le_lens();
    let p = es.drop_last();
    lemma_all_locs_len(p);
    lemma_locs_len(es.last().1);
    assert(all_locs_bytes(es) == all_locs_bytes(p) + locs_bytes(es.last().1));
    let s = 12 * (locs_total(es.take(i)) + j);
    if i < es.len() - 1 {
        lemma_entry_loc_at(p, i, j);
        assert(p.take(i) =~= es.take(i));
        assert(p[i] == es[i]);
        lemma_sums_grow(p, i + 1);
        assert(p.take(i + 1).drop_last() =~= p.take(i));
        lemma_sub_left(all_locs_bytes(p), locs_bytes(es.last().1), s, s + 12);
    } else {
        assert(p =~= es.take(i));
        lemma_loc_at(es.last().1, j);
        lemma_sub_right(all_locs_bytes(p), locs_bytes(es.last().1), s, s + 12);
    }
}

proof fn lemma_blob_len(es: Seq<(Seq<u8>, Seq<(u32, u64)>)>)
    ensures
        blob_bytes(es).len() == anchors_len(es),
    decreases es.len(),
{
    if es.len() > 0 {
        lemma_blob_len(es.drop_last());
    }
}

/// Entry `i`'s anchor, where the blob holds it.
proof fn lemma_anchor_at(es: Seq<(Seq<u8>, Seq<(u32, u64)>)>, i: int)
    requires
        0 <= i < es.len(),
    ensures
        blob_bytes(es).subrange(anchors_len(es.take(i)) as int, (anchors_len(es.take(i)) + es[i].0.len()) as int)
            == es[i].0,
    decreases es.len(),
{
    let p = es.drop_last();
    lemma_blob_len(p);
    assert(blob_bytes(es) == blob_bytes(p) + es.last().0);
    let s = anchors_len(es.take(i)) as int;
    if i < es.len() - 1 {
        lemma_anchor_at(p, i);
        assert(p.take(i) =~= es.take(i));
        assert(p[i] == es[i]);
        lemma_sums_grow(p, i + 1);
        assert(p.take(i + 1).drop_last() =~= p.take(i));
        lemma_sub_left(blob_bytes(p), es.last().0, s, s + es[i].0.len());
    } else {
        assert(p =~= es.take(i));
        lemma_sub_right(blob_bytes(p), es.last().0, s, s + es[i].0.len());
        assert(es.last().0.subrange(0, es.last().0.len() as int) =~= es.last().0);
    }
}

proof fn lemma_table_len_is(fs: Seq<Seq<u8>>)
    ensures
        table_bytes(fs).len() == table_len(fs),
    decreases fs.len(),
{
    lemma_le_lens();
    if fs.len() > 0 {
        lemma_table_len_is(fs.drop_last());
    }
}

/// File `k` of the table: its length, then its bytes.
proof fn lemma_table_at(fs: Seq<Seq<u8>>, k: int)
    requires
        0 <= k < fs.len(),
    ensures
        table_bytes(fs).subrange(table_len(fs.take(k)) as int, (table_len(fs.take(k)) + 4 + fs[k].len()) as int)
            == le32(fs[k].len() as u32) + fs[k],
    decreases fs.len(),
{
    lemma_le_lens();
    let p = fs.drop_last();
    lemma_table_len_is(p);
    let tail = le32(fs.last().len() as u32) + fs.last();
    assert(table_bytes(fs) == table_bytes(p) + tail);
    let s = table_len(fs.take(k)) as int;
    if k < fs.len() - 1 {
        lemma_table_at(p, k);
        assert(p.take(k) =~= fs.take(k));
        assert(p[k] == fs[k]);
        lemma_table_grows(p, k + 1);
        assert(p.take(k + 1).drop_last() =~= p.take(k));
        lemma_sub_left(table_bytes(p), tail, s, s + 4 + fs[k].len());
    } else {
        assert(p =~= fs.take(k));
        lemma_sub_right(table_bytes(p), tail, s, s + 4 + fs[k].len());
        assert(tail.subrange(0, tail.len() as int) =~= tail);
    }
}

/// The header of an index of `es` and `fs`.
pub open spec fn header_bytes(es: Seq<(Seq<u8>, Seq<(u32, u64)>)>, fs: Seq<Seq<u8>>) -> Seq<u8> {
    let locs_off = 40 + 16 * es.len();
    let files_off = locs_off + 12 * locs_total(es);
    let anch_off = files_off + table_len(fs);
    magic() + le32(1) + le32(es.len() as u32) + le32(40) + le32(locs_off as u32) + le32(files_off as u32)
        + le32(anch_off as u32) + le32(fs.len() as u32) + le32(0)
}

pub open spec fn files_start(es: Seq<(Seq<u8>, Seq<(u32, u64)>)>, fs: Seq<Seq<u8>>) -> nat {
    40 + 16 * es.len() + 12 * locs_total(es)
}

pub open spec fn anchors_start(es: Seq<(Seq<u8>, Seq<(u32, u64)>)>, fs: Seq<Seq<u8>>) -> nat {
    files_start(es, fs) + table_len(fs)
}

/// The index's bytes, as its four regions after the header.
proof fn lemma_regions(es: Seq<(Seq<u8>, Seq<(u32, u64)>)>, fs: Seq<Seq<u8>>)
    ensures
        header_bytes(es, fs).len() == 40,
        index_bytes(es, fs) == header_bytes(es, fs) + desc_bytes(es, anchors_start(es, fs)) + all_locs_bytes(es)
            + table_bytes(fs) + blob_bytes(es),
        index_bytes(es, fs).len() == index_len(es, fs),
{
    lemma_le_lens();
    lemma_desc_len(es, anchors_start(es, fs));
    lemma_all_locs_len(es);
    lemma_table_len_is(fs);
    lemma_blob_len(es);
    assert(magic().len() == 8);
}

/// Four bytes of the index, inside the descriptor, location or anchor
/// regions, read from that region.
proof fn lemma_read_desc(es: Seq<(Seq<u8>, Seq<(u32, u64)>)>, fs: Seq<Seq<u8>>, x: int, y: int)
    requires
        40 <= x <= y <= 40 + 16 * es.len(),
    ensures
        index_bytes(es, fs).subrange(x, y) == desc_bytes(es, anchors_start(es, fs)).subrange(x - 40, y - 40),
{
    lemma_regions(es, fs);
    let h = header_bytes(es, fs);
    let d = desc_bytes(es, anchors_start(es, fs));
    let l = all_locs_bytes(es);
    let t = table_bytes(fs);
    let a = blob_bytes(es);
    lemma_desc_len(es, anchors_start(es, fs));
    lemma_sub_left(h + d + l + t, a, x, y);
    lemma_sub_left(h + d + l, t, x, y);
    lemma_sub_left(h + d, l, x, y);
    lemma_sub_right(h, d, x, y);
}

proof fn lemma_read_locs(es: Seq<(Seq<u8>, Seq<(u32, u64)>)>, fs: Seq<Seq<u8>>, x: int, y: int)
    requires
        40 + 16 * es.len() <= x <= y <= files_start(es, fs),
    ensures
        index_bytes(es, fs).subrange(x, y) == all_locs_bytes(es).subrange(x - 40 - 16 * es.len(), y - 40 - 16 * es.len()),
{
    lemma_regions(es, fs);
    let h = header_bytes(es, fs);
    let d = desc_bytes(es, anchors_start(es, fs));
    let l = all_locs_bytes(es);
    let t = table_bytes(fs);
    let a = blob_bytes(es);
    lemma_desc_len(es, anchors_start(es, fs));
    lemma_all_locs_len(es);
    lemma_sub_left(h + d + l + t, a, x, y);
    lemma_sub_left(h + d + l, t, x, y);
    lemma_sub_right(h + d, l, x, y);
}

proof fn lemma_read_table(es: Seq<(Seq<u8>, Seq<(u32, u64)>)>, fs: Seq<Seq<u8>>, x: int, y: int)
    requires
        files_start(es, fs) <= x <= y <= anchors_start(es, fs),
    ensures
        index_bytes(es, fs).subrange(x, y) == table_bytes(fs).subrange(x - files_start(es, fs), y - files_start(es, fs)),
{
    lemma_regions(es, fs);
    let h = header_bytes(es, fs);
    let d = desc_bytes(es, anchors_start(es, fs));
    let l = all_locs_bytes(es);
    let t = table_bytes(fs);
    let a = blob_bytes(es);
    lemma_desc_len(es, anchors_start(es, fs));
    lemma_all_locs_len(es);
    lemma_table_len_is(fs);
    lemma_sub_left(h + d + l + t, a, x, y);
    lemma_sub_right(h + d + l, t, x, y);
}

proof fn lemma_read_blob(es: Seq<(Seq<u8>, Seq<(u32, u64)>)>, fs: Seq<Seq<u8>>, x: int, y: int)
    requires
        anchors_start(es, fs) <= x <= y <= index_len(es, fs),
    ensures
        index_bytes(es, fs).subrange(x, y) == blob_bytes(es).subrange(x - anchors_start(es, fs), y - anchors_start(es, fs)),
{
    lemma_regions(es, fs);
    let h = header_bytes(es, fs);
    let d = desc_bytes(es, anchors_start(es, fs));
    let l = all_locs_bytes(es);
    let t = table_bytes(fs);
    let a = blob_bytes(es);
    lemma_desc_len(es, anchors_start(es, fs));
    lemma_all_locs_len(es);
    lemma_table_len_is(fs);
    lemma_blob_len(es);
    lemma_sub_right(h + d + l + t, a, x, y);
}

/// Four bytes of the header, read from it.
proof fn lemma_read_header(es: Seq<(Seq<u8>, Seq<(u32, u64)>)>, fs: Seq<Seq<u8>>, x: int, y: int)
    requires
        0 <= x <= y <= 40,
    ensures
        index_bytes(es, fs).subrange(x, y) == header_bytes(es, fs).subrange(x, y),
{
    lemma_regions(es, fs);
    let h = header_bytes(es, fs);
    let d = desc_bytes(es, anchors_start(es, fs));
    let l = all_locs_bytes(es);
    let t = table_bytes(fs);
    let a = blob_bytes(es);
    lemma_desc_len(es, anchors_start(es, fs));
    lemma_all_locs_len(es);
    lemma_table_len_is(fs);
    lemma_sub_left(h + d + l + t, a, x, y);
    lemma_sub_left(h + d + l, t, x, y);
    lemma_sub_left(h + d, l, x, y);
    lemma_sub_left(h, d, x, y);
}

/// The header of the bytes of an index: what `load` checks and reads.
pub proof fn lemma_header_reads_back(es: Seq<(Seq<u8>, Seq<(u32, u64)>)>, fs: Seq<Seq<u8>>)
    requires
        fits_u32(es, fs),
    ensures
        header_ok(index_bytes(es, fs)),
        u32_at(index_bytes(es, fs), 12) == es.len(),
        u32_at(index_bytes(es, fs), 16) == 40,
        u32_at(index_bytes(es, fs), 20) == 40 + 16 * es.len(),
        u32_at(index_bytes(es, fs), 24) == files_start(es, fs),
        u32_at(index_bytes(es, fs), 32) == fs.len(),
{
    lemma_le_lens();
    lemma_regions(es, fs);
    let b = index_bytes(es, fs);
    let h = header_bytes(es, fs);
    lemma_sums_grow(es, 0);
    lemma_table_grows(fs, 0);
    assert(magic().len() == 8);
    lemma_read_header(es, fs, 0, 8);
    assert(h.subrange(0, 8) =~= magic());
    assert(b.take(8) =~= b.subrange(0, 8));
    lemma_read_header(es, fs, 8, 12);
    assert(h.subrange(8, 12) =~= le32(1));
    lemma_read_header(es, fs, 12, 16);
    assert(h.subrange(12, 16) =~= le32(es.len() as u32));
    lemma_read_header(es, fs, 16, 20);
    assert(h.subrange(16, 20) =~= le32(40));
    lemma_read_header(es, fs, 20, 24);
    assert(h.subrange(20, 24) =~= le32((40 + 16 * es.len()) as u32));
    lemma_read_header(es, fs, 24, 28);
    assert(h.subrange(24, 28) =~= le32(files_start(es, fs) as u32));
    lemma_read_header(es, fs, 32, 36);
    assert(h.subrange(32, 36) =~= le32(fs.len() as u32));
}

proof fn lemma_files_from(es: Seq<(Seq<u8>, Seq<(u32, u64)>)>, fs: Seq<Seq<u8>>, k: int)
    requires
        fits_u32(es, fs),
        0 <= k <= fs.len(),
    ensures
        files_from(index_bytes(es, fs), (files_start(es, fs) + table_len(fs.take(k))) as nat, (fs.len() - k) as nat)
            == Some(names_of(fs).skip(k)),
    decreases fs.len() - k,
{
    lemma_le_lens();
    lemma_regions(es, fs);
    if k == fs.len() {
        assert(names_of(fs).skip(k) =~= Seq::<Seq<char>>::empty());
    } else {
        let b = index_bytes(es, fs);
        let t = table_bytes(fs);
        let tk: int = table_len(fs.take(k)) as int;
        let len: int = fs[k].len() as int;
        let at: int = files_start(es, fs) + tk;
        assert(fs.take(k + 1).drop_last() =~= fs.take(k));
        lemma_table_grows(fs, k + 1);
        lemma_table_len_is(fs);
        assert(table_len(fs.take(k + 1)) == tk + 4 + len);
        lemma_table_at(fs, k);
        let piece = t.subrange(tk, tk + 4 + len);
        assert(piece == le32(len as u32) + fs[k]);
        lemma_read_table(es, fs, at, at + 4);
        assert(t.subrange(tk, tk + 4) =~= piece.subrange(0, 4));
        assert(piece.subrange(0, 4) =~= le32(len as u32));
        assert(u32_at(b, at) == len);
        lemma_read_table(es, fs, at + 4, at + 4 + len);
        assert(t.subrange(tk + 4, tk + 4 + len) =~= piece.subrange(4, 4 + len));
        assert(piece.subrange(4, 4 + len) =~= fs[k]);
        lemma_files_from(es, fs, k + 1);
        assert(names_of(fs).skip(k) =~= seq![lossy(fs[k])] + names_of(fs).skip(k + 1));
    }
}

/// The file table of the bytes of an index reads back as the files it was
/// written with.
pub proof fn lemma_table_reads_back(es: Seq<(Seq<u8>, Seq<(u32, u64)>)>, fs: Seq<Seq<u8>>)
    requires
        fits_u32(es, fs),
    ensures
        files_from(index_bytes(es, fs), files_start(es, fs), fs.len()) == Some(names_of(fs)),
{
    lemma_files_from(es, fs, 0);
    assert(fs.take(0) =~= Seq::<Seq<u8>>::empty());
    assert(names_of(fs).skip(0) =~= names_of(fs));
}

proof fn lemma_sums_step(es: Seq<(Seq<u8>, Seq<(u32, u64)>)>, i: int)
    requires
        0 <= i < es.len(),
    ensures
        anchors_len(es.take(i + 1)) == anchors_len(es.take(i)) + es[i].0.len(),
        locs_total(es.take(i + 1)) == locs_total(es.take(i)) + es[i].1.len(),
        anchors_len(es.take(i + 1)) <= anchors_len(es),
        locs_total(es.take(i + 1)) <= locs_total(es),
{
    assert(es.take(i + 1).drop_last() =~= es.take(i));
    assert(es.take(i + 1).last() == es[i]);
    lemma_sums_grow(es, i + 1);
}

/// Descriptor `i` of the bytes of an index: where its anchor lies, how
/// long it is, and where its locations start and how many there are.
proof fn lemma_desc_reads_back(es: Seq<(Seq<u8>, Seq<(u32, u64)>)>, fs: Seq<Seq<u8>>, i: int)
    requires
        fits_u32(es, fs),
        0 <= i < es.len(),
    ensures
        u32_at(index_bytes(es, fs), 40 + 16 * i) == anchors_start(es, fs) + anchors_len(es.take(i)),
        u32_at(index_bytes(es, fs), 40 + 16 * i + 4) == es[i].0.len(),
        u32_at(index_bytes(es, fs), 40 + 16 * i + 8) == locs_total(es.take(i)),
        u32_at(index_bytes(es, fs), 40 + 16 * i + 12) == es[i].1.len(),
{
    lemma_le_lens();
    lemma_regions(es, fs);
    lemma_sums_step(es, i);
    let a = anchors_start(es, fs);
    let d = desc_bytes(es, a);
    lemma_desc_at(es, a, i);
    lemma_desc_len(es, a);
    assert(16 * i + 16 <= d.len());
    let q = d.subrange(16 * i, 16 * i + 16);
    let base = 40 + 16 * i;
    lemma_read_desc(es, fs, base, base + 4);
    assert(d.subrange(16 * i, 16 * i + 4) =~= q.subrange(0, 4));
    assert(q.subrange(0, 4) =~= le32((a + anchors_len(es.take(i))) as u32));
    lemma_read_desc(es, fs, base + 4, base + 8);
    assert(d.subrange(16 * i + 4, 16 * i + 8) =~= q.subrange(4, 8));
    assert(q.subrange(4, 8) =~= le32(es[i].0.len() as u32));
    lemma_read_desc(es, fs, base + 8, base + 12);
    assert(d.subrange(16 * i + 8, 16 * i + 12) =~= q.subrange(8, 12));
    assert(q.subrange(8, 12) =~= le32(locs_total(es.take(i)) as u32));
    lemma_read_desc(es, fs, base + 12, base + 16);
    assert(d.subrange(16 * i + 12, 16 * i + 16) =~= q.subrange(12, 16));
    assert(q.subrange(12, 16) =~= le32(es[i].1.len() as u32));
}

/// The loaded view of the bytes of an index of `es` and `fs`.
pub open spec fn loaded_from(ix: Index, es: Seq<(Seq<u8>, Seq<(u32, u64)>)>, fs: Seq<Seq<u8>>) -> bool {
    &&& ix.data() == index_bytes(es, fs)
    &&& ix.entry_count() == es.len()
    &&& ix.desc_start() == 40
    &&& ix.locs_start() == 40 + 16 * es.len()
    &&& ix.file_names() == names_of(fs)
}

proof fn lemma_locs_read_back(es: Seq<(Seq<u8>, Seq<(u32, u64)>)>, fs: Seq<Seq<u8>>, ix: Index, i: int, m: int)
    requires
        fits_u32(es, fs),
        loaded_from(ix, es, fs),
        0 <= i < es.len(),
        0 <= m <= es[i].1.len(),
    ensures
        ix.loc_list(locs_total(es.take(i)), m as nat) == resolved(es[i].1.take(m), names_of(fs)),
    decreases m,
{
    let ls = es[i].1;
    if m == 0 {
        assert(ls.take(0) =~= Seq::<(u32, u64)>::empty());
    } else {
        lemma_locs_read_back(es, fs, ix, i, m - 1);
        lemma_le_lens();
        lemma_sums_step(es, i);
        let lt = locs_total(es.take(i)) as int;
        let l = all_locs_bytes(es);
        lemma_entry_loc_at(es, i, m - 1);
        let j = lt + m - 1;
        lemma_all_locs_len(es);
        assert(12 * j + 12 <= l.len());
        let q = l.subrange(12 * j, 12 * j + 12);
        assert(q == le32(ls[m - 1].0) + le64(ls[m - 1].1));
        let base = 40 + 16 * es.len() + 12 * j;
        lemma_read_locs(es, fs, base, base + 4);
        assert(l.subrange(12 * j, 12 * j + 4) =~= q.subrange(0, 4));
        assert(q.subrange(0, 4) =~= le32(ls[m - 1].0));
        lemma_read_locs(es, fs, base + 4, base + 12);
        assert(l.subrange(12 * j + 4, 12 * j + 12) =~= q.subrange(4, 12));
        assert(q.subrange(4, 12) =~= le64(ls[m - 1].1));
        assert(u32_at(ix.data(), base) == ls[m - 1].0);
        assert(u64_at(ix.data(), base + 4) == ls[m - 1].1);
        assert(ls.take(m).drop_last() =~= ls.take(m - 1));
        assert(ls.take(m).last() == ls[m - 1]);
        assert(names_of(fs).len() == fs.len());
    }
}

/// The bytes of an index, loaded, give back what was written: every
/// descriptor lies inside them, the anchors come out in their strictly
/// increasing order, and each descriptor gives back its anchor and the
/// locations recorded under it, each naming its file in the table.
pub proof fn lemma_index_round_trip(es: Seq<(Seq<u8>, Seq<(u32, u64)>)>, fs: Seq<Seq<u8>>, ix: Index)
    requires
        fits_u32(es, fs),
        strictly_sorted(es),
        loaded_from(ix, es, fs),
    ensures
        ix.sound(),
        ix.sorted(),
        forall|i: int|
            0 <= i < es.len() ==> #[trigger] ix.anchor_at(i) == es[i].0 && ix.locs_of(i) == resolved(
                es[i].1,
                names_of(fs),
            ),
{
    lemma_regions(es, fs);
    assert forall|i: int| 0 <= i < es.len() implies #[trigger] ix.anchor_at(i) == es[i].0 && ix.locs_of(i) == resolved(
        es[i].1,
        names_of(fs),
    ) && ix.desc_ok(i) by {
        lemma_desc_reads_back(es, fs, i);
        lemma_sums_step(es, i);
        let off = anchors_start(es, fs) + anchors_len(es.take(i));
        let len = es[i].0.len();
        lemma_read_blob(es, fs, off as int, (off + len) as int);
        lemma_anchor_at(es, i);
        lemma_locs_read_back(es, fs, ix, i, es[i].1.len() as int);
        assert(es[i].1.take(es[i].1.len() as int) =~= es[i].1);
    }
    assert forall|i: int| 0 <= i < ix.entry_count() implies #[trigger] ix.desc_ok(i) by {
        assert(ix.anchor_at(i) == es[i].0);
    }
    assert forall|i: int, j: int| 0 <= i < j < ix.entry_count() implies bytes_lt(
        #[trigger] ix.anchor_at(i),
        #[trigger] ix.anchor_at(j),
    ) by {
        assert(ix.anchor_at(i) == es[i].0);
        assert(ix.anchor_at(j) == es[j].0);
    }
}

} // verus!
