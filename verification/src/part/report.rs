//! What `part list` prints for one device: its geometry, and, for a GPT, the
//! table, its partitions and the free space a new partition could occupy.
use crate::part::device::Geometry;
use crate::part::gpt::{spec_free_extents, used_idx, Gpt};
use crate::part::guid::guid_text;
use crate::part::label::{state_text, type_column, view_entry, view_of, DiskState};
use crate::part::size::{human, human_text};
use crate::reg::render::spaces;
use crate::text::{decimal, extend_chars, extend_str, string_from_chars, u64_decimal};
use vstd::prelude::*;

verus! {

/// `s` right-aligned in `w` characters.
pub open spec fn right_in(s: Seq<char>, w: int) -> Seq<char> {
    spaces(w - s.len()) + s
}

/// `s` left-aligned in `w` characters.
pub open spec fn left_in(s: Seq<char>, w: int) -> Seq<char> {
    s + spaces(w - s.len())
}

fn push_spaces(v: &mut Vec<char>, n: usize)
    ensures
        final(v)@ == old(v)@ + spaces(n as int),
{
    let mut i: usize = 0;
    while i < n
        invariant
            i <= n,
            v@ == old(v)@ + spaces(i as int),
        decreases n - i,
    {
        v.push(' ');
        i += 1;
        assert(v@ =~= old(v)@ + spaces(i as int));
    }
}

fn push_right(v: &mut Vec<char>, s: &Vec<char>, w: usize)
    ensures
        final(v)@ == old(v)@ + right_in(s@, w as int),
{
    if s.len() < w {
        push_spaces(v, w - s.len());
    } else {
        assert(spaces(w - s@.len()) =~= Seq::<char>::empty());
    }
    extend_chars(v, s);
}

fn push_left(v: &mut Vec<char>, s: &Vec<char>, w: usize)
    ensures
        final(v)@ == old(v)@ + left_in(s@, w as int),
{
    extend_chars(v, s);
    if s.len() < w {
        push_spaces(v, w - s.len());
    } else {
        assert(spaces(w - s@.len()) =~= Seq::<char>::empty());
    }
}

/// The column heads of the partition table.
pub open spec fn head_row() -> Seq<char> {
    right_in(seq!['#'], 3) + "  "@ + right_in("START"@, 12) + "  "@ + right_in("END"@, 12) + "  "@
        + right_in("SIZE"@, 10) + "  "@ + left_in("TYPE"@, 38) + "  "@ + "NAME"@ + "\n"@
}

/// One partition's row.
pub open spec fn part_row(index: int, start: u64, end: u64, bytes: u64, type_label: Seq<char>, name: Seq<char>) -> Seq<char> {
    right_in(decimal(index as nat), 3) + "  "@ + right_in(decimal(start as nat), 12) + "  "@ + right_in(
        decimal(end as nat),
        12,
    ) + "  "@ + right_in(human_text(bytes), 10) + "  "@ + left_in(type_label, 38) + "  "@ + name + "\n"@
}

/// The rows of the used entries `u` of `es`, in table order.
pub open spec fn part_rows(es: Seq<crate::part::entry::GptEntry>, u: Seq<int>, ss: nat) -> Seq<char>
    decreases u.len(),
{
    if u.len() == 0 {
        Seq::empty()
    } else {
        let e = es[u.last()];
        part_rows(es, u.drop_last(), ss) + part_row(
            u.last() + 1,
            e.starting_lba,
            e.ending_lba,
            (e.spec_sectors() * ss) as u64,
            type_column(e.type_guid),
            e.name@,
        )
    }
}

/// Total sectors of some extents.
pub open spec fn extent_total(x: Seq<(int, int)>) -> int
    decreases x.len(),
{
    if x.len() == 0 {
        0
    } else {
        extent_total(x.drop_last()) + extent_len(x.last())
    }
}

pub open spec fn extent_len(e: (int, int)) -> int {
    if e.1 >= e.0 {
        e.1 - e.0 + 1
    } else {
        1
    }
}

/// The longest of some extents, or 0.
pub open spec fn extent_max(x: Seq<(int, int)>) -> int
    decreases x.len(),
{
    if x.len() == 0 {
        0
    } else if extent_len(x.last()) > extent_max(x.drop_last()) {
        extent_len(x.last())
    } else {
        extent_max(x.drop_last())
    }
}

/// The table part of a GPT's listing.
pub open spec fn gpt_lines(g: Gpt, ss: nat) -> Seq<char> {
    let u = used_idx(g.entries@);
    let x = spec_free_extents(g);
    "Label:     gpt\nDisk GUID: "@ + guid_text(g.disk_guid.0@) + "\nUsable:    "@ + decimal(
        g.first_usable_lba as nat,
    ) + " .. "@ + decimal(g.last_usable_lba as nat) + "\n\n"@ + (if u.len() == 0 {
        "(no partitions)\n"@
    } else {
        head_row() + part_rows(g.entries@, u, ss)
    }) + "\nFree (aligned): "@ + human_text((extent_total(x) * ss) as u64) + "  in "@ + decimal(x.len())
        + " extent(s), largest "@ + human_text((extent_max(x) * ss) as u64) + "\n"@
}

/// The whole listing of a device.
pub open spec fn list_text(path: Seq<char>, geom: Geometry, st: DiskState) -> Seq<char> {
    path + ": "@ + decimal(geom.sectors as nat) + " sectors of "@ + decimal(geom.sector_size as nat)
        + " bytes ("@ + human_text((geom.sectors * geom.sector_size) as u64) + ")\n"@ + match st {
        DiskState::Gpt(g) => gpt_lines(*g, geom.sector_size as nat),
        _ => state_text(st) + "\n"@,
    }
}

/// What the listing needs of a GPT: that every size it prints fits a `u64`
/// in bytes.
pub open spec fn listable(g: Gpt, ss: nat) -> bool {
    &&& g.extents_computable()
    &&& forall|i: int| 0 <= i < g.entries@.len() ==> (#[trigger] g.entries@[i]).spec_sectors() * ss <= u64::MAX
    &&& extent_total(spec_free_extents(g)) * ss <= u64::MAX
    &&& extent_max(spec_free_extents(g)) * ss <= u64::MAX
}

proof fn lemma_total_grows(x: Seq<(int, int)>, i: int)
    requires
        0 <= i <= x.len(),
    ensures
        extent_total(x.take(i)) <= extent_total(x),
        0 <= extent_total(x.take(i)),
    decreases x.len() - i,
{
    if i < x.len() {
        lemma_total_grows(x, i + 1);
        assert(x.take(i + 1).drop_last() =~= x.take(i));
    } else {
        assert(x.take(i) =~= x);
    }
    lemma_total_nonneg(x.take(i));
}

proof fn lemma_total_nonneg(x: Seq<(int, int)>)
    ensures
        extent_total(x) >= 0,
        extent_max(x) >= 0,
    decreases x.len(),
{
    if x.len() > 0 {
        lemma_total_nonneg(x.drop_last());
    }
}

#[verifier::rlimit(40)]
fn push_row(v: &mut Vec<char>, index: usize, e: &crate::part::entry::GptEntry, ss: usize)
    requires
        ss > 0,
        e.spec_sectors() * ss <= u64::MAX,
    ensures
        final(v)@ == old(v)@ + part_row(
            index as int,
            e.starting_lba,
            e.ending_lba,
            (e.spec_sectors() * ss) as u64,
            type_column(e.type_guid),
            e.name@,
        ),
{
    assert(e.spec_sectors() <= u64::MAX) by (nonlinear_arith)
        requires
            e.spec_sectors() * ss <= u64::MAX,
            ss > 0,
            e.spec_sectors() >= 0,
    ;
    let pv = view_entry(index, e);
    assert(pv.sectors == e.spec_sectors());
    let bytes = pv.sectors * (ss as u64);
    let size = human(bytes);
    let ghost start = v@;
    push_right(v, &u64_decimal(pv.index as u64), 3);
    extend_str(v, "  ");
    push_right(v, &u64_decimal(pv.start), 12);
    extend_str(v, "  ");
    push_right(v, &u64_decimal(pv.end), 12);
    extend_str(v, "  ");
    let ghost mid = v@;
    assert(mid == start + right_in(decimal(index as nat), 3) + "  "@ + right_in(decimal(e.starting_lba as nat), 12)
        + "  "@ + right_in(decimal(e.ending_lba as nat), 12) + "  "@);
    push_right(v, &crate::text::chars_of(size.as_str()), 10);
    extend_str(v, "  ");
    push_left(v, &crate::text::chars_of(pv.type_label.as_str()), 38);
    extend_str(v, "  ");
    extend_str(v, pv.name.as_str());
    extend_str(v, "\n");
    assert(v@ =~= start + part_row(
        index as int,
        e.starting_lba,
        e.ending_lba,
        (e.spec_sectors() * ss) as u64,
        type_column(e.type_guid),
        e.name@,
    ));
}

fn push_head(v: &mut Vec<char>)
    ensures
        final(v)@ == old(v)@ + head_row(),
{
    push_right(v, &crate::text::chars_of("#"), 3);
    extend_str(v, "  ");
    push_right(v, &crate::text::chars_of("START"), 12);
    extend_str(v, "  ");
    push_right(v, &crate::text::chars_of("END"), 12);
    extend_str(v, "  ");
    push_right(v, &crate::text::chars_of("SIZE"), 10);
    extend_str(v, "  ");
    push_left(v, &crate::text::chars_of("TYPE"), 38);
    extend_str(v, "  ");
    extend_str(v, "NAME");
    extend_str(v, "\n");
    proof {
        reveal_strlit("#");
        assert("#"@ =~= seq!['#']);
    }
}

fn push_rows(v: &mut Vec<char>, g: &Gpt, ss: usize)
    requires
        ss > 0,
        listable(*g, ss as nat),
    ensures
        final(v)@ == old(v)@ + part_rows(g.entries@, used_idx(g.entries@), ss as nat),
{
    let ps = g.partitions();
    let ghost u = used_idx(g.entries@);
    proof {
        crate::part::gpt::lemma_used_idx(g.entries@);
    }
    let ghost start = v@;
    let mut k: usize = 0;
    while k < ps.len()
        invariant
            k <= ps@.len(),
            ss > 0,
            ps@.len() == u.len(),
            u == used_idx(g.entries@),
            listable(*g, ss as nat),
            forall|j: int|
                0 <= j < ps@.len() ==> (#[trigger] ps@[j]).0 == u[j] + 1 && *ps@[j].1 == g.entries@[u[j]],
            forall|j: int| 0 <= j < u.len() ==> 0 <= #[trigger] u[j] < g.entries@.len(),
            v@ == start + part_rows(g.entries@, u.take(k as int), ss as nat),
        decreases ps@.len() - k,
    {
        let (index, e) = ps[k];
        assert(u.take(k + 1).drop_last() =~= u.take(k as int));
        assert(g.entries@[u[k as int]] == *e);
        push_row(v, index, e, ss);
        k += 1;
    }
    assert(u.take(u.len() as int) =~= u);
}

fn free_stats(g: &Gpt, ss: usize) -> (r: (u64, u64, usize))
    requires
        ss > 0,
        listable(*g, ss as nat),
    ensures
        r.0 == extent_total(spec_free_extents(*g)),
        r.1 == extent_max(spec_free_extents(*g)),
        r.2 == spec_free_extents(*g).len(),
{
    let ext = g.free_extents();
    let ghost x = spec_free_extents(*g);
    proof {
        lemma_total_nonneg(x);
        assert(extent_total(x) <= u64::MAX) by (nonlinear_arith)
            requires
                extent_total(x) * ss <= u64::MAX,
                ss > 0,
                extent_total(x) >= 0,
        ;
    }
    let mut free: u64 = 0;
    let mut largest: u64 = 0;
    let mut i: usize = 0;
    while i < ext.len()
        invariant
            i <= ext@.len(),
            ext@.len() == x.len(),
            forall|q: int|
                0 <= q < ext@.len() ==> (#[trigger] ext@[q]).start == x[q].0 && ext@[q].end == x[q].1,
            extent_total(x) <= u64::MAX,
            free == extent_total(x.take(i as int)),
            largest == extent_max(x.take(i as int)),
            extent_max(x.take(i as int)) <= extent_total(x.take(i as int)),
        decreases ext@.len() - i,
    {
        assert(x.take(i + 1).drop_last() =~= x.take(i as int));
        proof {
            lemma_total_grows(x, i + 1);
            lemma_total_nonneg(x.take(i as int));
        }
        let n = ext[i].sectors();
        free = free + n;
        if n > largest {
            largest = n;
        }
        i += 1;
    }
    assert(x.take(x.len() as int) =~= x);
    (free, largest, ext.len())
}

fn gpt_lines_exec(g: &Gpt, ss: usize) -> (s: Vec<char>)
    requires
        ss > 0,
        listable(*g, ss as nat),
    ensures
        s@ == gpt_lines(*g, ss as nat),
{
    let mut v: Vec<char> = Vec::new();
    extend_str(&mut v, "Label:     gpt\nDisk GUID: ");
    extend_str(&mut v, g.disk_guid.to_text().as_str());
    extend_str(&mut v, "\nUsable:    ");
    extend_chars(&mut v, &u64_decimal(g.first_usable()));
    extend_str(&mut v, " .. ");
    extend_chars(&mut v, &u64_decimal(g.last_usable()));
    extend_str(&mut v, "\n\n");
    let n = g.partitions().len();
    proof {
        crate::part::gpt::lemma_used_idx(g.entries@);
    }
    if n == 0 {
        extend_str(&mut v, "(no partitions)\n");
    } else {
        push_head(&mut v);
        push_rows(&mut v, g, ss);
    }
    let (free, largest, count) = free_stats(g, ss);
    extend_str(&mut v, "\nFree (aligned): ");
    extend_str(&mut v, human(free * (ss as u64)).as_str());
    extend_str(&mut v, "  in ");
    extend_chars(&mut v, &u64_decimal(count as u64));
    extend_str(&mut v, " extent(s), largest ");
    extend_str(&mut v, human(largest * (ss as u64)).as_str());
    extend_str(&mut v, "\n");
    v
}

/// The listing `part list` prints for one device.
pub fn list_report(path: &str, geom: Geometry, state: &DiskState) -> (s: String)
    requires
        geom.sector_size > 0,
        geom.sectors * geom.sector_size <= u64::MAX,
        *state matches DiskState::Gpt(g) ==> listable(*g, geom.sector_size as nat),
    ensures
        s@ == list_text(path@, geom, *state),
{
    let mut v: Vec<char> = Vec::new();
    extend_str(&mut v, path);
    extend_str(&mut v, ": ");
    extend_chars(&mut v, &u64_decimal(geom.sectors));
    extend_str(&mut v, " sectors of ");
    extend_chars(&mut v, &u64_decimal(geom.sector_size as u64));
    extend_str(&mut v, " bytes (");
    extend_str(&mut v, human(geom.sectors * (geom.sector_size as u64)).as_str());
    extend_str(&mut v, ")\n");
    match state {
        DiskState::Gpt(g) => {
            let lines = gpt_lines_exec(g, geom.sector_size);
            extend_chars(&mut v, &lines);
        },
        _ => {
            extend_str(&mut v, state.describe().as_str());
            extend_str(&mut v, "\n");
        },
    }
    string_from_chars(&v)
}

proof fn lemma_max_grows(x: Seq<(int, int)>, i: int)
    requires
        0 <= i <= x.len(),
    ensures
        extent_max(x.take(i)) <= extent_max(x),
    decreases x.len() - i,
{
    if i < x.len() {
        lemma_max_grows(x, i + 1);
        assert(x.take(i + 1).drop_last() =~= x.take(i));
    } else {
        assert(x.take(i) =~= x);
    }
}

/// Does every size the listing of `g` prints fit a `u64` in bytes, with
/// sectors of `ss` bytes? The test to pass before `list_report` is called.
pub fn is_listable(g: &Gpt, ss: usize) -> (r: bool)
    requires
        ss > 0,
    ensures
        r == listable(*g, ss as nat),
{
    if !g.extents_in_range() {
        return false;
    }
    let s64 = ss as u64;
    let mut i: usize = 0;
    while i < g.entries.len()
        invariant
            0 <= i <= g.entries@.len(),
            s64 == ss,
            ss > 0,
            forall|j: int| 0 <= j < i ==> (#[trigger] g.entries@[j]).spec_sectors() * ss <= u64::MAX,
        decreases g.entries@.len() - i,
    {
        let e = &g.entries[i];
        if e.is_used() && e.ending_lba >= e.starting_lba {
            let d = e.ending_lba - e.starting_lba;
            if d == u64::MAX {
                assert(e.spec_sectors() * ss > u64::MAX) by (nonlinear_arith)
                    requires
                        e.spec_sectors() == u64::MAX + 1,
                        ss >= 1,
                ;
                return false;
            }
            if (d + 1).checked_mul(s64).is_none() {
                return false;
            }
        }
        i += 1;
    }
    let xs = g.free_extents();
    let ghost x = spec_free_extents(*g);
    let mut total: u64 = 0;
    let mut mx: u64 = 0;
    let mut k: usize = 0;
    proof {
        assert(x.take(0) =~= Seq::<(int, int)>::empty());
    }
    while k < xs.len()
        invariant
            0 <= k <= xs@.len(),
            x == spec_free_extents(*g),
            xs@.len() == x.len(),
            forall|j: int|
                0 <= j < xs@.len() ==> (#[trigger] xs@[j]).start == x[j].0 && xs@[j].end == x[j].1,
            total == extent_total(x.take(k as int)),
            mx == extent_max(x.take(k as int)),
            s64 == ss,
            ss > 0,
        decreases xs@.len() - k,
    {
        let ghost t1 = x.take(k + 1);
        assert(t1.drop_last() =~= x.take(k as int));
        assert(t1.last() == x[k as int]);
        let a = xs[k].start;
        let b = xs[k].end;
        let len = if b >= a {
            if b - a == u64::MAX {
                proof {
                    lemma_max_grows(x, k + 1);
                    lemma_total_nonneg(t1.drop_last());
                    assert(extent_max(x) * ss > u64::MAX) by (nonlinear_arith)
                        requires
                            extent_max(x) > u64::MAX,
                            ss >= 1,
                    ;
                }
                return false;
            }
            b - a + 1
        } else {
            1
        };
        assert(len == extent_len(x[k as int]));
        match total.checked_add(len) {
            None => {
                proof {
                    lemma_total_grows(x, k + 1);
                    assert(extent_total(x) * ss > u64::MAX) by (nonlinear_arith)
                        requires
                            extent_total(x) > u64::MAX,
                            ss >= 1,
                    ;
                }
                return false;
            },
            Some(t) => {
                total = t;
            },
        }
        if len > mx {
            mx = len;
        }
        k += 1;
    }
    proof {
        assert(x.take(x.len() as int) =~= x);
    }
    total.checked_mul(s64).is_some() && mx.checked_mul(s64).is_some()
}

} // verus!
