//! What `part` knows of a device as plain values: its geometry, the disks
//! the kernel lists, and the retry schedule for re-reading a table.
use crate::text::{decimal, extend_chars, extend_str, join_strings, joined, string_from_chars, u64_decimal};
use vstd::prelude::*;

verus! {

/// Default sector size for a regular file, which has no geometry of its own.
pub const FILE_SECTOR_SIZE: usize = 512;

/// How long a re-read of the table keeps being retried while the kernel
/// answers "busy", in milliseconds.
pub const REREAD_BUSY_BUDGET_MS: u64 = 3000;

/// The first wait after a "busy", in milliseconds; it doubles from here.
pub const REREAD_FIRST_WAIT_MS: u64 = 10;

/// The longest single wait, in milliseconds.
pub const REREAD_MAX_WAIT_MS: u64 = 250;

#[derive(Clone, Copy, Debug, PartialEq, Eq)]
pub struct Geometry {
    pub sector_size: usize,
    pub sectors: u64,
}

/// One whole disk as the kernel presents it, with the partition nodes it
/// actually created.
#[derive(Clone, Debug, PartialEq, Eq)]
pub struct DiskEntry {
    /// Kernel name, e.g. `vda` or `nvme0n1`.
    pub name: String,
    /// The `/dev` path.
    pub path: String,
    pub size_bytes: u64,
    /// `(kernel name, 1-based index)`, ascending by index.
    pub partitions: Vec<(String, usize)>,
}

/// The waits between attempts to re-read a partition table the kernel
/// reports busy: doubling from the first wait, capped, and never sleeping
/// past the budget in total.
#[derive(Clone, Copy, Debug, PartialEq, Eq)]
pub struct Backoff {
    /// Milliseconds slept so far.
    pub waited_ms: u64,
    /// The next wait, before the budget caps it.
    pub wait_ms: u64,
    pub budget_ms: u64,
}

pub open spec fn min_int(a: int, b: int) -> int {
    if a <= b {
        a
    } else {
        b
    }
}

impl Backoff {
    /// What every schedule keeps: the total slept is inside the budget, and
    /// no single wait exceeds the cap.
    pub open spec fn inv(&self) -> bool {
        &&& self.waited_ms <= self.budget_ms
        &&& self.wait_ms <= REREAD_MAX_WAIT_MS
    }

    pub fn new(budget_ms: u64) -> (b: Backoff)
        ensures
            b.inv(),
            b.waited_ms == 0,
            b.wait_ms == REREAD_FIRST_WAIT_MS,
            b.budget_ms == budget_ms,
    {
        Backoff { waited_ms: 0, wait_ms: REREAD_FIRST_WAIT_MS, budget_ms }
    }

    /// The kernel said "busy": how long to sleep before asking again, or
    /// `None` once the budget is spent.
    pub fn on_busy(&mut self) -> (nap: Option<u64>)
        requires
            old(self).inv(),
        ensures
            final(self).inv(),
            final(self).budget_ms == old(self).budget_ms,
            old(self).waited_ms >= old(self).budget_ms ==> (nap is None && *final(self) == *old(self)),
            old(self).waited_ms < old(self).budget_ms ==> (nap matches Some(n) && n == min_int(
                old(self).wait_ms as int,
                old(self).budget_ms - old(self).waited_ms,
            ) && final(self).waited_ms == old(self).waited_ms + n && final(self).wait_ms
                == min_int(2 * old(self).wait_ms, REREAD_MAX_WAIT_MS as int)),
    {
        if self.waited_ms >= self.budget_ms {
            return None;
        }
        let left = self.budget_ms - self.waited_ms;
        let nap = if self.wait_ms <= left {
            self.wait_ms
        } else {
            left
        };
        self.waited_ms = self.waited_ms + nap;
        let doubled = self.wait_ms * 2;
        self.wait_ms = if doubled <= REREAD_MAX_WAIT_MS {
            doubled
        } else {
            REREAD_MAX_WAIT_MS
        };
        Some(nap)
    }
}

/// The message for a re-read the kernel still refuses once the whole retry
/// budget is spent. `held` describes what holds partitions of the disk.
pub open spec fn busy_text(path: Seq<char>, held: Seq<Seq<char>>) -> Seq<char> {
    if held.len() == 0 {
        path + ": the table was written, but the kernel would not re-read it within "@ + decimal(
            REREAD_BUSY_BUDGET_MS as nat,
        )
            + "ms. No partition of it is mounted, so something was still probing the disk; run the command again, or reboot before formatting"@
    } else {
        path + ": the table was written, but the kernel would not re-read it within "@ + decimal(
            REREAD_BUSY_BUDGET_MS as nat,
        ) + "ms: "@ + joined(held, "; "@) + ". Release it or reboot before formatting"@
    }
}

/// The message for a table the kernel would not re-read in time. It names
/// what holds the disk, because the next move depends on the kind of hold.
pub fn busy_message(path: &str, held: &[String]) -> (s: String)
    ensures
        s@ == busy_text(path@, held@.map_values(|p: String| p@)),
{
    let mut v: Vec<char> = Vec::new();
    extend_str(&mut v, path);
    extend_str(&mut v, ": the table was written, but the kernel would not re-read it within ");
    let ms = u64_decimal(REREAD_BUSY_BUDGET_MS);
    extend_chars(&mut v, &ms);
    if held.len() == 0 {
        extend_str(
            &mut v,
            "ms. No partition of it is mounted, so something was still probing the disk; run the command again, or reboot before formatting",
        );
    } else {
        extend_str(&mut v, "ms: ");
        let j = join_strings(held, "; ");
        extend_chars(&mut v, &j);
        extend_str(&mut v, ". Release it or reboot before formatting");
    }
    string_from_chars(&v)
}

/// The whitespace-separated words of a line.
pub open spec fn words(s: Seq<char>) -> Seq<Seq<char>>
    decreases s.len(),
{
    let t = crate::text::trim_start(s);
    if t.len() == 0 {
        Seq::empty()
    } else {
        let k = word_end(t, 0);
        proof {
            crate::text::lemma_lead_ws(s);
            lemma_word_end(t, 0);
            assert(!crate::text::is_space(t[0]));
            lemma_word_end(t, 1);
        }
        seq![t.take(k)] + words(t.skip(k))
    }
}

/// Where the word starting at `i` ends: the next whitespace, or the end.
pub open spec fn word_end(t: Seq<char>, i: int) -> int
    decreases t.len() - i,
{
    if i >= t.len() || (0 <= i && crate::text::is_space(t[i])) {
        if i >= t.len() { t.len() as int } else { i }
    } else if i < 0 {
        0
    } else {
        word_end(t, i + 1)
    }
}

/// The first line whose source field is `node`, and its target field.
pub open spec fn mount_target(node: Seq<char>, lines: Seq<Seq<char>>) -> Option<Seq<char>>
    decreases lines.len(),
{
    if lines.len() == 0 {
        None
    } else {
        let w = words(lines[0]);
        if w.len() >= 2 && w[0] == node {
            Some(w[1])
        } else {
            mount_target(node, lines.drop_first())
        }
    }
}

pub proof fn lemma_word_end(t: Seq<char>, i: int)
    requires
        0 <= i <= t.len(),
    ensures
        i <= word_end(t, i) <= t.len(),
        forall|j: int| i <= j < word_end(t, i) ==> !crate::text::is_space(#[trigger] t[j]),
        word_end(t, i) < t.len() ==> crate::text::is_space(t[word_end(t, i)]),
    decreases t.len() - i,
{
    if i < t.len() && !crate::text::is_space(t[i]) {
        lemma_word_end(t, i + 1);
    }
}

/// The first two words of a line, as far as it has them.
pub(crate) fn two_words(line: &str) -> (r: (Option<String>, Option<String>))
    ensures
        match r.0 {
            Some(a) => words(line@).len() >= 1 && a@ == words(line@)[0],
            None => words(line@).len() == 0,
        },
        match r.1 {
            Some(b) => words(line@).len() >= 2 && b@ == words(line@)[1],
            None => words(line@).len() < 2,
        },
{
    let v = crate::text::chars_of(line);
    let s0 = crate::text::skip_ws_forward(&v, 0, v.len());
    assert(v@.subrange(0, v@.len() as int) =~= v@);
    proof {
        crate::text::lemma_lead_ws(v@);
    }
    let t0 = crate::text::slice_chars(&v, s0, v.len());
    assert(t0@ == crate::text::trim_start(v@));
    if t0.len() == 0 {
        return (None, None);
    }
    let mut e0: usize = 0;
    while e0 < t0.len() && !crate::text::is_whitespace(t0[e0])
        invariant
            e0 <= t0@.len(),
            word_end(t0@, 0) == word_end(t0@, e0 as int),
        decreases t0@.len() - e0,
    {
        e0 += 1;
    }
    let first = string_from_chars(&crate::text::slice_chars(&t0, 0, e0));
    assert(first@ =~= t0@.take(e0 as int));
    let rest = crate::text::slice_chars(&t0, e0, t0.len());
    assert(rest@ =~= t0@.skip(e0 as int));
    let ghost w = words(line@);
    assert(w == seq![t0@.take(e0 as int)] + words(rest@));
    let s1 = crate::text::skip_ws_forward(&rest, 0, rest.len());
    assert(rest@.subrange(0, rest@.len() as int) =~= rest@);
    proof {
        crate::text::lemma_lead_ws(rest@);
    }
    let t1 = crate::text::slice_chars(&rest, s1, rest.len());
    assert(t1@ == crate::text::trim_start(rest@));
    if t1.len() == 0 {
        return (Some(first), None);
    }
    let mut e1: usize = 0;
    while e1 < t1.len() && !crate::text::is_whitespace(t1[e1])
        invariant
            e1 <= t1@.len(),
            word_end(t1@, 0) == word_end(t1@, e1 as int),
        decreases t1@.len() - e1,
    {
        e1 += 1;
    }
    let second = string_from_chars(&crate::text::slice_chars(&t1, 0, e1));
    assert(second@ =~= t1@.take(e1 as int));
    assert(words(rest@) == seq![t1@.take(e1 as int)] + words(t1@.skip(e1 as int)));
    (Some(first), Some(second))
}

/// Where `node` is mounted, according to the text of `/proc/mounts`:
/// matched on the whole source field, never as a substring.
pub fn mount_target_of(node: &str, mounts: &str) -> (r: Option<String>)
    ensures
        match r {
            Some(t) => mount_target(node@, crate::regman::markdown::lines_from(mounts@, 0)) == Some(t@),
            None => mount_target(node@, crate::regman::markdown::lines_from(mounts@, 0)) is None,
        },
{
    let lines = crate::regman::markdown::lines_of(mounts);
    let ghost ls = crate::regman::markdown::strs(lines@);
    let nv = crate::text::chars_of(node);
    let mut i: usize = 0;
    assert(ls.skip(0) =~= ls);
    while i < lines.len()
        invariant
            i <= lines@.len(),
            ls == crate::regman::markdown::strs(lines@),
            ls == crate::regman::markdown::lines_from(mounts@, 0),
            nv@ == node@,
            mount_target(node@, ls) == mount_target(node@, ls.skip(i as int)),
        decreases lines@.len() - i,
    {
        assert(ls.skip(i as int).drop_first() =~= ls.skip(i + 1));
        assert(ls.skip(i as int)[0] == lines@[i as int]@);
        let (a, b) = two_words(lines[i].as_str());
        match (a, b) {
            (Some(src), Some(target)) => {
                if crate::text::chars_eq(&crate::text::chars_of(src.as_str()), &nv) {
                    assert(mount_target(node@, ls.skip(i as int)) == Some(target@));
                    return Some(target);
                }
            },
            _ => {},
        }
        i += 1;
    }
    assert(ls.skip(lines@.len() as int) =~= Seq::<Seq<char>>::empty());
    None
}

pub open spec fn is_digit(c: char) -> bool {
    '0' <= c && c <= '9'
}

/// The value of an ASCII digit.
pub open spec fn digit_of(c: char) -> nat {
    (c as nat - 48) as nat
}

/// The length of the run of ASCII digits that `s` starts with.
pub open spec fn run_len(s: Seq<char>) -> nat
    decreases s.len(),
{
    if s.len() > 0 && is_digit(s[0]) {
        1 + run_len(s.drop_first())
    } else {
        0
    }
}

/// The value of a run of digits, saturating at `u64::MAX` rather than
/// wrapping.
pub open spec fn sat_value(d: Seq<char>) -> nat
    decreases d.len(),
{
    if d.len() == 0 {
        0
    } else {
        let v = sat_value(d.drop_last()) * 10 + digit_of(d.last());
        if v > u64::MAX {
            u64::MAX as nat
        } else {
            v
        }
    }
}

pub proof fn lemma_run_len(s: Seq<char>)
    ensures
        run_len(s) <= s.len(),
        s.len() > 0 && is_digit(s[0]) ==> run_len(s) >= 1,
        forall|k: int| 0 <= k < run_len(s) ==> is_digit(#[trigger] s[k]),
        run_len(s) < s.len() ==> !is_digit(s[run_len(s) as int]),
    decreases s.len(),
{
    if s.len() > 0 && is_digit(s[0]) {
        lemma_run_len(s.drop_first());
        assert forall|k: int| 0 <= k < run_len(s) implies is_digit(#[trigger] s[k]) by {
            if k > 0 {
                assert(s[k] == s.drop_first()[k - 1]);
            }
        }
    }
}

/// The first `n` characters of `s`.
pub open spec fn prefix(s: Seq<char>, n: nat) -> Seq<char> {
    s.take(n as int)
}

/// `s` without its first `n` characters.
pub open spec fn suffix(s: Seq<char>, n: nat) -> Seq<char> {
    s.skip(n as int)
}

/// Device names in the order a person reads them: runs of digits compare
/// by value, everything else character by character, and a name that ends
/// first comes first.
pub open spec fn natural_order(a: Seq<char>, b: Seq<char>) -> std::cmp::Ordering
    decreases a.len() + b.len(),
{
    if a.len() == 0 && b.len() == 0 {
        std::cmp::Ordering::Equal
    } else if a.len() == 0 {
        std::cmp::Ordering::Less
    } else if b.len() == 0 {
        std::cmp::Ordering::Greater
    } else if is_digit(a[0]) && is_digit(b[0]) {
        let na = run_len(a);
        let nb = run_len(b);
        proof {
            lemma_run_len(a);
            lemma_run_len(b);
        }
        let va = sat_value(prefix(a, na));
        let vb = sat_value(prefix(b, nb));
        if va < vb {
            std::cmp::Ordering::Less
        } else if va > vb {
            std::cmp::Ordering::Greater
        } else {
            natural_order(suffix(a, na), suffix(b, nb))
        }
    } else if a[0] < b[0] {
        std::cmp::Ordering::Less
    } else if a[0] > b[0] {
        std::cmp::Ordering::Greater
    } else {
        natural_order(a.drop_first(), b.drop_first())
    }
}

fn is_ascii_digit(c: char) -> (b: bool)
    ensures
        b == is_digit(c),
{
    '0' <= c && c <= '9'
}

/// `s` from position `i` on.
pub open spec fn from_pos(s: Seq<char>, i: usize) -> Seq<char> {
    s.skip(i as int)
}

proof fn lemma_from_pos(s: Seq<char>, i: usize, k: int)
    requires
        s.len() <= usize::MAX,
        i < s.len(),
        0 <= k,
        i + k <= s.len(),
    ensures
        from_pos(s, i).len() > 0,
        from_pos(s, i)[0] == s[i as int],
        from_pos(s, i).drop_first() == from_pos(s, (i + 1) as usize),
        suffix(from_pos(s, i), k as nat) == from_pos(s, (i + k) as usize),
        from_pos(s, 0) == s,
{
    assert(from_pos(s, i).drop_first() =~= from_pos(s, (i + 1) as usize));
    assert(suffix(from_pos(s, i), k as nat) =~= from_pos(s, (i + k) as usize));
    assert(from_pos(s, 0) =~= s);
}

/// The saturated value of the digit run starting at `i`, and where it ends.
fn take_run(v: &Vec<char>, i: usize) -> (r: (u64, usize))
    requires
        i <= v@.len(),
    ensures
        r.1 == i + run_len(from_pos(v@, i)),
        r.0 == sat_value(prefix(from_pos(v@, i), run_len(from_pos(v@, i)))),
{
    let ghost t = v@.skip(i as int);
    proof {
        lemma_run_len(t);
    }
    let mut n: u64 = 0;
    let mut k = i;
    while k < v.len() && is_ascii_digit(v[k])
        invariant
            i <= k <= v@.len(),
            t == v@.skip(i as int),
            k - i <= run_len(t),
            run_len(t) <= t.len(),
            forall|q: int| 0 <= q < run_len(t) ==> is_digit(#[trigger] t[q]),
            run_len(t) < t.len() ==> !is_digit(t[run_len(t) as int]),
            n == sat_value(t.take(k - i)),
        decreases v@.len() - k,
    {
        assert(t.take(k - i + 1).drop_last() =~= t.take(k - i));
        assert(t.take(k - i + 1).last() == v@[k as int]);
        let d = (v[k] as u32 - 48) as u64;
        let m: u64 = if n > u64::MAX / 10 {
            u64::MAX
        } else {
            n * 10
        };
        n = if m > u64::MAX - d {
            u64::MAX
        } else {
            m + d
        };
        k += 1;
    }
    proof {
        if k - i < run_len(t) {
            assert(is_digit(t[k - i]));
            assert(t[k - i] == v@[k as int]);
        }
    }
    assert(k - i == run_len(t));
    (n, k)
}

/// Compare device names the way a person reads them, so `loop2` comes
/// before `loop10` and `sda9` before `sda10`.
pub fn natural_cmp(a: &str, b: &str) -> (o: std::cmp::Ordering)
    ensures
        o == natural_order(a@, b@),
{
    let av = crate::text::chars_of(a);
    let bv = crate::text::chars_of(b);
    let mut i: usize = 0;
    let mut j: usize = 0;
    let alen = av.len();
    let blen = bv.len();
    assert(from_pos(av@, 0) =~= av@);
    assert(from_pos(bv@, 0) =~= bv@);
    loop
        invariant
            alen == av@.len(),
            blen == bv@.len(),
            i <= av@.len(),
            j <= bv@.len(),
            natural_order(a@, b@) == natural_order(from_pos(av@, i), from_pos(bv@, j)),
            av@ == a@,
            bv@ == b@,
        decreases av@.len() - i + bv@.len() - j,
    {
        if i == av.len() && j == bv.len() {
            return std::cmp::Ordering::Equal;
        }
        if i == av.len() {
            return std::cmp::Ordering::Less;
        }
        if j == bv.len() {
            return std::cmp::Ordering::Greater;
        }
        let ghost x = from_pos(av@, i);
        let ghost y = from_pos(bv@, j);
        if is_ascii_digit(av[i]) && is_ascii_digit(bv[j]) {
            let (va, i2) = take_run(&av, i);
            let (vb, j2) = take_run(&bv, j);
            proof {
                lemma_run_len(x);
                lemma_run_len(y);
                lemma_from_pos(av@, i, i2 - i);
                lemma_from_pos(bv@, j, j2 - j);
            }
            if va < vb {
                return std::cmp::Ordering::Less;
            }
            if va > vb {
                return std::cmp::Ordering::Greater;
            }
            i = i2;
            j = j2;
        } else {
            proof {
                lemma_from_pos(av@, i, 0);
                lemma_from_pos(bv@, j, 0);
            }
            if av[i] < bv[j] {
                return std::cmp::Ordering::Less;
            }
            if av[i] > bv[j] {
                return std::cmp::Ordering::Greater;
            }
            i += 1;
            j += 1;
        }
    }
}

/// `s` with `x` inserted after every element that `x` does not precede: the
/// step of a stable insertion sort under the strict order `lt`.
pub open spec fn insert_stable<T>(lt: spec_fn(T, T) -> bool, s: Seq<T>, x: T) -> Seq<T>
    decreases s.len(),
{
    if s.len() == 0 {
        seq![x]
    } else if lt(x, s.last()) {
        insert_stable(lt, s.drop_last(), x).push(s.last())
    } else {
        s.push(x)
    }
}

/// The stable sort of `s` under the strict order `lt`: equal elements keep
/// their order.
pub open spec fn stable_sorted<T>(lt: spec_fn(T, T) -> bool, s: Seq<T>) -> Seq<T>
    decreases s.len(),
{
    if s.len() == 0 {
        Seq::empty()
    } else {
        insert_stable(lt, stable_sorted(lt, s.drop_last()), s.last())
    }
}

pub proof fn lemma_insert_stable_at<T>(lt: spec_fn(T, T) -> bool, s: Seq<T>, x: T, p: int)
    requires
        0 <= p <= s.len(),
        forall|k: int| p <= k < s.len() ==> lt(x, #[trigger] s[k]),
        p == 0 || !lt(x, s[p - 1]),
    ensures
        insert_stable(lt, s, x) == s.take(p).push(x) + s.skip(p),
    decreases s.len(),
{
    if s.len() == 0 {
        assert(s.take(p).push(x) + s.skip(p) =~= seq![x]);
    } else if p == s.len() {
        assert(s.take(p) =~= s);
        assert(s.take(p).push(x) + s.skip(p) =~= s.push(x));
    } else {
        assert(lt(x, s[s.len() - 1]));
        let t = s.drop_last();
        assert forall|k: int| p <= k < t.len() implies lt(x, #[trigger] t[k]) by {
            assert(t[k] == s[k]);
        }
        lemma_insert_stable_at(lt, t, x, p);
        assert(t.take(p) =~= s.take(p));
        assert((t.take(p).push(x) + t.skip(p)).push(s.last()) =~= s.take(p).push(x) + s.skip(p));
    }
}

/// Does disk `a` come before disk `b` by name, as a person reads names?
pub open spec fn disk_lt(a: DiskEntry, b: DiskEntry) -> bool {
    natural_order(a.name@, b.name@) == std::cmp::Ordering::Less
}

/// Does partition `a` come before `b` by index?
pub open spec fn member_lt(a: (String, usize), b: (String, usize)) -> bool {
    a.1 < b.1
}

fn disk_less(a: &DiskEntry, b: &DiskEntry) -> (r: bool)
    ensures
        r == disk_lt(*a, *b),
{
    match natural_cmp(a.name.as_str(), b.name.as_str()) {
        std::cmp::Ordering::Less => true,
        _ => false,
    }
}

/// Disks in name order, as a person reads names, so `loop2` comes before
/// `loop10`; disks whose names read alike keep their order.
pub fn order_disks(disks: Vec<DiskEntry>) -> (out: Vec<DiskEntry>)
    ensures
        out@ == stable_sorted(|a: DiskEntry, b: DiskEntry| disk_lt(a, b), disks@),
{
    let ghost lt = |a: DiskEntry, b: DiskEntry| disk_lt(a, b);
    let ghost orig = disks@;
    let total = disks.len();
    let mut src = disks;
    let mut out: Vec<DiskEntry> = Vec::new();
    let mut i: usize = 0;
    while src.len() > 0
        invariant
            i + src@.len() == total,
            total == orig.len(),
            src@ == orig.skip(i as int),
            out@ == stable_sorted(lt, orig.take(i as int)),
            lt == (|a: DiskEntry, b: DiskEntry| disk_lt(a, b)),
        decreases src@.len(),
    {
        let x = src.remove(0);
        assert(orig.skip(i as int)[0] == x);
        assert(orig.take(i + 1).drop_last() =~= orig.take(i as int));
        assert(orig.take(i + 1).last() == x);
        let mut p: usize = out.len();
        while p > 0 && disk_less(&x, &out[p - 1])
            invariant
                p <= out@.len(),
                forall|k: int| p <= k < out@.len() ==> lt(x, #[trigger] out@[k]),
                lt == (|a: DiskEntry, b: DiskEntry| disk_lt(a, b)),
            decreases p,
        {
            p -= 1;
        }
        proof {
            lemma_insert_stable_at(lt, out@, x, p as int);
        }
        let ghost before = out@;
        out.insert(p, x);
        assert(out@ =~= before.take(p as int).push(x) + before.skip(p as int));
        assert(orig.skip(i as int).drop_first() =~= orig.skip(i + 1));
        i += 1;
    }
    assert(orig.take(i as int) =~= orig);
    out
}

/// Partitions in index order; the kernel's listing of them has none.
pub fn order_members(members: Vec<(String, usize)>) -> (out: Vec<(String, usize)>)
    ensures
        out@ == stable_sorted(|a: (String, usize), b: (String, usize)| member_lt(a, b), members@),
{
    let ghost lt = |a: (String, usize), b: (String, usize)| member_lt(a, b);
    let ghost orig = members@;
    let total = members.len();
    let mut src = members;
    let mut out: Vec<(String, usize)> = Vec::new();
    let mut i: usize = 0;
    while src.len() > 0
        invariant
            i + src@.len() == total,
            total == orig.len(),
            src@ == orig.skip(i as int),
            out@ == stable_sorted(lt, orig.take(i as int)),
            lt == (|a: (String, usize), b: (String, usize)| member_lt(a, b)),
        decreases src@.len(),
    {
        let x = src.remove(0);
        assert(orig.skip(i as int)[0] == x);
        assert(orig.take(i + 1).drop_last() =~= orig.take(i as int));
        assert(orig.take(i + 1).last() == x);
        let mut p: usize = out.len();
        while p > 0 && x.1 < out[p - 1].1
            invariant
                p <= out@.len(),
                forall|k: int| p <= k < out@.len() ==> lt(x, #[trigger] out@[k]),
                lt == (|a: (String, usize), b: (String, usize)| member_lt(a, b)),
            decreases p,
        {
            p -= 1;
        }
        proof {
            lemma_insert_stable_at(lt, out@, x, p as int);
        }
        let ghost before = out@;
        out.insert(p, x);
        assert(out@ =~= before.take(p as int).push(x) + before.skip(p as int));
        assert(orig.skip(i as int).drop_first() =~= orig.skip(i + 1));
        i += 1;
    }
    assert(orig.take(i as int) =~= orig);
    out
}

/// One whole disk as sysfs lists it, or `None` for the zero-length loop and
/// optical slots the kernel always presents: listing those buries the disks
/// that exist. sysfs sizes are in 512-byte units whatever the sector size.
pub fn disk_entry(name: &str, sectors_512: u64, members: Vec<(String, usize)>) -> (r: Option<DiskEntry>)
    requires
        sectors_512 * 512 <= u64::MAX,
    ensures
        sectors_512 == 0 ==> r is None,
        sectors_512 != 0 ==> (r matches Some(d) && d.name@ == name@ && d.path@ == "/dev/"@ + name@
            && d.size_bytes == sectors_512 * 512 && d.partitions@ == stable_sorted(
            |a: (String, usize), b: (String, usize)| member_lt(a, b),
            members@,
        )),
{
    if sectors_512 == 0 {
        return None;
    }
    let mut p: Vec<char> = Vec::new();
    extend_str(&mut p, "/dev/");
    extend_str(&mut p, name);
    Some(
        DiskEntry {
            name: string_from_chars(&crate::text::chars_of(name)),
            path: string_from_chars(&p),
            size_bytes: sectors_512 * 512,
            partitions: order_members(members),
        },
    )
}

} // verus!
