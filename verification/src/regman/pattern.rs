//! Wildcard path components in an anchor.
//!
//! A `<…>` segment matches exactly one path component: one or more bytes
//! that are neither `\` nor a space. `<name...>` (a `...` just inside the
//! closing bracket) also spans separators. Neither form crosses a space, so
//! a key-path wildcard can never swallow the value name after it, and both
//! demand at least one byte. A `<` with no `>` after it is literal.
use vstd::prelude::*;

verus! {

/// What must hold of the anchor left over once the query runs out.
#[derive(Clone, Copy, Debug, PartialEq, Eq)]
pub enum Tail {
    /// Nothing may be left: the anchor names exactly the query.
    Exact,
    /// Nothing, or a space and a value name: the key doc or one of its
    /// directly attached values.
    UnderKey,
}

pub open spec fn tail_ok(kind: Tail, rest: Seq<u8>) -> bool {
    match kind {
        Tail::Exact => rest.len() == 0,
        Tail::UnderKey => rest.len() == 0 || rest[0] == 0x20,
    }
}

/// The first index at or after `i` holding byte `b`.
pub open spec fn find_from(a: Seq<u8>, b: u8, i: int) -> Option<int>
    decreases a.len() - i,
{
    if i < 0 || i >= a.len() {
        None
    } else if a[i] == b {
        Some(i)
    } else {
        find_from(a, b, i + 1)
    }
}

pub open spec fn ends_with_dots(s: Seq<u8>) -> bool {
    s.len() >= 3 && s[s.len() - 1] == 0x2e && s[s.len() - 2] == 0x2e && s[s.len() - 3] == 0x2e
}

/// May a wildcard consume byte `c`?
pub open spec fn wild_byte(c: u8, spans: bool) -> bool {
    c != 0x20 && (spans || c != 0x5c)
}

/// Does the anchor pattern `a` match the query `q`, with `kind` judging
/// what is left of the anchor when the query runs out?
pub open spec fn walk(a: Seq<u8>, q: Seq<u8>, kind: Tail) -> bool
    decreases a.len(), q.len(), 0int,
{
    if q.len() == 0 {
        tail_ok(kind, a)
    } else if a.len() == 0 {
        false
    } else if a[0] == 0x3c && find_from(a, 0x3e, 0) is Some {
        let close = find_from(a, 0x3e, 0)->0;
        if 0 < close < a.len() {
            wild(a.skip(close + 1), q, ends_with_dots(a.subrange(1, close)), kind, 0)
        } else {
            false
        }
    } else if a[0] == q[0] {
        walk(a.skip(1), q.skip(1), kind)
    } else {
        false
    }
}

/// A wildcard has consumed `q[..n]` so far: may it consume `q[n]` and let
/// `rest` match what follows, now or after consuming more?
pub open spec fn wild(rest: Seq<u8>, q: Seq<u8>, spans: bool, kind: Tail, n: int) -> bool
    decreases rest.len() + 1, q.len() - n, 1int,
{
    if 0 <= n < q.len() && wild_byte(q[n], spans) {
        walk(rest, q.skip(n + 1), kind) || wild(rest, q, spans, kind, n + 1)
    } else {
        false
    }
}

/// The bytes a string's text is stored as.
pub open spec fn bytes_of(s: &str) -> Seq<u8> {
    vstd::utf8::encode_utf8(s@)
}

pub open spec fn has_lt(a: Seq<u8>) -> bool {
    exists|i: int| 0 <= i < a.len() && a[i] == 0x3c
}

/// Does `anchor` denote exactly the `(path, value)` the query names?
pub open spec fn exact_spec(a: Seq<u8>, q: Seq<u8>) -> bool {
    if !has_lt(a) {
        a == q
    } else {
        walk(a, q, Tail::Exact)
    }
}

/// Does `anchor` belong to the key the query names: the key doc itself, or
/// one of its directly-attached values?
pub open spec fn under_key_spec(a: Seq<u8>, q: Seq<u8>) -> bool {
    if !has_lt(a) {
        a == q || (a.len() > q.len() && a.take(q.len() as int) == q && a[q.len() as int] == 0x20)
    } else {
        walk(a, q, Tail::UnderKey)
    }
}

/// Does a `<…...>` spanning wildcard occur at or after `i`? The bracket scan
/// is the one `walk` makes: the first `>` after a `<` closes it, and a `<`
/// with no `>` after it is literal, as is every `<` after that.
pub open spec fn spans_from(a: Seq<u8>, i: int) -> bool
    decreases a.len() - i,
{
    if i < 0 || i >= a.len() {
        false
    } else if a[i] != 0x3c {
        spans_from(a, i + 1)
    } else {
        match find_from(a, 0x3e, i) {
            None => false,
            Some(close) => if i < close < a.len() {
                ends_with_dots(a.subrange(i + 1, close)) || spans_from(a, close + 1)
            } else {
                false
            },
        }
    }
}

pub proof fn lemma_find_from_range(a: Seq<u8>, b: u8, i: int)
    requires
        0 <= i,
    ensures
        find_from(a, b, i) matches Some(k) ==> i <= k < a.len() && a[k] == b && forall|j: int|
            i <= j < k ==> a[j] != b,
        find_from(a, b, i) is None ==> forall|j: int| i <= j < a.len() ==> a[j] != b,
    decreases a.len() - i,
{
    if i < a.len() && a[i] != b {
        lemma_find_from_range(a, b, i + 1);
    }
}

pub(crate) fn find_byte(a: &[u8], b: u8, i: usize) -> (r: Option<usize>)
    requires
        i <= a@.len(),
    ensures
        r matches Some(k) ==> find_from(a@, b, i as int) == Some(k as int) && i <= k < a@.len(),
        r is None ==> find_from(a@, b, i as int) is None,
{
    proof {
        lemma_find_from_range(a@, b, i as int);
    }
    let mut j = i;
    while j < a.len()
        invariant
            i <= j <= a@.len(),
            find_from(a@, b, i as int) == find_from(a@, b, j as int),
        decreases a@.len() - j,
    {
        if a[j] == b {
            return Some(j);
        }
        j += 1;
    }
    None
}

fn dots_before(a: &[u8], lo: usize, hi: usize) -> (r: bool)
    requires
        lo <= hi <= a@.len(),
    ensures
        r == ends_with_dots(a@.subrange(lo as int, hi as int)),
{
    hi - lo >= 3 && a[hi - 1] == 0x2e && a[hi - 2] == 0x2e && a[hi - 3] == 0x2e
}

/// Could this anchor contain a wildcard? A cheap gate: a `<` with no `>`
/// is literal, so a yes here may still match as plain equality would.
pub fn has_wildcard(anchor: &str) -> (r: bool)
    ensures
        r == has_lt(bytes_of(anchor)),
{
    let a = anchor.as_bytes();
    let mut i: usize = 0;
    while i < a.len()
        invariant
            i <= a@.len(),
            a@ == bytes_of(anchor),
            forall|j: int| 0 <= j < i ==> a@[j] != 0x3c,
        decreases a@.len() - i,
    {
        if a[i] == 0x3c {
            return true;
        }
        i += 1;
    }
    false
}

/// Does this anchor carry a `<…...>` that spans separators?
pub fn spans_components(anchor: &str) -> (r: bool)
    ensures
        r == spans_from(bytes_of(anchor), 0),
{
    let a = anchor.as_bytes();
    let mut i: usize = 0;
    while i < a.len()
        invariant
            i <= a@.len(),
            a@ == bytes_of(anchor),
            spans_from(a@, 0) == spans_from(a@, i as int),
        decreases a@.len() - i,
    {
        if a[i] != 0x3c {
            i += 1;
            continue;
        }
        let close = match find_byte(a, 0x3e, i) {
            Some(c) => c,
            None => {
                return false;
            },
        };
        if close == i {
            assert(a@[i as int] == 0x3c);
            return false;
        }
        if dots_before(a, i + 1, close) {
            return true;
        }
        i = close + 1;
    }
    false
}

fn walk_exec(a: &[u8], ai: usize, q: &[u8], qi: usize, kind: Tail) -> (r: bool)
    requires
        ai <= a@.len(),
        qi <= q@.len(),
    ensures
        r == walk(a@.skip(ai as int), q@.skip(qi as int), kind),
    decreases a@.len() - ai, q@.len() - qi, 0int,
{
    let ghost sa = a@.skip(ai as int);
    let ghost sq = q@.skip(qi as int);
    if qi == q.len() {
        return match kind {
            Tail::Exact => ai == a.len(),
            Tail::UnderKey => ai == a.len() || a[ai] == 0x20,
        };
    }
    if ai == a.len() {
        return false;
    }
    if a[ai] == 0x3c {
        match find_byte(a, 0x3e, ai) {
            Some(close) => {
                proof {
                    lemma_find_shift(a@, 0x3e, ai as int);
                }
                if close == ai {
                    return false;
                }
                let spans = dots_before(a, ai + 1, close);
                proof {
                    assert(sa.subrange(1, close - ai) =~= a@.subrange(ai + 1, close as int));
                    assert(sa.skip(close - ai + 1) =~= a@.skip(close + 1));
                }
                return wild_exec(a, close + 1, q, qi, spans, kind, 0);
            },
            None => {
                proof {
                    lemma_find_shift(a@, 0x3e, ai as int);
                }
            },
        }
    }
    if a[ai] == q[qi] {
        proof {
            assert(sa.skip(1) =~= a@.skip(ai + 1));
            assert(sq.skip(1) =~= q@.skip(qi + 1));
        }
        walk_exec(a, ai + 1, q, qi + 1, kind)
    } else {
        false
    }
}

fn wild_exec(a: &[u8], ri: usize, q: &[u8], qi: usize, spans: bool, kind: Tail, n: usize) -> (r:
    bool)
    requires
        1 <= ri <= a@.len(),
        qi <= q@.len(),
    ensures
        r == wild(a@.skip(ri as int), q@.skip(qi as int), spans, kind, n as int),
    decreases a@.len() - ri + 1, q@.len() - qi - n, 1int,
{
    let ghost sq = q@.skip(qi as int);
    if n < q.len() - qi && (q[qi + n] != 0x20 && (spans || q[qi + n] != 0x5c)) {
        assert(sq[n as int] == q@[qi + n]);
        assert(sq.skip(n + 1) =~= q@.skip(qi + n + 1));
        if walk_exec(a, ri, q, qi + n + 1, kind) {
            return true;
        }
        wild_exec(a, ri, q, qi, spans, kind, n + 1)
    } else {
        proof {
            if n < q.len() - qi {
                assert(sq[n as int] == q@[qi + n]);
            }
        }
        false
    }
}

proof fn lemma_find_shift(a: Seq<u8>, b: u8, i: int)
    requires
        0 <= i <= a.len(),
    ensures
        match find_from(a, b, i) {
            Some(k) => find_from(a.skip(i), b, 0) == Some(k - i),
            None => find_from(a.skip(i), b, 0) is None,
        },
    decreases a.len() - i,
{
    lemma_find_shift_gen(a, b, i, 0);
}

proof fn lemma_find_shift_gen(a: Seq<u8>, b: u8, i: int, j: int)
    requires
        0 <= i <= a.len(),
        0 <= j,
    ensures
        match find_from(a, b, i + j) {
            Some(k) => find_from(a.skip(i), b, j) == Some(k - i),
            None => find_from(a.skip(i), b, j) is None,
        },
    decreases a.len() - i - j,
{
    if i + j < a.len() {
        assert(a.skip(i)[j] == a[i + j]);
        if a[i + j] != b {
            lemma_find_shift_gen(a, b, i, j + 1);
        }
    }
}

/// Does `anchor` denote the exact `(path, value)` named by `query`? Byte
/// equality for a wildcard-free anchor.
pub fn matches_exact(anchor: &str, query: &str) -> (r: bool)
    ensures
        r == exact_spec(bytes_of(anchor), bytes_of(query)),
{
    let a = anchor.as_bytes();
    let q = query.as_bytes();
    if !has_wildcard(anchor) {
        return bytes_eq(a, q);
    }
    assert(a@.skip(0) =~= a@);
    assert(q@.skip(0) =~= q@);
    walk_exec(a, 0, q, 0, Tail::Exact)
}

/// Does `anchor` belong to the key `query`: the key doc itself, or one of
/// its directly attached values? The trailing-space test keeps a sibling key
/// (`...\kmesfoo`) from answering for `...\kmes`.
pub fn matches_under_key(anchor: &str, query: &str) -> (r: bool)
    ensures
        r == under_key_spec(bytes_of(anchor), bytes_of(query)),
{
    let a = anchor.as_bytes();
    let q = query.as_bytes();
    if !has_wildcard(anchor) {
        if bytes_eq(a, q) {
            return true;
        }
        if a.len() > q.len() {
            let p = bytes_eq(&a[0..q.len()], q);
            assert(a@.subrange(0, q@.len() as int) =~= a@.take(q@.len() as int));
            return p && a[q.len()] == 0x20;
        }
        return false;
    }
    assert(a@.skip(0) =~= a@);
    assert(q@.skip(0) =~= q@);
    walk_exec(a, 0, q, 0, Tail::UnderKey)
}

fn bytes_eq(a: &[u8], b: &[u8]) -> (r: bool)
    ensures
        r == (a@ == b@),
{
    if a.len() != b.len() {
        return false;
    }
    let mut i: usize = 0;
    while i < a.len()
        invariant
            a@.len() == b@.len(),
            i <= a@.len(),
            forall|j: int| 0 <= j < i ==> a@[j] == b@[j],
        decreases a@.len() - i,
    {
        if a[i] != b[i] {
            return false;
        }
        i += 1;
    }
    assert(a@ =~= b@);
    true
}

pub open spec fn has_space(s: Seq<u8>) -> bool {
    exists|i: int| 0 <= i < s.len() && s[i] == 0x20
}

proof fn lemma_walk_exact_under(a: Seq<u8>, q: Seq<u8>)
    ensures
        walk(a, q, Tail::Exact) ==> walk(a, q, Tail::UnderKey),
    decreases a.len(), q.len(), 0int,
{
    if q.len() == 0 || a.len() == 0 {
    } else if a[0] == 0x3c && find_from(a, 0x3e, 0) is Some {
        let close = find_from(a, 0x3e, 0)->0;
        if 0 < close < a.len() {
            lemma_wild_exact_under(a.skip(close + 1), q, ends_with_dots(a.subrange(1, close)), 0);
        }
    } else if a[0] == q[0] {
        lemma_walk_exact_under(a.skip(1), q.skip(1));
    }
}

proof fn lemma_wild_exact_under(rest: Seq<u8>, q: Seq<u8>, spans: bool, n: int)
    ensures
        wild(rest, q, spans, Tail::Exact, n) ==> wild(rest, q, spans, Tail::UnderKey, n),
    decreases rest.len() + 1, q.len() - n, 1int,
{
    if 0 <= n < q.len() && wild_byte(q[n], spans) {
        lemma_walk_exact_under(rest, q.skip(n + 1));
        lemma_wild_exact_under(rest, q, spans, n + 1);
    }
}

/// An anchor that names a query exactly also belongs to that query's key:
/// a key query always finds the key doc itself.
pub proof fn lemma_exact_is_under_key(a: Seq<u8>, q: Seq<u8>)
    ensures
        exact_spec(a, q) ==> under_key_spec(a, q),
{
    lemma_walk_exact_under(a, q);
}

proof fn lemma_walk_no_space(a: Seq<u8>, q: Seq<u8>)
    requires
        !has_space(a),
        has_space(q),
    ensures
        !walk(a, q, Tail::Exact),
    decreases a.len(), q.len(), 0int,
{
    let p = choose|i: int| 0 <= i < q.len() && q[i] == 0x20;
    if q.len() == 0 || a.len() == 0 {
    } else if a[0] == 0x3c && find_from(a, 0x3e, 0) is Some {
        let close = find_from(a, 0x3e, 0)->0;
        if 0 < close < a.len() {
            let rest = a.skip(close + 1);
            assert(!has_space(rest)) by {
                if has_space(rest) {
                    let j = choose|j: int| 0 <= j < rest.len() && rest[j] == 0x20;
                    assert(a[close + 1 + j] == 0x20);
                }
            }
            lemma_wild_no_space(rest, q, ends_with_dots(a.subrange(1, close)), 0, p);
        }
    } else if a[0] == q[0] {
        assert(a[0] != 0x20);
        assert(p >= 1);
        assert(q.skip(1)[p - 1] == 0x20);
        assert(!has_space(a.skip(1))) by {
            if has_space(a.skip(1)) {
                let j = choose|j: int| 0 <= j < a.skip(1).len() && a.skip(1)[j] == 0x20;
                assert(a[1 + j] == 0x20);
            }
        }
        lemma_walk_no_space(a.skip(1), q.skip(1));
    }
}

proof fn lemma_wild_no_space(rest: Seq<u8>, q: Seq<u8>, spans: bool, n: int, p: int)
    requires
        !has_space(rest),
        0 <= n <= p < q.len(),
        q[p] == 0x20,
    ensures
        !wild(rest, q, spans, Tail::Exact, n),
    decreases rest.len() + 1, q.len() - n, 1int,
{
    if 0 <= n < q.len() && wild_byte(q[n], spans) {
        assert(p > n);
        assert(q.skip(n + 1)[p - n - 1] == 0x20);
        lemma_walk_no_space(rest, q.skip(n + 1));
        lemma_wild_no_space(rest, q, spans, n + 1, p);
    }
}

/// A wildcard never crosses the space between a key path and a value name:
/// an anchor with no space in it never names a query that has one, so a
/// key-path pattern cannot answer for a value doc.
pub proof fn lemma_no_space_crossing(a: Seq<u8>, q: Seq<u8>)
    requires
        !has_space(a),
        has_space(q),
    ensures
        !exact_spec(a, q),
{
    lemma_walk_no_space(a, q);
}

} // verus!
