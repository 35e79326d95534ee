//! The documentation corpus: a drop-in directory of `*.regman` fragments,
//! one per provider, the provider being the file's stem.
use crate::regman::scan::{bytes_less, bytes_lt, enc, strings_view};
use crate::text::{chars_of, slice_chars, string_from_chars};
use vstd::prelude::*;

verus! {

/// Default drop-in directory.
pub const DEFAULT_DIR: &'static str = "/usr/share/regman";

/// Default index location (a cache, not under the read-only corpus).
pub const DEFAULT_INDEX: &'static str = "/var/cache/regman/index";

/// `p` without trailing separators or trailing `/.` steps, which name the
/// same file.
pub open spec fn trim_tail(p: Seq<char>) -> Seq<char>
    decreases p.len(),
{
    if p.len() > 1 && p.last() == '/' {
        trim_tail(p.drop_last())
    } else if p.len() > 1 && p.last() == '.' && p[p.len() - 2] == '/' {
        trim_tail(p.drop_last())
    } else {
        p
    }
}

/// The index of the last `c` in `s`, if any.
pub open spec fn last_index(s: Seq<char>, c: char) -> Option<int>
    decreases s.len(),
{
    if s.len() == 0 {
        None
    } else if s.last() == c {
        Some(s.len() - 1)
    } else {
        last_index(s.drop_last(), c)
    }
}

/// The final component of a path, when it names a file.
pub open spec fn file_name(p: Seq<char>) -> Option<Seq<char>> {
    let t = trim_tail(p);
    let name = match last_index(t, '/') {
        Some(i) => t.skip(i + 1),
        None => t,
    };
    if name.len() == 0 || name == seq!['.'] || name == seq!['.', '.'] {
        None
    } else {
        Some(name)
    }
}

/// A file name's stem and extension: split at its last dot, unless that
/// dot begins the name.
pub open spec fn split_ext(name: Seq<char>) -> (Seq<char>, Option<Seq<char>>) {
    match last_index(name, '.') {
        Some(i) => if i == 0 {
            (name, None)
        } else {
            (name.take(i), Some(name.skip(i + 1)))
        },
        None => (name, None),
    }
}

/// The provider a fragment documents: its file stem, or `?`.
pub open spec fn provider_text(p: Seq<char>) -> Seq<char> {
    match file_name(p) {
        Some(n) => split_ext(n).0,
        None => seq!['?'],
    }
}

/// Is the path a fragment: does its file name carry the `regman` extension?
pub open spec fn is_fragment_path(p: Seq<char>) -> bool {
    match file_name(p) {
        Some(n) => split_ext(n).1 == Some(seq!['r', 'e', 'g', 'm', 'a', 'n']),
        None => false,
    }
}

fn last_index_of(v: &Vec<char>, c: char) -> (r: Option<usize>)
    ensures
        match r {
            Some(i) => last_index(v@, c) == Some(i as int) && i < v@.len(),
            None => last_index(v@, c) is None,
        },
{
    let mut i = v.len();
    assert(v@.take(v@.len() as int) =~= v@);
    while i > 0
        invariant
            i <= v@.len(),
            last_index(v@, c) == last_index(v@.take(i as int), c),
        decreases i,
    {
        assert(v@.take(i as int).drop_last() =~= v@.take(i - 1));
        if v[i - 1] == c {
            return Some(i - 1);
        }
        i -= 1;
    }
    None
}

fn file_name_of(path: &str) -> (r: Option<Vec<char>>)
    ensures
        match r {
            Some(n) => file_name(path@) == Some(n@),
            None => file_name(path@) is None,
        },
{
    let v = chars_of(path);
    let mut end = v.len();
    assert(v@.take(end as int) =~= v@);
    loop
        invariant
            end <= v@.len(),
            trim_tail(v@) == trim_tail(v@.take(end as int)),
        ensures
            end <= v@.len(),
            trim_tail(v@) == v@.take(end as int),
        decreases end,
    {
        if end > 1 && v[end - 1] == '/' {
            assert(v@.take(end as int).drop_last() =~= v@.take(end - 1));
            end -= 1;
        } else if end > 1 && v[end - 1] == '.' && v[end - 2] == '/' {
            assert(v@.take(end as int).drop_last() =~= v@.take(end - 1));
            end -= 1;
        } else {
            assert(trim_tail(v@.take(end as int)) == v@.take(end as int));
            break;
        }
    }
    let t = slice_chars(&v, 0, end);
    assert(t@ =~= v@.take(end as int));
    let ghost tv = t@;
    let name = match last_index_of(&t, '/') {
        Some(i) => {
            let r = slice_chars(&t, i + 1, t.len());
            assert(r@ =~= tv.skip(i + 1));
            r
        },
        None => t,
    };
    assert(name@ == match last_index(tv, '/') {
        Some(i) => tv.skip(i + 1),
        None => tv,
    });
    if name.len() == 0 || (name.len() == 1 && name[0] == '.') || (name.len() == 2 && name[0] == '.'
        && name[1] == '.') {
        assert(name@.len() == 0 || name@ =~= seq!['.'] || name@ =~= seq!['.', '.']);
        None
    } else {
        assert(name@ != seq!['.']);
        assert(name@ != seq!['.', '.']);
        Some(name)
    }
}

/// The provider name for a fragment path: the file stem.
pub fn provider_of(path: &str) -> (s: String)
    ensures
        s@ == provider_text(path@),
{
    match file_name_of(path) {
        Some(n) => match last_index_of(&n, '.') {
            Some(i) => if i == 0 {
                string_from_chars(&n)
            } else {
                string_from_chars(&slice_chars(&n, 0, i))
            },
            None => string_from_chars(&n),
        },
        None => {
            let mut v: Vec<char> = Vec::new();
            v.push('?');
            string_from_chars(&v)
        },
    }
}

/// Does the path name a `*.regman` fragment?
pub fn is_fragment(path: &str) -> (b: bool)
    ensures
        b == is_fragment_path(path@),
{
    match file_name_of(path) {
        Some(n) => match last_index_of(&n, '.') {
            Some(i) => {
                if i == 0 {
                    return false;
                }
                let len = n.len();
                assert(i < len);
                let e = slice_chars(&n, i + 1, len);
                let b = e.len() == 6 && e[0] == 'r' && e[1] == 'e' && e[2] == 'g' && e[3] == 'm'
                    && e[4] == 'a' && e[5] == 'n';
                assert(b ==> e@ =~= seq!['r', 'e', 'g', 'm', 'a', 'n']);
                b
            },
            None => false,
        },
        None => false,
    }
}

pub open spec fn insert_path(s: Seq<Seq<char>>, x: Seq<char>) -> Seq<Seq<char>>
    decreases s.len(),
{
    if s.len() == 0 {
        seq![x]
    } else if bytes_lt(enc(x), enc(s.last())) {
        insert_path(s.drop_last(), x).push(s.last())
    } else {
        s.push(x)
    }
}

/// The fragment paths among `ps`, in byte order.
pub open spec fn fragment_paths(ps: Seq<Seq<char>>) -> Seq<Seq<char>>
    decreases ps.len(),
{
    if ps.len() == 0 {
        Seq::empty()
    } else if is_fragment_path(ps.last()) {
        insert_path(fragment_paths(ps.drop_last()), ps.last())
    } else {
        fragment_paths(ps.drop_last())
    }
}

proof fn lemma_insert_path_at(s: Seq<Seq<char>>, x: Seq<char>, p: int)
    requires
        0 <= p <= s.len(),
        forall|k: int| p <= k < s.len() ==> bytes_lt(enc(x), enc(#[trigger] s[k])),
        p == 0 || !bytes_lt(enc(x), enc(s[p - 1])),
    ensures
        insert_path(s, x) == s.take(p).push(x) + s.skip(p),
    decreases s.len(),
{
    if s.len() == 0 {
        assert(s.take(p).push(x) + s.skip(p) =~= seq![x]);
    } else if p == s.len() {
        assert(s.take(p) =~= s);
        assert(s.take(p).push(x) + s.skip(p) =~= s.push(x));
    } else {
        assert(bytes_lt(enc(x), enc(s[s.len() - 1])));
        let t = s.drop_last();
        assert forall|k: int| p <= k < t.len() implies bytes_lt(enc(x), enc(#[trigger] t[k])) by {
            assert(t[k] == s[k]);
        }
        lemma_insert_path_at(t, x, p);
        assert(t.take(p) =~= s.take(p));
        assert((t.take(p).push(x) + t.skip(p)).push(s.last()) =~= s.take(p).push(x) + s.skip(p));
    }
}

/// The `*.regman` fragments among a directory's entries, sorted by path for
/// determinism.
pub fn fragments(paths: &[String]) -> (out: Vec<String>)
    ensures
        strings_view(out@) == fragment_paths(strings_view(paths@)),
{
    let ghost pv = strings_view(paths@);
    let mut out: Vec<String> = Vec::new();
    let mut i: usize = 0;
    while i < paths.len()
        invariant
            i <= paths@.len(),
            pv == strings_view(paths@),
            strings_view(out@) == fragment_paths(pv.take(i as int)),
        decreases paths@.len() - i,
    {
        assert(pv.take(i + 1).drop_last() =~= pv.take(i as int));
        let x = &paths[i];
        if is_fragment(x.as_str()) {
            let ghost s = strings_view(out@);
            let mut p: usize = out.len();
            while p > 0 && bytes_less(x.as_str().as_bytes(), out[p - 1].as_str().as_bytes())
                invariant
                    p <= out@.len(),
                    s == strings_view(out@),
                    forall|k: int| p <= k < s.len() ==> bytes_lt(enc(x@), enc(#[trigger] s[k])),
                decreases p,
            {
                p -= 1;
            }
            proof {
                lemma_insert_path_at(s, x@, p as int);
            }
            out.insert(p, x.clone());
            assert(strings_view(out@) =~= s.take(p as int).push(x@) + s.skip(p as int));
        }
        i += 1;
    }
    assert(pv.take(paths@.len() as int) =~= pv);
    out
}

} // verus!
