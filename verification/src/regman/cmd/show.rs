//! `regman <path> [value]`: the path as the lookup reads it.
use crate::regman::fold::{fold, fold_text};
use crate::text::{chars_of, extend_str, parse_u64_chars, parse_u64_spec, string_from_chars};
use vstd::prelude::*;

verus! {

pub open spec fn backslashed(s: Seq<char>) -> Seq<char> {
    s.map_values(|c: char| if c == '/' { '\\' } else { c })
}

/// A path with forward slashes as backslashes, one trailing separator
/// dropped.
pub open spec fn normalized(s: Seq<char>) -> Seq<char> {
    let p = backslashed(s);
    if p.len() > 0 && p.last() == '\\' {
        p.drop_last()
    } else {
        p
    }
}

/// Registry paths normalise forward slashes to backslashes; a trailing
/// separator is dropped.
pub fn normalize(path: &str) -> (s: String)
    ensures
        s@ == normalized(path@),
{
    let mut v: Vec<char> = Vec::new();
    for c in it: path.chars()
        invariant
            it.seq() == path@,
            v@ == backslashed(path@.take(it.index() as int)),
    {
        v.push(if c == '/' { '\\' } else { c });
        assert(backslashed(path@.take(it.index() + 1)) =~= backslashed(path@.take(it.index() as int)).push(
            if c == '/' { '\\' } else { c },
        ));
    }
    assert(path@.take(path@.len() as int) =~= path@);
    if v.len() > 0 && v[v.len() - 1] == '\\' {
        v.pop();
    }
    string_from_chars(&v)
}

/// The text width for rendering, from `$COLUMNS`: what it says when that is
/// a number of at least 20, else 80, less a margin of 2.
pub open spec fn width_for(columns: Option<Seq<char>>) -> int {
    match columns {
        Some(c) => match parse_u64_spec(c) {
            Some(w) => if 20 <= w && w <= usize::MAX {
                w - 2
            } else {
                78
            },
            None => 78,
        },
        None => 78,
    }
}

pub fn term_width(columns: Option<&str>) -> (w: usize)
    ensures
        w == width_for(
            match columns {
                Some(c) => Some(c@),
                None => None,
            },
        ),
{
    match columns {
        Some(c) => {
            let v = chars_of(c);
            assert(v@.subrange(0, v@.len() as int) =~= v@);
            match parse_u64_chars(&v, 0, v.len()) {
                Some(w) => if 20 <= w && w <= usize::MAX as u64 {
                    (w - 2) as usize
                } else {
                    78
                },
                None => 78,
            }
        },
        None => 78,
    }
}

/// What a lookup asks of the corpus.
pub enum Lookup {
    /// One value: the folded anchor to find, and how to name it when absent.
    Exact { anchor: String, label: String },
    /// A key and the values directly under it: its folded path, and the
    /// path as the user wrote it (normalised).
    Key { folded: String, path: String },
}

/// The lookup for `regman <path> [value]`: the path normalised; with a
/// value, the anchor `fold(path) fold(value)`; without, the folded path.
pub fn lookup_of(path: &str, value: Option<&str>) -> (q: Lookup)
    ensures
        match value {
            Some(v) => q matches Lookup::Exact { anchor, label } && anchor@ == fold_text(normalized(path@))
                + " "@ + fold_text(v@) && label@ == normalized(path@) + " "@ + v@,
            None => q matches Lookup::Key { folded, path: p } && folded@ == fold_text(normalized(path@))
                && p@ == normalized(path@),
        },
{
    let p = normalize(path);
    match value {
        Some(v) => {
            let mut a: Vec<char> = Vec::new();
            extend_str(&mut a, fold(p.as_str()).as_str());
            extend_str(&mut a, " ");
            extend_str(&mut a, fold(v).as_str());
            let mut l: Vec<char> = Vec::new();
            extend_str(&mut l, p.as_str());
            extend_str(&mut l, " ");
            extend_str(&mut l, v);
            Lookup::Exact { anchor: string_from_chars(&a), label: string_from_chars(&l) }
        },
        None => Lookup::Key { folded: fold(p.as_str()), path: p },
    }
}

} // verus!
