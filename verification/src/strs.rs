//! Sequences of strings: views, literal tables, case-insensitive lookup.

use vstd::prelude::*;
use crate::chars::{self, chars_of, eq_ignore_case_chars};

verus! {

/// The character sequences of a list of strings.
pub open spec fn views(v: Seq<String>) -> Seq<Seq<char>> {
    v.map_values(|s: String| s@)
}

/// The character sequences of a list of string slices.
pub open spec fn str_views(v: Seq<&str>) -> Seq<Seq<char>> {
    v.map_values(|s: &str| s@)
}

/// The characters of an optional string.
pub open spec fn opt_view(o: Option<String>) -> Option<Seq<char>> {
    match o {
        Some(s) => Some(s@),
        None => None,
    }
}

/// An owned copy of a string slice.
pub fn owned(x: &str) -> (r: String)
    ensures
        r@ == x@,
{
    x.to_owned()
}

/// Owned copies of a list of string slices.
pub fn owned_all(lits: &[&str]) -> (r: Vec<String>)
    ensures
        views(r@) == str_views(lits@),
{
    let mut r: Vec<String> = Vec::new();
    let mut i: usize = 0;
    while i < lits.len()
        invariant
            i <= lits.len(),
            views(r@) == str_views(lits@.take(i as int)),
        decreases lits.len() - i,
    {
        let ghost r0 = r@;
        let x = lits[i].to_owned();
        r.push(x);
        i += 1;
        assert(views(r@) =~= views(r0).push(x@));
        assert(lits@.take(i as int) == lits@.take((i - 1) as int).push(lits@[i - 1]));
        assert(str_views(lits@.take(i as int)) =~= str_views(lits@.take((i - 1) as int)).push(x@));
    }
    assert(lits@.take(lits.len() as int) == lits@);
    r
}

/// Position of the first entry equal to `x` ignoring ASCII case, or -1.
pub open spec fn pos_ci(list: Seq<Seq<char>>, x: Seq<char>) -> int
    decreases list.len(),
{
    if list.len() == 0 {
        -1
    } else if chars::lower(list[0]) == chars::lower(x) {
        0
    } else {
        let p = pos_ci(list.drop_first(), x);
        if p < 0 {
            -1
        } else {
            p + 1
        }
    }
}

/// Whether some entry equals `x` ignoring ASCII case.
pub open spec fn has_ci(list: Seq<Seq<char>>, x: Seq<char>) -> bool {
    exists|i: int| 0 <= i < list.len() && chars::lower(list[i]) == chars::lower(x)
}

pub proof fn lemma_pos_ci(list: Seq<Seq<char>>, x: Seq<char>)
    ensures
        -1 <= pos_ci(list, x) < list.len(),
        pos_ci(list, x) >= 0 ==> chars::lower(list[pos_ci(list, x)]) == chars::lower(x),
        pos_ci(list, x) >= 0 ==> forall|j: int| 0 <= j < pos_ci(list, x) ==> chars::lower(list[j]) != chars::lower(x),
        pos_ci(list, x) < 0 ==> forall|j: int| 0 <= j < list.len() ==> chars::lower(list[j]) != chars::lower(x),
        (pos_ci(list, x) >= 0) == has_ci(list, x),
    decreases list.len(),
{
    if list.len() > 0 {
        lemma_pos_ci(list.drop_first(), x);
        if chars::lower(list[0]) != chars::lower(x) {
            assert forall|j: int| 1 <= j < list.len() implies list[j] == list.drop_first()[j - 1] by {}
        }
    }
}

/// The first position of `x` in `list`, ignoring ASCII case.
pub fn find_ci(list: &Vec<String>, x: &str) -> (r: Option<usize>)
    ensures
        match r {
            Some(i) => i == pos_ci(views(list@), x@),
            None => pos_ci(views(list@), x@) == -1,
        },
{
    proof {
        lemma_pos_ci(views(list@), x@);
    }
    let xv = chars_of(x);
    let mut i: usize = 0;
    while i < list.len()
        invariant
            i <= list.len(),
            xv@ == x@,
            forall|j: int| 0 <= j < i ==> chars::lower(views(list@)[j]) != chars::lower(x@),
        decreases list.len() - i,
    {
        let lv = chars_of(list[i].as_str());
        if eq_ignore_case_chars(lv.as_slice(), xv.as_slice()) {
            assert(views(list@)[i as int] == list@[i as int]@);
            assert(chars::lower(views(list@)[i as int]) == chars::lower(x@));
            proof {
                lemma_pos_ci(views(list@), x@);
            }
            let ghost p = pos_ci(views(list@), x@);
            assert(p >= 0);
            assert(!(p < i));
            return Some(i);
        }
        assert(views(list@)[i as int] == list@[i as int]@);
        i += 1;
    }
    None
}

/// Whether `list` holds `x`, ignoring ASCII case.
pub fn any_ci(list: &Vec<String>, x: &str) -> (r: bool)
    ensures
        r == has_ci(views(list@), x@),
        r == (pos_ci(views(list@), x@) >= 0),
{
    proof {
        lemma_pos_ci(views(list@), x@);
    }
    find_ci(list, x).is_some()
}

/// Copies of a list of strings.
pub fn copy_all(v: &[String]) -> (r: Vec<String>)
    ensures
        r@ == v@,
        views(r@) == views(v@),
{
    let mut r: Vec<String> = Vec::new();
    let mut i: usize = 0;
    while i < v.len()
        invariant
            i <= v.len(),
            r@ == v@.take(i as int),
        decreases v.len() - i,
    {
        r.push(v[i].clone());
        i += 1;
        assert(v@.take(i as int) == v@.take((i - 1) as int).push(v@[i - 1]));
    }
    assert(v@.take(v.len() as int) == v@);
    r
}

/// `parts.join(sep)`.
pub open spec fn join(parts: Seq<Seq<char>>, sep: Seq<char>) -> Seq<char>
    decreases parts.len(),
{
    if parts.len() == 0 {
        Seq::empty()
    } else if parts.len() == 1 {
        parts[0]
    } else {
        join(parts.drop_last(), sep) + sep + parts.last()
    }
}

/// Join strings with a separator.
pub fn join_strings(parts: &Vec<String>, sep: &str) -> (r: String)
    ensures
        r@ == join(views(parts@), sep@),
{
    let mut out = String::new();
    let mut i: usize = 0;
    while i < parts.len()
        invariant
            i <= parts.len(),
            out@ == join(views(parts@).take(i as int), sep@),
        decreases parts.len() - i,
    {
        let ghost before = views(parts@).take(i as int);
        assert(views(parts@).take(i + 1).drop_last() == before);
        assert(views(parts@).take(i + 1).last() == parts@[i as int]@);
        if i > 0 {
            chars::push_str(&mut out, sep);
        } else {
            assert(before.len() == 0);
        }
        chars::push_str(&mut out, parts[i].as_str());
        i += 1;
    }
    assert(views(parts@).take(parts.len() as int) == views(parts@));
    out
}

/// Whether `v` holds a string equal to `x`.
pub fn contains_exact(v: &Vec<String>, x: &str) -> (r: bool)
    ensures
        r == views(v@).contains(x@),
{
    let mut i: usize = 0;
    while i < v.len()
        invariant
            i <= v.len(),
            forall|k: int| 0 <= k < i ==> views(v@)[k] != x@,
        decreases v.len() - i,
    {
        assert(views(v@)[i as int] == v@[i as int]@);
        if crate::model::str_eq(v[i].as_str(), x) {
            return true;
        }
        i += 1;
    }
    false
}

} // verus!
