//! Word-level scanning: whitespace-separated words and stripping characters
//! of a class from either end.

use vstd::prelude::*;
use crate::chars::{self, is_ws_exec, is_alphanumeric, slice_of};

verus! {

/// Words finished so far and the word in progress.
pub open spec fn words_state(s: Seq<char>) -> (Seq<Seq<char>>, Seq<char>)
    decreases s.len(),
{
    if s.len() == 0 {
        (Seq::empty(), Seq::empty())
    } else {
        let prev = words_state(s.drop_last());
        if chars::is_ws(s.last()) {
            if prev.1.len() > 0 { (prev.0.push(prev.1), Seq::empty()) } else { prev }
        } else {
            (prev.0, prev.1.push(s.last()))
        }
    }
}

/// `split_whitespace()`: the maximal runs of non-whitespace characters.
pub open spec fn words_of(s: Seq<char>) -> Seq<Seq<char>> {
    let st = words_state(s);
    if st.1.len() > 0 { st.0.push(st.1) } else { st.0 }
}

pub open spec fn vecs_view(v: Seq<Vec<char>>) -> Seq<Seq<char>> {
    v.map_values(|w: Vec<char>| w@)
}

pub fn split_words(s: &[char]) -> (r: Vec<Vec<char>>)
    ensures
        vecs_view(r@) == words_of(s@),
{
    let mut done: Vec<Vec<char>> = Vec::new();
    let mut cur: Vec<char> = Vec::new();
    let mut i: usize = 0;
    assert(vecs_view(done@) =~= Seq::<Seq<char>>::empty());
    while i < s.len()
        invariant
            i <= s.len(),
            (vecs_view(done@), cur@) == words_state(s@.take(i as int)),
        decreases s.len() - i,
    {
        assert(s@.take(i + 1).drop_last() == s@.take(i as int));
        if is_ws_exec(s[i]) {
            if cur.len() > 0 {
                let ghost d0 = vecs_view(done@);
                let ghost c0 = cur@;
                done.push(cur);
                cur = Vec::new();
                assert(vecs_view(done@) =~= d0.push(c0));
            }
        } else {
            cur.push(s[i]);
        }
        i += 1;
    }
    assert(s@.take(s.len() as int) == s@);
    if cur.len() > 0 {
        let ghost d0 = vecs_view(done@);
        let ghost c0 = cur@;
        done.push(cur);
        assert(vecs_view(done@) =~= d0.push(c0));
    }
    done
}

/// Character classes stripped from the ends of words.
#[derive(Clone, Copy, PartialEq, Eq, Structural)]
pub enum Class {
    /// Neither alphanumeric, nor `.`, nor `)`.
    NotNameChar,
    /// Not alphanumeric.
    NotAlphanumeric,
    /// One of `, . ; :`.
    TrailingPunct,
}

pub open spec fn in_class(k: Class, c: char) -> bool {
    match k {
        Class::NotNameChar => !chars::alphanumeric(c) && c != '.' && c != ')',
        Class::NotAlphanumeric => !chars::alphanumeric(c),
        Class::TrailingPunct => c == ',' || c == '.' || c == ';' || c == ':',
    }
}

fn in_class_exec(k: Class, c: char) -> (r: bool)
    ensures
        r == in_class(k, c),
{
    match k {
        Class::NotNameChar => !is_alphanumeric(c) && c != '.' && c != ')',
        Class::NotAlphanumeric => !is_alphanumeric(c),
        Class::TrailingPunct => c == ',' || c == '.' || c == ';' || c == ':',
    }
}

/// `trim_start_matches` with a class.
pub open spec fn strip_start(s: Seq<char>, k: Class) -> Seq<char>
    decreases s.len(),
{
    if s.len() > 0 && in_class(k, s[0]) {
        strip_start(s.drop_first(), k)
    } else {
        s
    }
}

/// `trim_end_matches` with a class.
pub open spec fn strip_end(s: Seq<char>, k: Class) -> Seq<char>
    decreases s.len(),
{
    if s.len() > 0 && in_class(k, s.last()) {
        strip_end(s.drop_last(), k)
    } else {
        s
    }
}

/// `trim_matches` with a class.
pub open spec fn strip(s: Seq<char>, k: Class) -> Seq<char> {
    strip_end(strip_start(s, k), k)
}

pub fn strip_end_exec(s: &[char], k: Class) -> (r: Vec<char>)
    ensures
        r@ == strip_end(s@, k),
{
    let mut hi: usize = s.len();
    assert(s@.subrange(0, hi as int) == s@);
    while hi > 0 && in_class_exec(k, s[hi - 1])
        invariant
            hi <= s.len(),
            strip_end(s@, k) == strip_end(s@.subrange(0, hi as int), k),
        decreases hi,
    {
        assert(s@.subrange(0, hi as int).drop_last() == s@.subrange(0, hi - 1));
        hi -= 1;
    }
    slice_of(s, 0, hi)
}

pub fn strip_exec(s: &[char], k: Class) -> (r: Vec<char>)
    ensures
        r@ == strip(s@, k),
{
    let n = s.len();
    let mut lo: usize = 0;
    assert(s@.subrange(0, n as int) == s@);
    while lo < n && in_class_exec(k, s[lo])
        invariant
            lo <= n == s.len(),
            strip_start(s@, k) == strip_start(s@.subrange(lo as int, n as int), k),
        decreases n - lo,
    {
        assert(s@.subrange(lo as int, n as int).drop_first() == s@.subrange(lo + 1, n as int));
        lo += 1;
    }
    let t = slice_of(s, lo, n);
    assert(strip_start(t@, k) == t@);
    strip_end_exec(t.as_slice(), k)
}

} // verus!
