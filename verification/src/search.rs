//! Small deterministic pieces of the source index: the full-text query a
//! user's words become, and the hex digest text of a content hash.

use vstd::prelude::*;
use crate::chars::{self, chars_of, string_of, push_str, is_alphanumeric};
use crate::strs::{self, views};
use crate::words::vecs_view;

verus! {

/// Finished runs of alphanumeric characters and the run in progress.
pub open spec fn runs_state(s: Seq<char>) -> (Seq<Seq<char>>, Seq<char>)
    decreases s.len(),
{
    if s.len() == 0 {
        (Seq::empty(), Seq::empty())
    } else {
        let prev = runs_state(s.drop_last());
        if !chars::alphanumeric(s.last()) {
            if prev.1.len() > 0 { (prev.0.push(prev.1), Seq::empty()) } else { prev }
        } else {
            (prev.0, prev.1.push(s.last()))
        }
    }
}

/// The maximal runs of alphanumeric characters, in order.
pub open spec fn alnum_runs(s: Seq<char>) -> Seq<Seq<char>> {
    let st = runs_state(s);
    if st.1.len() > 0 { st.0.push(st.1) } else { st.0 }
}

pub open spec fn quoted(t: Seq<char>) -> Seq<char> {
    seq!['"'] + t + seq!['"']
}

/// A full-text query matching any of the words: each run of alphanumeric
/// characters quoted (so operators in the input stay inert), joined by OR.
pub open spec fn fts_query(q: Seq<char>) -> Seq<char> {
    strs::join(alnum_runs(q).map_values(|t: Seq<char>| quoted(t)), " OR "@)
}

/// The maximal runs of alphanumeric characters of `s`, in order.
pub fn alnum_runs_exec(s: &[char]) -> (r: Vec<Vec<char>>)
    ensures
        vecs_view(r@) == alnum_runs(s@),
{
    let mut done: Vec<Vec<char>> = Vec::new();
    let mut cur: Vec<char> = Vec::new();
    let mut i: usize = 0;
    assert(vecs_view(done@) =~= Seq::<Seq<char>>::empty());
    while i < s.len()
        invariant
            i <= s.len(),
            (vecs_view(done@), cur@) == runs_state(s@.take(i as int)),
        decreases s.len() - i,
    {
        assert(s@.take(i + 1).drop_last() == s@.take(i as int));
        if !is_alphanumeric(s[i]) {
            if cur.len() > 0 {
                let ghost d0 = vecs_view(done@);
                let ghost c0 = cur@;
                done.push(cur);
                cur = Vec::new();
                assert(vecs_view(done@) =~= d0.push(c0));
            }
        } else {
            cur.push(s[i]);
        }
        i += 1;
    }
    assert(s@.take(s.len() as int) == s@);
    if cur.len() > 0 {
        let ghost d0 = vecs_view(done@);
        let ghost c0 = cur@;
        done.push(cur);
        assert(vecs_view(done@) =~= d0.push(c0));
    }
    done
}

pub fn sanitize_fts_query(query: &str) -> (r: String)
    ensures
        r@ == fts_query(query@),
{
    let s = chars_of(query);
    let done = alnum_runs_exec(s.as_slice());
    let ghost target = alnum_runs(query@).map_values(|t: Seq<char>| quoted(t));
    let mut parts: Vec<String> = Vec::new();
    let mut k: usize = 0;
    while k < done.len()
        invariant
            k <= done.len(),
            vecs_view(done@) == alnum_runs(query@),
            target == alnum_runs(query@).map_values(|t: Seq<char>| quoted(t)),
            views(parts@) == target.take(k as int),
        decreases done.len() - k,
    {
        let mut q = String::new();
        q.push('"');
        chars::push_all(&mut q, done[k].as_slice());
        q.push('"');
        let ghost p0 = views(parts@);
        assert(q@ =~= quoted(done@[k as int]@));
        assert(vecs_view(done@)[k as int] == done@[k as int]@);
        parts.push(q);
        k += 1;
        assert(views(parts@) =~= p0.push(target[k - 1]));
        assert(target.take(k as int) =~= target.take(k - 1).push(target[k - 1]));
    }
    assert(target.take(done.len() as int) =~= target);
    strs::join_strings(&parts, " OR ")
}

pub open spec fn hex_digit(d: u8) -> char {
    if d < 10 { ((d + 48) as u8) as char } else { ((d + 87) as u8) as char }
}

/// Two lowercase hex digits per byte.
pub open spec fn hex_of(bytes: Seq<u8>) -> Seq<char>
    decreases bytes.len(),
{
    if bytes.len() == 0 {
        Seq::empty()
    } else {
        hex_of(bytes.drop_last()) + seq![hex_digit(bytes.last() / 16), hex_digit(bytes.last() % 16)]
    }
}

fn hex_digit_exec(d: u8) -> (r: char)
    requires
        d < 16,
    ensures
        r == hex_digit(d),
{
    if d < 10 { ((d + 48) as u8) as char } else { ((d + 87) as u8) as char }
}

/// Lowercase hex text of a byte string (a content hash).
pub fn hex(bytes: &[u8]) -> (r: String)
    ensures
        r@ == hex_of(bytes@),
{
    let mut s = String::new();
    let mut i: usize = 0;
    while i < bytes.len()
        invariant
            i <= bytes.len(),
            s@ == hex_of(bytes@.take(i as int)),
        decreases bytes.len() - i,
    {
        assert(bytes@.take(i + 1).drop_last() == bytes@.take(i as int));
        let b = bytes[i];
        let ghost s0 = s@;
        s.push(hex_digit_exec(b / 16));
        s.push(hex_digit_exec(b % 16));
        assert(s@ =~= s0 + seq![hex_digit(b / 16), hex_digit(b % 16)]);
        i += 1;
    }
    assert(bytes@.take(bytes.len() as int) == bytes@);
    s
}

} // verus!
