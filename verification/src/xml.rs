//! Plain scanning of WordprocessingML text: finding elements, cutting them
//! out or unwrapping them, and slicing out whole paragraphs. `<w:p>` never
//! nests, so a string scan is enough.

use vstd::prelude::*;
use crate::chars::{self, occurs_at, find_from, matches_at, chars_of, string_of, slice_of};

verus! {

// ---------------------------------------------------------------------------
// Searching
// ---------------------------------------------------------------------------

/// The first index at or after `i` where `n` occurs in `h`, or -1.
pub open spec fn first_from(h: Seq<char>, n: Seq<char>, i: int) -> int
    decreases h.len() + 1 - i,
{
    if i < 0 || i + n.len() > h.len() {
        -1
    } else if occurs_at(h, n, i) {
        i
    } else {
        first_from(h, n, i + 1)
    }
}

/// The last index at or before `i` where `n` occurs in `h`, or -1.
pub open spec fn last_upto(h: Seq<char>, n: Seq<char>, i: int) -> int
    decreases i + 1,
{
    if i < 0 {
        -1
    } else if occurs_at(h, n, i) {
        i
    } else {
        last_upto(h, n, i - 1)
    }
}

/// The last index where `n` occurs in `h` (`str::rfind`), or -1.
pub open spec fn last_of(h: Seq<char>, n: Seq<char>) -> int {
    last_upto(h, n, h.len() - n.len())
}

pub proof fn lemma_first_from_bounds(h: Seq<char>, n: Seq<char>, i: int)
    ensures
        first_from(h, n, i) == -1 || (i <= first_from(h, n, i) && first_from(h, n, i) + n.len() <= h.len()
            && occurs_at(h, n, first_from(h, n, i))),
    decreases h.len() + 1 - i,
{
    if !(i < 0 || i + n.len() > h.len()) && !occurs_at(h, n, i) {
        lemma_first_from_bounds(h, n, i + 1);
    }
}

proof fn lemma_first_from_is(h: Seq<char>, n: Seq<char>, i: int, j: int)
    requires
        0 <= i <= j,
        occurs_at(h, n, j),
        forall|k: int| i <= k < j ==> !occurs_at(h, n, k),
    ensures
        first_from(h, n, i) == j,
    decreases j - i,
{
    if i < j {
        lemma_first_from_is(h, n, i + 1, j);
    }
}

proof fn lemma_first_from_none(h: Seq<char>, n: Seq<char>, i: int)
    requires
        0 <= i,
        forall|k: int| i <= k ==> !occurs_at(h, n, k),
    ensures
        first_from(h, n, i) == -1,
    decreases h.len() + 1 - i,
{
    if i + n.len() <= h.len() {
        lemma_first_from_none(h, n, i + 1);
    }
}

pub proof fn lemma_last_upto_bounds(h: Seq<char>, n: Seq<char>, i: int)
    ensures
        last_upto(h, n, i) == -1 || (0 <= last_upto(h, n, i) <= i && occurs_at(h, n, last_upto(h, n, i))),
    decreases i + 1,
{
    if i >= 0 && !occurs_at(h, n, i) {
        lemma_last_upto_bounds(h, n, i - 1);
    }
}

/// `find` from index `from`.
pub fn find(h: &[char], n: &[char], from: usize) -> (r: Option<usize>)
    ensures
        match r {
            Some(i) => first_from(h@, n@, from as int) == i as int && i + n@.len() <= h@.len(),
            None => first_from(h@, n@, from as int) == -1,
        },
{
    match find_from(h, n, from) {
        Some(i) => {
            proof {
                lemma_first_from_is(h@, n@, from as int, i as int);
            }
            Some(i)
        },
        None => {
            proof {
                lemma_first_from_none(h@, n@, from as int);
            }
            None
        },
    }
}

/// `rfind`.
pub fn rfind(h: &[char], n: &[char]) -> (r: Option<usize>)
    ensures
        match r {
            Some(i) => last_of(h@, n@) == i as int && i + n@.len() <= h@.len(),
            None => last_of(h@, n@) == -1,
        },
{
    if n.len() > h.len() {
        return None;
    }
    let mut i = h.len() - n.len();
    loop
        invariant
            i <= h.len() - n.len(),
            n.len() <= h.len(),
            last_of(h@, n@) == last_upto(h@, n@, i as int),
        decreases i,
    {
        if matches_at(h, n, i) {
            return Some(i);
        }
        if i == 0 {
            assert(last_upto(h@, n@, -1) == -1);
            return None;
        }
        i -= 1;
    }
}

// ---------------------------------------------------------------------------
// Cutting out and unwrapping elements
// ---------------------------------------------------------------------------

pub open spec fn self_close() -> Seq<char> {
    seq!['/', '>']
}

/// Remove every `open…close` region (or, where no `close` follows, the
/// self-closing `open…/>`), first occurrence first.
pub open spec fn strip_el(s: Seq<char>, open: Seq<char>, close: Seq<char>) -> Seq<char>
    decreases s.len(),
{
    if open.len() == 0 || close.len() == 0 {
        s
    } else {
        let st = first_from(s, open, 0);
        if st < 0 {
            s
        } else {
            let c = first_from(s, close, st);
            let q = first_from(s, self_close(), st);
            proof {
                lemma_first_from_bounds(s, open, 0);
                lemma_first_from_bounds(s, close, st);
                lemma_first_from_bounds(s, self_close(), st);
            }
            if c >= 0 {
                strip_el(s.take(st) + s.skip(c + close.len()), open, close)
            } else if q >= 0 {
                strip_el(s.take(st) + s.skip(q + 2), open, close)
            } else {
                s
            }
        }
    }
}

/// Every occurrence of `pat` deleted, scanning left to right from `i`.
pub open spec fn remove_from(s: Seq<char>, pat: Seq<char>, i: int) -> Seq<char>
    decreases s.len() - i,
{
    if i < 0 || i >= s.len() {
        Seq::empty()
    } else if pat.len() > 0 && occurs_at(s, pat, i) {
        remove_from(s, pat, i + pat.len())
    } else {
        seq![s[i]] + remove_from(s, pat, i + 1)
    }
}

/// Every `open…>` start tag deleted, first occurrence first.
pub open spec fn unwrap_opens(s: Seq<char>, open: Seq<char>) -> Seq<char>
    decreases s.len(),
{
    if open.len() == 0 {
        s
    } else {
        let st = first_from(s, open, 0);
        if st < 0 {
            s
        } else {
            let gt = first_from(s, seq!['>'], st);
            proof {
                lemma_first_from_bounds(s, open, 0);
                lemma_first_from_bounds(s, seq!['>'], st);
            }
            if gt < 0 { s } else { unwrap_opens(s.take(st) + s.skip(gt + 1), open) }
        }
    }
}

/// An element's open and close tags removed, its content kept.
pub open spec fn unwrap_el(s: Seq<char>, tag: Seq<char>) -> Seq<char> {
    unwrap_opens(remove_from(s, seq!['<', '/'] + tag + seq!['>'], 0), seq!['<'] + tag)
}

fn cut(s: &[char], lo: usize, hi: usize) -> (r: Vec<char>)
    requires
        lo <= hi <= s.len(),
    ensures
        r@ == s@.take(lo as int) + s@.skip(hi as int),
{
    let mut a = slice_of(s, 0, lo);
    let mut b = slice_of(s, hi, s.len());
    let ghost av = a@;
    a.append(&mut b);
    assert(av == s@.take(lo as int));
    assert(a@ =~= s@.take(lo as int) + s@.skip(hi as int));
    a
}

/// Remove every `open…close` (or self-closing `open…/>`) region.
pub fn strip_element(s: &[char], open: &[char], close: &[char]) -> (r: Vec<char>)
    ensures
        r@ == strip_el(s@, open@, close@),
{
    let mut out: Vec<char> = slice_of(s, 0, s.len());
    if open.len() == 0 || close.len() == 0 {
        return out;
    }
    let sc: Vec<char> = vec!['/', '>'];
    assert(sc@ =~= self_close());
    assert(out@ =~= s@);
    loop
        invariant
            open@.len() > 0 && close@.len() > 0,
            sc@ == self_close(),
            strip_el(s@, open@, close@) == strip_el(out@, open@, close@),
        decreases out@.len(),
    {
        let start = match find(out.as_slice(), open, 0) {
            Some(st) => st,
            None => return out,
        };
        proof {
            lemma_first_from_bounds(out@, close@, start as int);
            lemma_first_from_bounds(out@, self_close(), start as int);
        }
        match find(out.as_slice(), close, start) {
            Some(c) => {
                let ol = out.len();
                assert(c + close@.len() <= ol);
                let end = c + close.len();
                out = cut(out.as_slice(), start, end);
            },
            None => {
                match find(out.as_slice(), sc.as_slice(), start) {
                    Some(q) => {
                        let ol = out.len();
                        assert(q + 2 <= ol);
                        let end = q + 2;
                        out = cut(out.as_slice(), start, end);
                    },
                    None => return out,
                }
            },
        }
    }
}

fn remove_all(s: &[char], pat: &[char]) -> (r: Vec<char>)
    ensures
        r@ == remove_from(s@, pat@, 0),
{
    let mut out: Vec<char> = Vec::new();
    let mut i: usize = 0;
    while i < s.len()
        invariant
            i <= s.len(),
            out@ + remove_from(s@, pat@, i as int) == remove_from(s@, pat@, 0),
        decreases s.len() - i,
    {
        if pat.len() > 0 && matches_at(s, pat, i) {
            i = i + pat.len();
        } else {
            let ghost o0 = out@;
            out.push(s[i]);
            assert(out@ == o0 + seq![s@[i as int]]);
            i += 1;
        }
    }
    out
}

fn unwrap_opens_exec(s: &[char], open: &[char]) -> (r: Vec<char>)
    ensures
        r@ == unwrap_opens(s@, open@),
{
    let mut out: Vec<char> = slice_of(s, 0, s.len());
    if open.len() == 0 {
        return out;
    }
    let gt: Vec<char> = vec!['>'];
    assert(gt@ =~= seq!['>']);
    assert(out@ =~= s@);
    loop
        invariant
            open@.len() > 0,
            gt@ == seq!['>'],
            unwrap_opens(s@, open@) == unwrap_opens(out@, open@),
        decreases out@.len(),
    {
        let start = match find(out.as_slice(), open, 0) {
            Some(st) => st,
            None => return out,
        };
        proof {
            lemma_first_from_bounds(out@, seq!['>'], start as int);
        }
        match find(out.as_slice(), gt.as_slice(), start) {
            Some(g) => {
                let ol = out.len();
                assert(g + 1 <= ol);
                let end = g + 1;
                out = cut(out.as_slice(), start, end);
            },
            None => return out,
        }
    }
}

/// Remove an element's open and close tags but keep its inner content
/// (`<tag …>inner</tag>` becomes `inner`).
pub fn unwrap_element(s: &[char], tag: &[char]) -> (r: Vec<char>)
    ensures
        r@ == unwrap_el(s@, tag@),
{
    let mut close: Vec<char> = vec!['<', '/'];
    let mut t = slice_of(tag, 0, tag.len());
    close.append(&mut t);
    close.push('>');
    assert(close@ =~= seq!['<', '/'] + tag@ + seq!['>']);
    let out = remove_all(s, close.as_slice());
    let mut open: Vec<char> = vec!['<'];
    let mut t2 = slice_of(tag, 0, tag.len());
    open.append(&mut t2);
    assert(open@ =~= seq!['<'] + tag@);
    unwrap_opens_exec(out.as_slice(), open.as_slice())
}

// ---------------------------------------------------------------------------
// Paragraph elements
// ---------------------------------------------------------------------------

pub open spec fn p_open() -> Seq<char> {
    seq!['<', 'w', ':', 'p']
}

pub open spec fn p_close() -> Seq<char> {
    seq!['<', '/', 'w', ':', 'p', '>']
}

/// Characters that may follow `<w:p` in a paragraph's own start tag (as
/// opposed to `<w:pPr`, `<w:pStyle`, or an empty `<w:p/>`).
pub open spec fn opens_paragraph(c: char) -> bool {
    c == '>' || c == ' ' || c == '\t' || c == '\n' || c == '\r'
}

/// The next whole `<w:p …>…</w:p>` element at or after `i`: its start and
/// the index just past its end.
pub open spec fn para_span(xml: Seq<char>, i: int) -> Option<(int, int)>
    decreases xml.len() - i,
{
    let st = first_from(xml, p_open(), i);
    if st < 0 {
        None
    } else {
        proof {
            lemma_first_from_bounds(xml, p_open(), i);
        }
        if st + 4 < xml.len() && opens_paragraph(xml[st + 4]) {
            let e = first_from(xml, p_close(), st);
            if e < 0 { None } else { Some((st, e + 6)) }
        } else {
            para_span(xml, st + 4)
        }
    }
}

fn opens_paragraph_exec(c: char) -> (r: bool)
    ensures
        r == opens_paragraph(c),
{
    c == '>' || c == ' ' || c == '\t' || c == '\n' || c == '\r'
}

/// The span of the next paragraph element at or after `from`.
pub fn para_span_exec(xml: &[char], from: usize) -> (r: Option<(usize, usize)>)
    ensures
        match r {
            Some((s, e)) => para_span(xml@, from as int) == Some((s as int, e as int)) && s < e <= xml@.len(),
            None => para_span(xml@, from as int) is None,
        },
{
    let open: Vec<char> = vec!['<', 'w', ':', 'p'];
    let close: Vec<char> = vec!['<', '/', 'w', ':', 'p', '>'];
    assert(open@ =~= p_open());
    assert(close@ =~= p_close());
    let n = xml.len();
    if from > n {
        return None;
    }
    let mut i = from;
    loop
        invariant
            i <= n == xml@.len(),
            open@ == p_open(),
            close@ == p_close(),
            para_span(xml@, from as int) == para_span(xml@, i as int),
        decreases xml@.len() - i,
    {
        let st = match find(xml, open.as_slice(), i) {
            Some(st) => st,
            None => return None,
        };
        proof {
            lemma_first_from_bounds(xml@, p_open(), i as int);
        }
        assert(st + 4 <= n);
        if st + 4 < n && opens_paragraph_exec(xml[st + 4]) {
            proof {
                lemma_first_from_bounds(xml@, p_close(), st as int);
            }
            match find(xml, close.as_slice(), st) {
                Some(e) => return Some((st, e + 6)),
                None => return None,
            }
        }
        i = st + 4;
    }
}

/// Slice out the next `<w:p …>…</w:p>` element at or after `*from` (a
/// character index), moving `*from` past it; `None`, with `*from` unchanged,
/// when there is none.
pub fn next_paragraph_span(xml: &str, from: &mut usize) -> (r: Option<String>)
    ensures
        match para_span(xml@, *old(from) as int) {
            Some((s, e)) => r is Some && r->0@ == xml@.subrange(s, e) && *final(from) as int == e,
            None => r is None && *final(from) == *old(from),
        },
{
    let v = chars_of(xml);
    match para_span_exec(v.as_slice(), *from) {
        Some((s, e)) => {
            *from = e;
            Some(string_of(slice_of(v.as_slice(), s, e).as_slice()))
        },
        None => None,
    }
}

} // verus!
