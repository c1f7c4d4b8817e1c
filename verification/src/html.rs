//! Saved web pages and exported agreements as paragraphs. Script, style and
//! head elements are dropped, `h1`–`h6` become headings, block-level tags
//! break lines, every other tag is dropped and the common character entities
//! are decoded. Tag names match in any case, as HTML has them.

use vstd::prelude::*;
use crate::chars::{self, occurs_at, matches_at, chars_of, string_of, squash, squash_chars, slice_of};
use crate::patterns::{folds_to, folds_to_exec};
use crate::xml::{first_from, lemma_first_from_bounds, find};
use crate::wordml::{digits_value, all_digits, unsigned_digits, lemma_digits_value_grows};
use crate::num::{decimal, decimal_string};
use crate::split::{self, lines, split_lines};
use crate::model::Paragraph;

verus! {

/// Append every character of `t` to `out`.
fn extend_chars(out: &mut Vec<char>, t: &[char])
    ensures
        final(out)@ == old(out)@ + t@,
{
    let ghost o0 = out@;
    let mut i: usize = 0;
    while i < t.len()
        invariant
            i <= t.len(),
            out@ == o0 + t@.take(i as int),
        decreases t.len() - i,
    {
        out.push(t[i]);
        i += 1;
        assert(t@.take(i as int) == t@.take((i - 1) as int).push(t@[i - 1]));
    }
    assert(t@.take(t.len() as int) == t@);
}

// ---------------------------------------------------------------------------
// Character entities
// ---------------------------------------------------------------------------

/// `str::replace`: every occurrence of `pat`, found left to right without
/// overlap from `i` on, replaced by `rep`.
pub open spec fn replace_from(s: Seq<char>, pat: Seq<char>, rep: Seq<char>, i: int) -> Seq<char>
    decreases s.len() - i,
{
    if i < 0 || i >= s.len() {
        Seq::empty()
    } else if pat.len() > 0 && occurs_at(s, pat, i) {
        rep + replace_from(s, pat, rep, i + pat.len())
    } else {
        seq![s[i]] + replace_from(s, pat, rep, i + 1)
    }
}

pub open spec fn replace(s: Seq<char>, pat: Seq<char>, rep: Seq<char>) -> Seq<char> {
    replace_from(s, pat, rep, 0)
}

/// Every occurrence of `pat` replaced by `rep`.
pub fn replace_chars(s: &[char], pat: &[char], rep: &[char]) -> (r: Vec<char>)
    ensures
        r@ == replace(s@, pat@, rep@),
{
    let mut out: Vec<char> = Vec::new();
    let mut i: usize = 0;
    while i < s.len()
        invariant
            i <= s.len(),
            out@ + replace_from(s@, pat@, rep@, i as int) == replace(s@, pat@, rep@),
        decreases s.len() - i,
    {
        let ghost o0 = out@;
        if pat.len() > 0 && matches_at(s, pat, i) {
            extend_chars(&mut out, rep);
            assert(o0 + (rep@ + replace_from(s@, pat@, rep@, i + pat@.len()))
                =~= out@ + replace_from(s@, pat@, rep@, i + pat@.len()));
            i = i + pat.len();
        } else {
            out.push(s[i]);
            assert(o0 + (seq![s@[i as int]] + replace_from(s@, pat@, rep@, i + 1))
                =~= out@ + replace_from(s@, pat@, rep@, i + 1));
            i += 1;
        }
    }
    assert(out@ + replace_from(s@, pat@, rep@, i as int) =~= out@);
    out
}

/// The seven entities decoded, one after the other: `&nbsp;` (as a space),
/// `&amp;`, `&lt;`, `&gt;`, `&quot;`, `&#39;` and `&apos;`. Decoding in this
/// order means `&amp;lt;` ends up as `<`.
pub open spec fn decoded(s: Seq<char>) -> Seq<char> {
    let a = replace(s, "&nbsp;"@, " "@);
    let b = replace(a, "&amp;"@, "&"@);
    let c = replace(b, "&lt;"@, "<"@);
    let d = replace(c, "&gt;"@, ">"@);
    let e = replace(d, "&quot;"@, "\""@);
    let f = replace(e, "&#39;"@, "'"@);
    replace(f, "&apos;"@, "'"@)
}

fn replace_lit(s: &[char], pat: &str, rep: &str) -> (r: Vec<char>)
    ensures
        r@ == replace(s@, pat@, rep@),
{
    let p = chars_of(pat);
    let q = chars_of(rep);
    replace_chars(s, p.as_slice(), q.as_slice())
}

fn decode_chars(s: &[char]) -> (r: Vec<char>)
    ensures
        r@ == decoded(s@),
{
    let a = replace_lit(s, "&nbsp;", " ");
    let b = replace_lit(a.as_slice(), "&amp;", "&");
    let c = replace_lit(b.as_slice(), "&lt;", "<");
    let d = replace_lit(c.as_slice(), "&gt;", ">");
    let e = replace_lit(d.as_slice(), "&quot;", "\"");
    let f = replace_lit(e.as_slice(), "&#39;", "'");
    replace_lit(f.as_slice(), "&apos;", "'")
}

/// Decode the common character entities.
pub fn decode_entities(s: &str) -> (r: String)
    ensures
        r@ == decoded(s@),
{
    let v = chars_of(s);
    let d = decode_chars(v.as_slice());
    string_of(d.as_slice())
}

// ---------------------------------------------------------------------------
// Tag patterns
// ---------------------------------------------------------------------------

/// The letters `w` at `i`, each in either case.
pub open spec fn word_ci_at(s: Seq<char>, i: int, w: Seq<char>) -> bool {
    &&& 0 <= i && i + w.len() <= s.len()
    &&& forall|k: int| 0 <= k < w.len() ==> folds_to(s[i + k], #[trigger] w[k])
}

fn word_ci_exec(s: &[char], i: usize, w: &[char]) -> (r: bool)
    ensures
        r == word_ci_at(s@, i as int, w@),
{
    let n = s.len();
    if i > n || n - i < w.len() {
        return false;
    }
    let mut k: usize = 0;
    while k < w.len()
        invariant
            k <= w.len(),
            i + w.len() <= n,
            n == s.len(),
            forall|m: int| 0 <= m < k ==> folds_to(s@[i + m], #[trigger] w@[m]),
        decreases w.len() - k,
    {
        if !folds_to_exec(s[i + k], w[k]) {
            return false;
        }
        k += 1;
    }
    true
}

pub open spec fn gt() -> Seq<char> {
    seq!['>']
}

/// The length of the raw-text element name (`script`, `style` or `head`)
/// at `j`, or 0.
pub open spec fn raw_name_len(s: Seq<char>, j: int) -> int {
    if word_ci_at(s, j, seq!['s', 'c', 'r', 'i', 'p', 't']) {
        6
    } else if word_ci_at(s, j, seq!['s', 't', 'y', 'l', 'e']) {
        5
    } else if word_ci_at(s, j, seq!['h', 'e', 'a', 'd']) {
        4
    } else {
        0
    }
}

fn raw_name_len_exec(s: &[char], j: usize) -> (r: usize)
    ensures
        r as int == raw_name_len(s@, j as int),
{
    let a: Vec<char> = vec!['s', 'c', 'r', 'i', 'p', 't'];
    let b: Vec<char> = vec!['s', 't', 'y', 'l', 'e'];
    let c: Vec<char> = vec!['h', 'e', 'a', 'd'];
    assert(a@ =~= seq!['s', 'c', 'r', 'i', 'p', 't']);
    assert(b@ =~= seq!['s', 't', 'y', 'l', 'e']);
    assert(c@ =~= seq!['h', 'e', 'a', 'd']);
    if word_ci_exec(s, j, a.as_slice()) {
        6
    } else if word_ci_exec(s, j, b.as_slice()) {
        5
    } else if word_ci_exec(s, j, c.as_slice()) {
        4
    } else {
        0
    }
}

/// Where a closing `</script>`, `</style>` or `</head>` at `p` ends, or -1.
pub open spec fn raw_close_end(s: Seq<char>, p: int) -> int {
    let n = raw_name_len(s, p + 2);
    if 0 <= p && p + 1 < s.len() && s[p] == '<' && s[p + 1] == '/' && n > 0 && p + 2 + n < s.len()
        && s[p + 2 + n] == '>' {
        p + 3 + n
    } else {
        -1
    }
}

/// The end of the first closing raw-text tag at or after `q`, or -1.
pub open spec fn first_raw_close(s: Seq<char>, q: int) -> int
    decreases s.len() - q,
{
    if q < 0 || q >= s.len() {
        -1
    } else if raw_close_end(s, q) > 0 {
        raw_close_end(s, q)
    } else {
        first_raw_close(s, q + 1)
    }
}

proof fn lemma_first_raw_close(s: Seq<char>, q: int)
    requires
        0 <= q,
    ensures
        first_raw_close(s, q) == -1 || (q < first_raw_close(s, q) <= s.len()),
    decreases s.len() - q,
{
    if q < s.len() && raw_close_end(s, q) <= 0 {
        lemma_first_raw_close(s, q + 1);
    }
}

/// `<script…>…</script>` (or `style`, `head`) at `i`: the opening tag runs
/// to the first `>`, the element to the first closing raw-text tag after it.
pub open spec fn script_end(s: Seq<char>, i: int) -> int {
    let n = raw_name_len(s, i + 1);
    if 0 <= i && i + 1 < s.len() && s[i] == '<' && n > 0 {
        let g = first_from(s, gt(), i + 1 + n);
        if g >= 0 {
            first_raw_close(s, g + 1)
        } else {
            -1
        }
    } else {
        -1
    }
}

/// A block-level element name at `j`: `p`, `div`, `br`, `li`, `ul`, `ol`,
/// `tr`, `table`, `section` or `article` (the rest of the tag name is not
/// looked at).
pub open spec fn block_name_at(s: Seq<char>, j: int) -> bool {
    ||| word_ci_at(s, j, seq!['p'])
    ||| word_ci_at(s, j, seq!['d', 'i', 'v'])
    ||| word_ci_at(s, j, seq!['b', 'r'])
    ||| word_ci_at(s, j, seq!['l', 'i'])
    ||| word_ci_at(s, j, seq!['u', 'l'])
    ||| word_ci_at(s, j, seq!['o', 'l'])
    ||| word_ci_at(s, j, seq!['t', 'r'])
    ||| word_ci_at(s, j, seq!['t', 'a', 'b', 'l', 'e'])
    ||| word_ci_at(s, j, seq!['s', 'e', 'c', 't', 'i', 'o', 'n'])
    ||| word_ci_at(s, j, seq!['a', 'r', 't', 'i', 'c', 'l', 'e'])
}

fn block_name_exec(s: &[char], j: usize) -> (r: bool)
    ensures
        r == block_name_at(s@, j as int),
{
    let w0: Vec<char> = vec!['p'];
    let w1: Vec<char> = vec!['d', 'i', 'v'];
    let w2: Vec<char> = vec!['b', 'r'];
    let w3: Vec<char> = vec!['l', 'i'];
    let w4: Vec<char> = vec!['u', 'l'];
    let w5: Vec<char> = vec!['o', 'l'];
    let w6: Vec<char> = vec!['t', 'r'];
    let w7: Vec<char> = vec!['t', 'a', 'b', 'l', 'e'];
    let w8: Vec<char> = vec!['s', 'e', 'c', 't', 'i', 'o', 'n'];
    let w9: Vec<char> = vec!['a', 'r', 't', 'i', 'c', 'l', 'e'];
    assert(w0@ =~= seq!['p']);
    assert(w1@ =~= seq!['d', 'i', 'v']);
    assert(w2@ =~= seq!['b', 'r']);
    assert(w3@ =~= seq!['l', 'i']);
    assert(w4@ =~= seq!['u', 'l']);
    assert(w5@ =~= seq!['o', 'l']);
    assert(w6@ =~= seq!['t', 'r']);
    assert(w7@ =~= seq!['t', 'a', 'b', 'l', 'e']);
    assert(w8@ =~= seq!['s', 'e', 'c', 't', 'i', 'o', 'n']);
    assert(w9@ =~= seq!['a', 'r', 't', 'i', 'c', 'l', 'e']);
    word_ci_exec(s, j, w0.as_slice()) || word_ci_exec(s, j, w1.as_slice())
        || word_ci_exec(s, j, w2.as_slice()) || word_ci_exec(s, j, w3.as_slice())
        || word_ci_exec(s, j, w4.as_slice()) || word_ci_exec(s, j, w5.as_slice())
        || word_ci_exec(s, j, w6.as_slice()) || word_ci_exec(s, j, w7.as_slice())
        || word_ci_exec(s, j, w8.as_slice()) || word_ci_exec(s, j, w9.as_slice())
}

/// An opening or closing block-level tag at `i`, ending at the first `>`.
pub open spec fn block_end(s: Seq<char>, i: int) -> int {
    if 0 <= i && i + 1 < s.len() && s[i] == '<' {
        let j = if s[i + 1] == '/' { i + 2 } else { i + 1 };
        if block_name_at(s, j) {
            let g = first_from(s, gt(), j);
            if g >= 0 { g + 1 } else { -1 }
        } else {
            -1
        }
    } else {
        -1
    }
}

/// Any tag at `i`: `<`, at least one character other than `>`, and the
/// first `>` after it.
pub open spec fn tag_end(s: Seq<char>, i: int) -> int {
    if 0 <= i && i + 1 < s.len() && s[i] == '<' && s[i + 1] != '>' {
        let g = first_from(s, gt(), i + 1);
        if g >= 0 { g + 1 } else { -1 }
    } else {
        -1
    }
}

/// The three rewrites done on the whole text.
#[derive(Clone, Copy)]
pub enum Pass {
    /// Script, style and head elements, to a space.
    Scripts,
    /// Block-level tags, to a line break.
    Blocks,
    /// Any remaining tag, to a space.
    Tags,
}

/// Where the pass's pattern, found at `i`, ends; -1 where it is not found
/// at `i`.
pub open spec fn pass_end(s: Seq<char>, i: int, p: Pass) -> int {
    match p {
        Pass::Scripts => script_end(s, i),
        Pass::Blocks => block_end(s, i),
        Pass::Tags => tag_end(s, i),
    }
}

proof fn lemma_pass_end(s: Seq<char>, i: int, p: Pass)
    requires
        0 <= i,
    ensures
        pass_end(s, i, p) == -1 || (i < pass_end(s, i, p) <= s.len()),
{
    match p {
        Pass::Scripts => {
            let n = raw_name_len(s, i + 1);
            if 0 <= i && i + 1 < s.len() && s[i] == '<' && n > 0 {
                lemma_first_from_bounds(s, gt(), i + 1 + n);
                let g = first_from(s, gt(), i + 1 + n);
                if g >= 0 {
                    lemma_first_raw_close(s, g + 1);
                }
            }
        },
        Pass::Blocks => {
            if 0 <= i && i + 1 < s.len() && s[i] == '<' {
                let j = if s[i + 1] == '/' { i + 2 } else { i + 1 };
                lemma_first_from_bounds(s, gt(), j);
            }
        },
        Pass::Tags => {
            lemma_first_from_bounds(s, gt(), i + 1);
        },
    }
}

/// Every match of the pass's pattern, found left to right without overlap
/// from `i` on, replaced by `rep`.
pub open spec fn rewrite_from(s: Seq<char>, p: Pass, rep: Seq<char>, i: int) -> Seq<char>
    decreases s.len() - i,
{
    if i < 0 || i >= s.len() {
        Seq::empty()
    } else if i < pass_end(s, i, p) <= s.len() {
        rep + rewrite_from(s, p, rep, pass_end(s, i, p))
    } else {
        seq![s[i]] + rewrite_from(s, p, rep, i + 1)
    }
}

pub open spec fn rewrite(s: Seq<char>, p: Pass, rep: Seq<char>) -> Seq<char> {
    rewrite_from(s, p, rep, 0)
}

fn raw_close_exec(s: &[char], q: usize) -> (r: Option<usize>)
    ensures
        match r {
            Some(e) => e as int == first_raw_close(s@, q as int),
            None => first_raw_close(s@, q as int) == -1,
        },
{
    let mut p = q;
    while p < s.len()
        invariant
            q <= p,
            first_raw_close(s@, q as int) == first_raw_close(s@, p as int),
        decreases s.len() - p,
    {
        if s.len() - p > 1 && s[p] == '<' && s[p + 1] == '/' {
            let n = raw_name_len_exec(s, p + 2);
            if n > 0 && s.len() - p - 2 > n && s[p + 2 + n] == '>' {
                return Some(p + 3 + n);
            }
        }
        p += 1;
    }
    None
}

fn pass_end_exec(s: &[char], i: usize, p: Pass) -> (r: Option<usize>)
    requires
        i < s.len(),
    ensures
        match r {
            Some(e) => e as int == pass_end(s@, i as int, p) && i < e <= s.len(),
            None => !(i < pass_end(s@, i as int, p) <= s.len()),
        },
{
    proof {
        lemma_pass_end(s@, i as int, p);
    }
    let gv: Vec<char> = vec!['>'];
    assert(gv@ =~= gt());
    if s.len() - i < 2 || s[i] != '<' {
        return None;
    }
    match p {
        Pass::Scripts => {
            let n = raw_name_len_exec(s, i + 1);
            if n == 0 {
                return None;
            }
            proof {
                assert(word_ci_at(s@, i + 1, seq!['h', 'e', 'a', 'd']) ==> i + 1 + 4 <= s.len());
            }
            match find(s, gv.as_slice(), i + 1 + n) {
                Some(g) => raw_close_exec(s, g + 1),
                None => None,
            }
        },
        Pass::Blocks => {
            let j = if s[i + 1] == '/' { i + 2 } else { i + 1 };
            if !block_name_exec(s, j) {
                return None;
            }
            match find(s, gv.as_slice(), j) {
                Some(g) => Some(g + 1),
                None => None,
            }
        },
        Pass::Tags => {
            if s[i + 1] == '>' {
                return None;
            }
            match find(s, gv.as_slice(), i + 1) {
                Some(g) => Some(g + 1),
                None => None,
            }
        },
    }
}

/// Every match of the pass's pattern replaced by `rep`.
fn rewrite_chars(s: &[char], p: Pass, rep: &[char]) -> (r: Vec<char>)
    ensures
        r@ == rewrite(s@, p, rep@),
{
    let mut out: Vec<char> = Vec::new();
    let mut i: usize = 0;
    while i < s.len()
        invariant
            i <= s.len(),
            out@ + rewrite_from(s@, p, rep@, i as int) == rewrite(s@, p, rep@),
        decreases s.len() - i,
    {
        let ghost o0 = out@;
        match pass_end_exec(s, i, p) {
            Some(e) => {
                extend_chars(&mut out, rep);
                assert(o0 + (rep@ + rewrite_from(s@, p, rep@, e as int))
                    =~= out@ + rewrite_from(s@, p, rep@, e as int));
                i = e;
            },
            None => {
                out.push(s[i]);
                assert(o0 + (seq![s@[i as int]] + rewrite_from(s@, p, rep@, i + 1))
                    =~= out@ + rewrite_from(s@, p, rep@, i + 1));
                i += 1;
            },
        }
    }
    assert(out@ + rewrite_from(s@, p, rep@, i as int) =~= out@);
    out
}

// ---------------------------------------------------------------------------
// Headings
// ---------------------------------------------------------------------------

/// A closing `</h1>` … `</h6>` at `p`.
pub open spec fn hclose_at(s: Seq<char>, p: int) -> bool {
    &&& 0 <= p && p + 5 <= s.len()
    &&& s[p] == '<' && s[p + 1] == '/' && folds_to(s[p + 2], 'h')
    &&& '1' <= s[p + 3] <= '6'
    &&& s[p + 4] == '>'
}

/// The first closing heading tag at or after `q`, or -1.
pub open spec fn first_hclose(s: Seq<char>, q: int) -> int
    decreases s.len() - q,
{
    if q < 0 || q >= s.len() {
        -1
    } else if hclose_at(s, q) {
        q
    } else {
        first_hclose(s, q + 1)
    }
}

/// A heading element `<hN …>…</hM>` at `i`: its level `N`, where its
/// content starts, and where the closing tag starts.
pub open spec fn heading_at(s: Seq<char>, i: int) -> Option<(u8, int, int)> {
    if 0 <= i && i + 2 < s.len() && s[i] == '<' && folds_to(s[i + 1], 'h') && '1' <= s[i + 2] <= '6' {
        let g = first_from(s, gt(), i + 3);
        if g >= 0 {
            let c = first_hclose(s, g + 1);
            if c >= 0 {
                Some(((s[i + 2] as int - 48) as u8, g + 1, c))
            } else {
                None
            }
        } else {
            None
        }
    } else {
        None
    }
}

/// A heading's text: its tags turned into spaces and its entities decoded.
pub open spec fn heading_text(inner: Seq<char>) -> Seq<char> {
    decoded(rewrite(inner, Pass::Tags, seq![' ']))
}

/// The line that stands in for the `n`-th heading until the text is split
/// into lines.
pub open spec fn marker(n: nat) -> Seq<char> {
    "\n@@DRAFTOS_HEADING_"@ + decimal(n) + "@@\n"@
}

/// Every heading element, from `i` on, replaced by its marker (numbered on
/// from `n`), with the headings' levels and texts in order.
pub open spec fn hpass(s: Seq<char>, i: int, n: nat) -> (Seq<char>, Seq<(u8, Seq<char>)>)
    decreases s.len() - i,
{
    if i < 0 || i >= s.len() {
        (Seq::empty(), Seq::empty())
    } else {
        let h = heading_at(s, i);
        if h is Some && i < h.unwrap().1 <= h.unwrap().2 && h.unwrap().2 + 5 <= s.len() {
            let rest = hpass(s, h.unwrap().2 + 5, n + 1);
            (marker(n) + rest.0, seq![(h.unwrap().0, heading_text(s.subrange(h.unwrap().1, h.unwrap().2)))] + rest.1)
        } else {
            let rest = hpass(s, i + 1, n);
            (seq![s[i]] + rest.0, rest.1)
        }
    }
}

#[verifier::loop_isolation(false)]
fn heading_exec(s: &[char], i: usize) -> (r: Option<(u8, usize, usize)>)
    requires
        i < s.len(),
    ensures
        match r {
            Some((l, lo, c)) => heading_at(s@, i as int) == Some((l, lo as int, c as int))
                && i < lo <= c && c + 5 <= s.len(),
            None => !(heading_at(s@, i as int) is Some && i < heading_at(s@, i as int).unwrap().1
                <= heading_at(s@, i as int).unwrap().2 && heading_at(s@, i as int).unwrap().2 + 5 <= s.len()),
        },
{
    let gv: Vec<char> = vec!['>'];
    assert(gv@ =~= gt());
    if s.len() - i < 3 || s[i] != '<' || !folds_to_exec(s[i + 1], 'h') || !(s[i + 2] >= '1' && s[i + 2] <= '6') {
        return None;
    }
    let g = match find(s, gv.as_slice(), i + 3) {
        Some(g) => g,
        None => return None,
    };
    proof {
        lemma_first_from_bounds(s@, gt(), i + 3);
    }
    let d = s[i + 2];
    let l: u8 = (d as u32 - 48) as u8;
    assert(l == (s@[i + 2] as int - 48) as u8);
    let mut q = g + 1;
    while q < s.len()
        invariant
            g + 1 <= q,
            g < s.len(),
            first_hclose(s@, g + 1) == first_hclose(s@, q as int),
        decreases s.len() - q,
    {
        if s.len() - q >= 5 && s[q] == '<' && s[q + 1] == '/' && folds_to_exec(s[q + 2], 'h')
            && s[q + 3] >= '1' && s[q + 3] <= '6' && s[q + 4] == '>' {
            return Some((l, g + 1, q));
        }
        q += 1;
    }
    None
}

pub open spec fn heads_view(v: Seq<(u8, String)>) -> Seq<(u8, Seq<char>)> {
    v.map_values(|h: (u8, String)| (h.0, h.1@))
}

fn heading_pass(s: &[char]) -> (r: (Vec<char>, Vec<(u8, String)>))
    ensures
        (r.0@, heads_view(r.1@)) == hpass(s@, 0, 0),
{
    let mut out: Vec<char> = Vec::new();
    let mut hs: Vec<(u8, String)> = Vec::new();
    let space: Vec<char> = vec![' '];
    assert(space@ =~= seq![' ']);
    let mut i: usize = 0;
    while i < s.len()
        invariant
            i <= s.len(),
            space@ == seq![' '],
            out@ + hpass(s@, i as int, hs.len() as nat).0 == hpass(s@, 0, 0).0,
            heads_view(hs@) + hpass(s@, i as int, hs.len() as nat).1 == hpass(s@, 0, 0).1,
        decreases s.len() - i,
    {
        let ghost o0 = out@;
        let ghost h0 = heads_view(hs@);
        let ghost n = hs.len() as nat;
        match heading_exec(s, i) {
            Some((l, lo, c)) => {
                let inner = slice_of(s, lo, c);
                let tagless = rewrite_chars(inner.as_slice(), Pass::Tags, space.as_slice());
                let text = decode_chars(tagless.as_slice());
                let num = decimal_string(hs.len());
                let m1 = chars_of("\n@@DRAFTOS_HEADING_");
                let m2 = chars_of(num.as_str());
                let m3 = chars_of("@@\n");
                extend_chars(&mut out, m1.as_slice());
                extend_chars(&mut out, m2.as_slice());
                extend_chars(&mut out, m3.as_slice());
                assert(out@ =~= o0 + marker(n));
                let ghost rest = hpass(s@, c + 5, n + 1);
                assert(hpass(s@, i as int, n) == (marker(n) + rest.0,
                    seq![(l, heading_text(s@.subrange(lo as int, c as int)))] + rest.1));
                hs.push((l, string_of(text.as_slice())));
                assert(heads_view(hs@) =~= h0 + seq![(l, heading_text(s@.subrange(lo as int, c as int)))]);
                assert(o0 + (marker(n) + rest.0) =~= out@ + rest.0);
                assert(h0 + (seq![(l, heading_text(s@.subrange(lo as int, c as int)))] + rest.1)
                    =~= heads_view(hs@) + rest.1);
                i = c + 5;
            },
            None => {
                out.push(s[i]);
                let ghost rest = hpass(s@, i + 1, n);
                assert(o0 + (seq![s@[i as int]] + rest.0) =~= out@ + rest.0);
                i += 1;
            },
        }
    }
    assert(out@ + hpass(s@, i as int, hs.len() as nat).0 =~= out@);
    assert(heads_view(hs@) + hpass(s@, i as int, hs.len() as nat).1 =~= heads_view(hs@));
    (out, hs)
}

// ---------------------------------------------------------------------------
// Lines to paragraphs
// ---------------------------------------------------------------------------

/// `str::parse::<usize>`: an optional `+`, then one or more ASCII digits,
/// with a value that fits.
pub open spec fn parse_usize(t: Seq<char>) -> Option<usize> {
    let d = unsigned_digits(t);
    if d.len() == 0 || !all_digits(d) || digits_value(d) > usize::MAX {
        None
    } else {
        Some(digits_value(d) as usize)
    }
}

fn parse_usize_exec(t: &[char]) -> (r: Option<usize>)
    ensures
        r == parse_usize(t@),
{
    let start: usize = if t.len() > 0 && t[0] == '+' { 1 } else { 0 };
    let d = slice_of(t, start, t.len());
    assert(d@ == unsigned_digits(t@));
    if d.len() == 0 {
        return None;
    }
    let mut v: usize = 0;
    let mut i: usize = 0;
    while i < d.len()
        invariant
            i <= d.len(),
            d@ == unsigned_digits(t@),
            d@.len() > 0,
            forall|k: int| 0 <= k < i ==> chars::is_digit(#[trigger] d@[k]),
            v == digits_value(d@.take(i as int)),
        decreases d.len() - i,
    {
        assert(d@.take(i + 1).drop_last() == d@.take(i as int));
        let c = d[i];
        if !(c >= '0' && c <= '9') {
            assert(!chars::is_digit(d@[i as int]));
            return None;
        }
        let dv: usize = (c as u32 - 48) as usize;
        assert(digits_value(d@.take(i + 1)) == v * 10 + dv);
        match v.checked_mul(10) {
            Some(m) => match m.checked_add(dv) {
                Some(w) => {
                    v = w;
                },
                None => {
                    proof {
                        if all_digits(d@) {
                            lemma_digits_value_grows(d@, i + 1);
                        }
                    }
                    return None;
                },
            },
            None => {
                proof {
                    if all_digits(d@) {
                        lemma_digits_value_grows(d@, i + 1);
                    }
                }
                return None;
            },
        }
        i += 1;
    }
    assert(d@.take(d.len() as int) == d@);
    Some(v)
}

pub open spec fn marker_head() -> Seq<char> {
    "@@DRAFTOS_HEADING_"@
}

pub open spec fn marker_tail() -> Seq<char> {
    "@@"@
}

/// The heading number a (whitespace-collapsed) marker line holds.
pub open spec fn marker_index(t: Seq<char>) -> Option<usize> {
    let rest = t.skip(marker_head().len() as int);
    if chars::starts_with(t, marker_head()) && chars::ends_with(rest, marker_tail()) {
        parse_usize(rest.take(rest.len() - marker_tail().len()))
    } else {
        None
    }
}

fn marker_index_exec(t: &[char]) -> (r: Option<usize>)
    ensures
        r == marker_index(t@),
{
    let head = chars_of("@@DRAFTOS_HEADING_");
    let tail = chars_of("@@");
    if !chars::starts_with_chars(t, head.as_slice()) {
        return None;
    }
    let rest = slice_of(t, head.len(), t.len());
    assert(rest@ == t@.skip(marker_head().len() as int));
    if !chars::ends_with_chars(rest.as_slice(), tail.as_slice()) {
        return None;
    }
    let mid = slice_of(rest.as_slice(), 0, rest.len() - tail.len());
    assert(mid@ == rest@.take(rest@.len() - marker_tail().len()));
    parse_usize_exec(mid.as_slice())
}

/// What one line contributes: nothing when it is blank; for a marker line,
/// its heading (at its level) unless that is blank; otherwise the line,
/// entities decoded and whitespace collapsed.
pub open spec fn line_paragraphs(line: Seq<char>, hs: Seq<(u8, Seq<char>)>) -> Seq<(Seq<char>, Option<u8>)> {
    let t = squash(decoded(line));
    if t.len() == 0 {
        Seq::empty()
    } else {
        match marker_index(t) {
            Some(k) => if k < hs.len() && squash(hs[k as int].1).len() > 0 {
                seq![(squash(hs[k as int].1), Some(hs[k as int].0))]
            } else {
                Seq::empty()
            },
            None => seq![(t, None)],
        }
    }
}

pub open spec fn lines_paragraphs(ls: Seq<Seq<char>>, hs: Seq<(u8, Seq<char>)>) -> Seq<(Seq<char>, Option<u8>)>
    decreases ls.len(),
{
    if ls.len() == 0 {
        Seq::empty()
    } else {
        lines_paragraphs(ls.drop_last(), hs) + line_paragraphs(ls.last(), hs)
    }
}

/// The paragraphs of an HTML text, each as (text, declared heading level):
/// script, style and head elements become spaces; each heading element is
/// set aside and a marker line left in its place; block-level tags become
/// line breaks and other tags spaces; then each line, entities decoded and
/// whitespace collapsed, is a paragraph unless blank, and a marker line is
/// its heading's paragraph. (A carriage return before a line break is
/// whitespace, so splitting at `\n` alone loses nothing.)
pub open spec fn html_paragraphs(html: Seq<char>) -> Seq<(Seq<char>, Option<u8>)> {
    let a = rewrite(html, Pass::Scripts, seq![' ']);
    let h = hpass(a, 0, 0);
    let b = rewrite(h.0, Pass::Blocks, seq!['\n']);
    let c = rewrite(b, Pass::Tags, seq![' ']);
    lines_paragraphs(lines(c), h.1)
}

// ---------------------------------------------------------------------------
// Laws
// ---------------------------------------------------------------------------

/// No tag opens in the text.
pub open spec fn tagless(s: Seq<char>) -> bool {
    forall|k: int| 0 <= k < s.len() ==> s[k] != '<'
}

/// A pass copies a stretch where its pattern is found nowhere.
proof fn lemma_rewrite_copies(s: Seq<char>, p: Pass, rep: Seq<char>, i: int, e: int)
    requires
        0 <= i <= e <= s.len(),
        forall|k: int| i <= k < e ==> !(k < #[trigger] pass_end(s, k, p) <= s.len()),
    ensures
        rewrite_from(s, p, rep, i) == s.subrange(i, e) + rewrite_from(s, p, rep, e),
    decreases e - i,
{
    if i == e {
        assert(s.subrange(i, e) + rewrite_from(s, p, rep, e) =~= rewrite_from(s, p, rep, e));
    } else {
        assert(!(i < pass_end(s, i, p) <= s.len()));
        lemma_rewrite_copies(s, p, rep, i + 1, e);
        assert(seq![s[i]] + (s.subrange(i + 1, e) + rewrite_from(s, p, rep, e))
            =~= s.subrange(i, e) + rewrite_from(s, p, rep, e));
    }
}

proof fn lemma_no_pass_off_tag(s: Seq<char>, k: int, p: Pass)
    requires
        0 <= k < s.len(),
        s[k] != '<',
    ensures
        pass_end(s, k, p) == -1,
{
}

/// The heading pass copies a stretch where no heading starts.
proof fn lemma_hpass_copies(s: Seq<char>, i: int, e: int, n: nat)
    requires
        0 <= i <= e <= s.len(),
        forall|k: int| i <= k < e ==> #[trigger] heading_at(s, k) is None,
    ensures
        hpass(s, i, n) == (s.subrange(i, e) + hpass(s, e, n).0, hpass(s, e, n).1),
    decreases e - i,
{
    if i == e {
        assert(s.subrange(i, e) + hpass(s, e, n).0 =~= hpass(s, e, n).0);
    } else {
        assert(heading_at(s, i) is None);
        lemma_hpass_copies(s, i + 1, e, n);
        assert(seq![s[i]] + (s.subrange(i + 1, e) + hpass(s, e, n).0) =~= s.subrange(i, e) + hpass(s, e, n).0);
    }
}

/// Every pass leaves text without tags as it is.
proof fn lemma_tagless_passes(a: Seq<char>)
    requires
        tagless(a),
    ensures
        rewrite(a, Pass::Scripts, seq![' ']) == a,
        hpass(a, 0, 0) == (a, Seq::<(u8, Seq<char>)>::empty()),
        rewrite(a, Pass::Blocks, seq!['\n']) == a,
        rewrite(a, Pass::Tags, seq![' ']) == a,
        html_paragraphs(a) == lines_paragraphs(lines(a), Seq::empty()),
{
    let n = a.len() as int;
    assert(a.subrange(0, n) =~= a);
    assert(rewrite_from(a, Pass::Scripts, seq![' '], n) =~= Seq::<char>::empty());
    assert(a + Seq::<char>::empty() =~= a);
    assert forall|k: int| 0 <= k < n implies !(k < #[trigger] pass_end(a, k, Pass::Scripts) <= a.len()) by {
        lemma_no_pass_off_tag(a, k, Pass::Scripts);
    }
    lemma_rewrite_copies(a, Pass::Scripts, seq![' '], 0, n);
    assert forall|k: int| 0 <= k < n implies #[trigger] heading_at(a, k) is None by {}
    lemma_hpass_copies(a, 0, n, 0);
    assert forall|k: int| 0 <= k < n implies !(k < #[trigger] pass_end(a, k, Pass::Blocks) <= a.len()) by {
        lemma_no_pass_off_tag(a, k, Pass::Blocks);
    }
    lemma_rewrite_copies(a, Pass::Blocks, seq!['\n'], 0, n);
    assert forall|k: int| 0 <= k < n implies !(k < #[trigger] pass_end(a, k, Pass::Tags) <= a.len()) by {
        lemma_no_pass_off_tag(a, k, Pass::Tags);
    }
    lemma_rewrite_copies(a, Pass::Tags, seq![' '], 0, n);
}

proof fn lemma_lines_paragraphs_concat(l1: Seq<Seq<char>>, l2: Seq<Seq<char>>, hs: Seq<(u8, Seq<char>)>)
    ensures
        lines_paragraphs(l1 + l2, hs) == lines_paragraphs(l1, hs) + lines_paragraphs(l2, hs),
    decreases l2.len(),
{
    if l2.len() == 0 {
        assert(l1 + l2 =~= l1);
        assert(lines_paragraphs(l1, hs) + lines_paragraphs(l2, hs) =~= lines_paragraphs(l1, hs));
    } else {
        lemma_lines_paragraphs_concat(l1, l2.drop_last(), hs);
        assert((l1 + l2).drop_last() =~= l1 + l2.drop_last());
        assert((l1 + l2).last() == l2.last());
    }
}

/// The block-level element names: `p`, `div`, `br`, `li`, `ul`, `ol`, `tr`,
/// `table`, `section` and `article`.
pub open spec fn block_names() -> Seq<Seq<char>> {
    seq![seq!['p'], seq!['d', 'i', 'v'], seq!['b', 'r'], seq!['l', 'i'], seq!['u', 'l'], seq!['o', 'l'],
        seq!['t', 'r'], seq!['t', 'a', 'b', 'l', 'e'], seq!['s', 'e', 'c', 't', 'i', 'o', 'n'],
        seq!['a', 'r', 't', 'i', 'c', 'l', 'e']]
}

/// A bare opening or closing tag of the named element: `<name>` or `</name>`.
pub open spec fn bare_tag(name: Seq<char>, t: Seq<char>) -> bool {
    t == seq!['<'] + name + seq!['>'] || t == seq!['<', '/'] + name + seq!['>']
}

proof fn lemma_block_name_facts(name: Seq<char>)
    requires
        block_names().contains(name),
    ensures
        name.len() >= 1,
        forall|k: int| 0 <= k < name.len() ==> 'a' <= #[trigger] name[k] <= 'z',
        name[0] != 'h' && name[0] != 'H',
        name[0] == 's' ==> name.len() >= 2 && name[1] == 'e',
{
    let i = choose|i: int| 0 <= i < block_names().len() && block_names()[i] == name;
    assert(0 <= i < 10);
}

/// The first `>` from `j` on is at `e`.
proof fn lemma_first_gt_at(s: Seq<char>, j: int, e: int)
    requires
        0 <= j <= e < s.len(),
        s[e] == '>',
        forall|m: int| j <= m < e ==> s[m] != '>',
    ensures
        first_from(s, gt(), j) == e,
    decreases e - j,
{
    if j == e {
        assert(s.subrange(j, j + 1) =~= gt());
    } else {
        assert(s.subrange(j, j + 1)[0] == s[j]);
        assert(!occurs_at(s, gt(), j));
        lemma_first_gt_at(s, j + 1, e);
    }
}

/// The one tag of `s` opens at `ia` and is no script, style, head or
/// heading element: the script and heading passes leave `s` as it is.
proof fn lemma_one_plain_tag(s: Seq<char>, ia: int)
    requires
        0 <= ia,
        ia + 2 < s.len(),
        s[ia] == '<',
        !folds_to(s[ia + 1], 'h'),
        !(folds_to(s[ia + 1], 's') && folds_to(s[ia + 2], 'c')),
        !(folds_to(s[ia + 1], 's') && folds_to(s[ia + 2], 't')),
        forall|k: int| 0 <= k < s.len() && k != ia ==> s[k] != '<',
    ensures
        rewrite(s, Pass::Scripts, seq![' ']) == s,
        hpass(s, 0, 0) == (s, Seq::<(u8, Seq<char>)>::empty()),
{
    let n = s.len() as int;
    assert(!word_ci_at(s, ia + 1, seq!['s', 'c', 'r', 'i', 'p', 't'])) by {
        if word_ci_at(s, ia + 1, seq!['s', 'c', 'r', 'i', 'p', 't']) {
            assert(folds_to(s[ia + 1], seq!['s', 'c', 'r', 'i', 'p', 't'][0]));
            assert(folds_to(s[ia + 2], seq!['s', 'c', 'r', 'i', 'p', 't'][1]));
        }
    }
    assert(!word_ci_at(s, ia + 1, seq!['s', 't', 'y', 'l', 'e'])) by {
        if word_ci_at(s, ia + 1, seq!['s', 't', 'y', 'l', 'e']) {
            assert(folds_to(s[ia + 1], seq!['s', 't', 'y', 'l', 'e'][0]));
            assert(folds_to(s[ia + 2], seq!['s', 't', 'y', 'l', 'e'][1]));
        }
    }
    assert(!word_ci_at(s, ia + 1, seq!['h', 'e', 'a', 'd'])) by {
        if word_ci_at(s, ia + 1, seq!['h', 'e', 'a', 'd']) {
            assert(folds_to(s[ia + 1], seq!['h', 'e', 'a', 'd'][0]));
        }
    }
    assert(raw_name_len(s, ia + 1) == 0);
    assert forall|k: int| 0 <= k < n implies !(k < #[trigger] pass_end(s, k, Pass::Scripts) <= s.len()) by {
        if k != ia {
            lemma_no_pass_off_tag(s, k, Pass::Scripts);
        }
    }
    lemma_rewrite_copies(s, Pass::Scripts, seq![' '], 0, n);
    assert(rewrite_from(s, Pass::Scripts, seq![' '], n) =~= Seq::<char>::empty());
    assert(s.subrange(0, n) + Seq::<char>::empty() =~= s);
    assert forall|k: int| 0 <= k < n implies #[trigger] heading_at(s, k) is None by {}
    lemma_hpass_copies(s, 0, n, 0);
}

proof fn lemma_tag_layout(a: Seq<char>, t: Seq<char>, b: Seq<char>, name: Seq<char>)
    requires
        tagless(a),
        tagless(b),
        block_names().contains(name),
        bare_tag(name, t),
    ensures
        ({
            let s = a + t + b;
            let ia = a.len() as int;
            let j = if t[1] == '/' { ia + 2 } else { ia + 1 };
            &&& s[ia] == '<'
            &&& !folds_to(s[ia + 1], 'h')
            &&& !(folds_to(s[ia + 1], 's') && folds_to(s[ia + 2], 'c'))
            &&& !(folds_to(s[ia + 1], 's') && folds_to(s[ia + 2], 't'))
            &&& forall|k: int| 0 <= k < s.len() && k != ia ==> s[k] != '<'
            &&& s.subrange(0, ia) == a
            &&& s.subrange(ia + t.len(), s.len() as int) == b
            &&& j + name.len() == ia + t.len() - 1
            &&& s[j + name.len()] == '>'
            &&& forall|m: int| j <= m < j + name.len() ==> s[m] == name[m - j]
        }),
{
    lemma_block_name_facts(name);
    let s = a + t + b;
    let ia = a.len() as int;
    let it = ia + t.len();
    let open = t == seq!['<'] + name + seq!['>'];
    if open {
        assert(t[1] == name[0]);
    } else {
        assert(t[1] == '/');
    }
    let j = if t[1] == '/' { ia + 2 } else { ia + 1 };
    let d = if t[1] == '/' { 2int } else { 1int };
    assert(t.len() == d + name.len() + 1);
    assert forall|k: int| 0 <= k < s.len() && k != ia implies s[k] != '<' by {
        if k < ia {
            assert(s[k] == a[k]);
        } else if k < it {
            assert(s[k] == t[k - ia]);
            if k - ia >= d && k - ia < d + name.len() {
                assert(t[k - ia] == name[k - ia - d]);
            }
        } else {
            assert(s[k] == b[k - it]);
        }
    }
    assert forall|m: int| j <= m < j + name.len() implies s[m] == name[m - j] by {
        assert(s[m] == t[m - ia]);
        assert(t[m - ia] == name[m - ia - d]);
    }
    assert(s[ia] == t[0]);
    assert(s[ia + 1] == t[1]);
    assert(s[ia + 2] == t[2]);
    if !open {
        assert(t[2] == name[0]);
    } else if name.len() >= 2 {
        assert(t[2] == name[1]);
    } else {
        assert(t[2] == '>');
    }
    assert(s[j + name.len()] == t[t.len() - 1]);
    assert(s.subrange(0, ia) =~= a);
    assert(s.subrange(it, s.len() as int) =~= b);
}

/// The block pass turns a block-level tag into a line break.
proof fn lemma_block_tag_pass(a: Seq<char>, t: Seq<char>, b: Seq<char>, name: Seq<char>)
    requires
        tagless(a),
        tagless(b),
        block_names().contains(name),
        bare_tag(name, t),
    ensures
        rewrite(a + t + b, Pass::Blocks, seq!['\n']) == a + seq!['\n'] + b,
{
    let s = a + t + b;
    let ia = a.len() as int;
    let it = ia + t.len();
    let n = s.len() as int;
    lemma_tag_layout(a, t, b, name);
    lemma_block_name_facts(name);
    let j = if t[1] == '/' { ia + 2 } else { ia + 1 };
    assert(word_ci_at(s, j, name)) by {
        assert forall|k: int| 0 <= k < name.len() implies folds_to(s[j + k], #[trigger] name[k]) by {
            assert(s[j + k] == name[k]);
        }
    }
    assert(block_name_at(s, j)) by {
        let i = choose|i: int| 0 <= i < block_names().len() && block_names()[i] == name;
        assert(0 <= i < 10);
    }
    assert forall|m: int| j <= m < j + name.len() implies s[m] != '>' by {
        assert(s[m] == name[m - j]);
    }
    lemma_first_gt_at(s, j, j + name.len());
    assert(block_end(s, ia) == it);
    let nl = seq!['\n'];
    assert forall|k: int| 0 <= k < ia implies !(k < #[trigger] pass_end(s, k, Pass::Blocks) <= s.len()) by {
        lemma_no_pass_off_tag(s, k, Pass::Blocks);
    }
    lemma_rewrite_copies(s, Pass::Blocks, nl, 0, ia);
    assert forall|k: int| it <= k < n implies !(k < #[trigger] pass_end(s, k, Pass::Blocks) <= s.len()) by {
        lemma_no_pass_off_tag(s, k, Pass::Blocks);
    }
    lemma_rewrite_copies(s, Pass::Blocks, nl, it, n);
    assert(rewrite_from(s, Pass::Blocks, nl, n) =~= Seq::<char>::empty());
    assert(rewrite_from(s, Pass::Blocks, nl, ia) == nl + rewrite_from(s, Pass::Blocks, nl, it));
    assert(rewrite(s, Pass::Blocks, nl) =~= a + nl + b);
}

/// A block-level tag (`<p>`, `<div>`, `<br>`, `<li>`, `<ul>`, `<ol>`, `<tr>`,
/// `<table>`, `<section>` or `<article>`, opening or closing) between two
/// runs of text without tags splits them: the paragraphs are those of the
/// text before it followed by those of the text after it, so no paragraph
/// holds text from both sides.
pub proof fn lemma_block_tag_splits(a: Seq<char>, t: Seq<char>, b: Seq<char>, name: Seq<char>)
    requires
        tagless(a),
        tagless(b),
        block_names().contains(name),
        bare_tag(name, t),
    ensures
        html_paragraphs(a + t + b) == html_paragraphs(a) + html_paragraphs(b),
{
    let s = a + t + b;
    let nl = seq!['\n'];
    lemma_tag_layout(a, t, b, name);
    lemma_one_plain_tag(s, a.len() as int);
    lemma_block_tag_pass(a, t, b, name);
    let bl = a + nl + b;
    assert(tagless(bl)) by {
        assert forall|k: int| 0 <= k < bl.len() implies bl[k] != '<' by {
            if k < a.len() {
                assert(bl[k] == a[k]);
            } else if k > a.len() {
                assert(bl[k] == b[k - a.len() - 1]);
            }
        }
    }
    lemma_tagless_passes(bl);
    lemma_tagless_passes(a);
    lemma_tagless_passes(b);
    split::lemma_lines_join(a, b);
    lemma_lines_paragraphs_concat(lines(a), lines(b), Seq::empty());
}

/// A list-item tag, `<li>` or `</li>`, between two runs of text without
/// tags splits them: the paragraphs are those of the text before it
/// followed by those of the text after it.
pub proof fn lemma_list_item_tag_splits(a: Seq<char>, t: Seq<char>, b: Seq<char>)
    requires
        tagless(a),
        tagless(b),
        t == seq!['<', 'l', 'i', '>'] || t == seq!['<', '/', 'l', 'i', '>'],
    ensures
        html_paragraphs(a + t + b) == html_paragraphs(a) + html_paragraphs(b),
{
    let name = seq!['l', 'i'];
    assert(block_names()[3] == name);
    assert(seq!['<'] + name + seq!['>'] =~= seq!['<', 'l', 'i', '>']);
    assert(seq!['<', '/'] + name + seq!['>'] =~= seq!['<', '/', 'l', 'i', '>']);
    lemma_block_tag_splits(a, t, b, name);
}

/// The raw-text element names: `script`, `style` and `head`.
pub open spec fn raw_names() -> Seq<Seq<char>> {
    seq![seq!['s', 'c', 'r', 'i', 'p', 't'], seq!['s', 't', 'y', 'l', 'e'], seq!['h', 'e', 'a', 'd']]
}

/// The raw-text element name spelled at `j` is recognised as itself.
proof fn lemma_raw_name_at(s: Seq<char>, j: int, name: Seq<char>)
    requires
        raw_names().contains(name),
        0 <= j,
        j + name.len() <= s.len(),
        forall|k: int| 0 <= k < name.len() ==> s[j + k] == name[k],
    ensures
        raw_name_len(s, j) == name.len(),
{
    let i = choose|i: int| 0 <= i < raw_names().len() && raw_names()[i] == name;
    assert(word_ci_at(s, j, name)) by {
        assert forall|k: int| 0 <= k < name.len() implies folds_to(s[j + k], #[trigger] name[k]) by {
            assert(s[j + k] == name[k]);
        }
    }
    if i == 1 {
        assert(s[j + 1] == 't');
        assert(!folds_to(s[j + 1], seq!['s', 'c', 'r', 'i', 'p', 't'][1]));
    } else if i == 2 {
        assert(s[j] == 'h');
        assert(!folds_to(s[j], seq!['s', 'c', 'r', 'i', 'p', 't'][0]));
        assert(!folds_to(s[j], seq!['s', 't', 'y', 'l', 'e'][0]));
    }
}

/// The first closing raw-text tag from `q` on, where no tag opens before `e`.
proof fn lemma_first_raw_close_at(s: Seq<char>, q: int, e: int)
    requires
        0 <= q <= e < s.len(),
        forall|m: int| q <= m < e ==> s[m] != '<',
        raw_close_end(s, e) > 0,
    ensures
        first_raw_close(s, q) == raw_close_end(s, e),
    decreases e - q,
{
    if q < e {
        lemma_first_raw_close_at(s, q + 1, e);
    }
}

proof fn lemma_raw_layout(a: Seq<char>, name: Seq<char>, x: Seq<char>, b: Seq<char>)
    requires
        tagless(a),
        tagless(x),
        tagless(b),
        raw_names().contains(name),
    ensures
        ({
            let o = seq!['<'] + name + seq!['>'];
            let c = seq!['<', '/'] + name + seq!['>'];
            let s = a + o + x + c + b;
            let ia = a.len() as int;
            let ix = ia + o.len() + x.len();
            let ie = ix + c.len();
            &&& name.len() >= 4
            &&& ie <= s.len()
            &&& s.subrange(0, ia) == a
            &&& s.subrange(ie, s.len() as int) == b
            &&& forall|k: int| 0 <= k < ia ==> s[k] != '<'
            &&& forall|k: int| ia + o.len() <= k < ix ==> s[k] != '<'
            &&& forall|k: int| ie <= k < s.len() ==> s[k] != '<'
            &&& forall|k: int| 0 <= k < name.len() ==> s[ia + 1 + k] == name[k]
            &&& forall|k: int| 0 <= k < name.len() ==> s[ix + 2 + k] == name[k]
            &&& s[ia] == '<' && s[ia + 1 + name.len()] == '>'
            &&& s[ix] == '<' && s[ix + 1] == '/' && s[ix + 2 + name.len()] == '>'
        }),
{
    let o = seq!['<'] + name + seq!['>'];
    let c = seq!['<', '/'] + name + seq!['>'];
    let s = a + o + x + c + b;
    let ia = a.len() as int;
    let ix = ia + o.len() + x.len();
    let ie = ix + c.len();
    let n = s.len() as int;
    let i0 = choose|i: int| 0 <= i < raw_names().len() && raw_names()[i] == name;
    assert(name.len() >= 4);
    assert forall|k: int| 0 <= k < ia implies s[k] != '<' by { assert(s[k] == a[k]); }
    assert forall|k: int| ia + o.len() <= k < ix implies s[k] != '<' by { assert(s[k] == x[k - ia - o.len()]); }
    assert forall|k: int| ie <= k < n implies s[k] != '<' by { assert(s[k] == b[k - ie]); }
    assert forall|k: int| 0 <= k < name.len() implies s[ia + 1 + k] == name[k] by {
        assert(s[ia + 1 + k] == o[1 + k]);
    }
    assert forall|k: int| 0 <= k < name.len() implies s[ix + 2 + k] == name[k] by {
        assert(s[ix + 2 + k] == c[2 + k]);
    }
    assert(s[ia] == o[0]);
    assert(s[ia + 1 + name.len()] == o[o.len() - 1]);
    assert(s[ix] == c[0]);
    assert(s[ix + 1] == c[1]);
    assert(s[ix + 2 + name.len()] == c[c.len() - 1]);
    assert(s.subrange(0, ia) =~= a);
    assert(s.subrange(ie, n) =~= b);
}

proof fn lemma_raw_script_pass(a: Seq<char>, name: Seq<char>, x: Seq<char>, b: Seq<char>)
    requires
        tagless(a),
        tagless(x),
        tagless(b),
        raw_names().contains(name),
    ensures
        rewrite(a + (seq!['<'] + name + seq!['>']) + x + (seq!['<', '/'] + name + seq!['>']) + b, Pass::Scripts, seq![' '])
            == a + seq![' '] + b,
{
    let o = seq!['<'] + name + seq!['>'];
    let c = seq!['<', '/'] + name + seq!['>'];
    let s = a + o + x + c + b;
    let ia = a.len() as int;
    let ix = ia + o.len() + x.len();
    let ie = ix + c.len();
    let n = s.len() as int;
    let sp = seq![' '];
    lemma_raw_layout(a, name, x, b);
    lemma_raw_name_at(s, ia + 1, name);
    lemma_raw_name_at(s, ix + 2, name);
    assert(raw_close_end(s, ix) == ie);
    let g = ia + 1 + name.len();
    lemma_first_gt_at(s, g, g);
    lemma_first_raw_close_at(s, g + 1, ix);
    assert(script_end(s, ia) == ie);
    assert forall|k: int| 0 <= k < ia implies !(k < #[trigger] pass_end(s, k, Pass::Scripts) <= s.len()) by {
        lemma_no_pass_off_tag(s, k, Pass::Scripts);
    }
    lemma_rewrite_copies(s, Pass::Scripts, sp, 0, ia);
    assert forall|k: int| ie <= k < n implies !(k < #[trigger] pass_end(s, k, Pass::Scripts) <= s.len()) by {
        lemma_no_pass_off_tag(s, k, Pass::Scripts);
    }
    lemma_rewrite_copies(s, Pass::Scripts, sp, ie, n);
    assert(rewrite_from(s, Pass::Scripts, sp, n) =~= Seq::<char>::empty());
    assert(rewrite_from(s, Pass::Scripts, sp, ia) == sp + rewrite_from(s, Pass::Scripts, sp, ie));
    assert(rewrite(s, Pass::Scripts, sp) =~= a + sp + b);
}

/// A script, style or head element between runs of text without tags is
/// dropped whole, content included, and stands as a space: the paragraphs
/// are those of the text with the element replaced by one space.
pub proof fn lemma_raw_element_dropped(a: Seq<char>, name: Seq<char>, x: Seq<char>, b: Seq<char>)
    requires
        tagless(a),
        tagless(x),
        tagless(b),
        raw_names().contains(name),
    ensures
        html_paragraphs(a + (seq!['<'] + name + seq!['>']) + x + (seq!['<', '/'] + name + seq!['>']) + b)
            == html_paragraphs(a + seq![' '] + b),
{
    let r = a + seq![' '] + b;
    lemma_raw_script_pass(a, name, x, b);
    assert(tagless(r)) by {
        assert forall|k: int| 0 <= k < r.len() implies r[k] != '<' by {
            if k < a.len() {
                assert(r[k] == a[k]);
            } else if k > a.len() {
                assert(r[k] == b[k - a.len() - 1]);
            }
        }
    }
    lemma_tagless_passes(r);
}

proof fn lemma_replace_absent(s: Seq<char>, pat: Seq<char>, rep: Seq<char>, i: int)
    requires
        0 <= i <= s.len(),
        pat.len() > 0,
        forall|k: int| i <= k < s.len() ==> s[k] != pat[0],
    ensures
        replace_from(s, pat, rep, i) == s.skip(i),
    decreases s.len() - i,
{
    if i < s.len() {
        assert(!occurs_at(s, pat, i)) by {
            if occurs_at(s, pat, i) {
                assert(s.subrange(i, i + pat.len())[0] == s[i]);
            }
        }
        lemma_replace_absent(s, pat, rep, i + 1);
        assert(seq![s[i]] + s.skip(i + 1) =~= s.skip(i));
    } else {
        assert(s.skip(i) =~= Seq::<char>::empty());
    }
}

/// Text without an ampersand holds no entity: decoding leaves it as it is.
proof fn lemma_decoded_plain(s: Seq<char>)
    requires
        forall|k: int| 0 <= k < s.len() ==> s[k] != '&',
    ensures
        decoded(s) == s,
{
    reveal_strlit("&nbsp;");
    reveal_strlit("&amp;");
    reveal_strlit("&lt;");
    reveal_strlit("&gt;");
    reveal_strlit("&quot;");
    reveal_strlit("&#39;");
    reveal_strlit("&apos;");
    assert(s.skip(0) =~= s);
    lemma_replace_absent(s, "&nbsp;"@, " "@, 0);
    lemma_replace_absent(s, "&amp;"@, "&"@, 0);
    lemma_replace_absent(s, "&lt;"@, "<"@, 0);
    lemma_replace_absent(s, "&gt;"@, ">"@, 0);
    lemma_replace_absent(s, "&quot;"@, "\""@, 0);
    lemma_replace_absent(s, "&#39;"@, "'"@, 0);
    lemma_replace_absent(s, "&apos;"@, "'"@, 0);
}

/// A text without whitespace is its own normal form.
proof fn lemma_squash_no_ws(s: Seq<char>)
    requires
        forall|k: int| 0 <= k < s.len() ==> !chars::is_ws(s[k]),
    ensures
        chars::squash_state(s) == (s, false),
    decreases s.len(),
{
    if s.len() > 0 {
        lemma_squash_no_ws(s.drop_last());
        assert(s.drop_last().push(s.last()) =~= s);
    } else {
        assert(s =~= Seq::<char>::empty());
    }
}

/// The marker line of the first heading, and what reading it back gives.
proof fn lemma_first_marker()
    ensures
        marker(0) == seq!['\n'] + (marker_head() + seq!['0'] + marker_tail()) + seq!['\n'],
        marker_index(marker_head() + seq!['0'] + marker_tail()) == Some(0usize),
        forall|k: int| 0 <= k < marker(0).len() ==> marker(0)[k] != '<' && marker(0)[k] != '&',
        forall|k: int| 0 <= k < (marker_head() + seq!['0'] + marker_tail()).len() ==>
            !chars::is_ws((marker_head() + seq!['0'] + marker_tail())[k])
            && (marker_head() + seq!['0'] + marker_tail())[k] != '\n'
            && (marker_head() + seq!['0'] + marker_tail())[k] != '&',
{
    reveal_strlit("\n@@DRAFTOS_HEADING_");
    reveal_strlit("@@\n");
    reveal_strlit("@@DRAFTOS_HEADING_");
    reveal_strlit("@@");
    assert(decimal(0) =~= seq!['0']);
    let m = marker_head() + seq!['0'] + marker_tail();
    assert(marker(0) =~= seq!['\n'] + m + seq!['\n']);
    let rest = m.skip(marker_head().len() as int);
    assert(rest =~= seq!['0', '@', '@']);
    assert(m.take(marker_head().len() as int) =~= marker_head());
    assert(rest.skip(rest.len() - marker_tail().len()) =~= marker_tail());
    let d = rest.take(rest.len() - marker_tail().len());
    assert(d =~= seq!['0']);
    assert(crate::wordml::unsigned_digits(d) == d);
    assert(d.drop_last() =~= Seq::<char>::empty());
    assert(d.last() == '0');
    assert(('0' as nat) == 48);
    assert(crate::wordml::digits_value(d.drop_last()) == 0);
    assert(crate::wordml::digits_value(d) == 0);
}

proof fn lemma_heading_layout(level: char, x: Seq<char>, close: char)
    requires
        '1' <= level <= '6',
        '1' <= close <= '6',
        tagless(x),
    ensures
        ({
            let s = seq!['<', 'h', level, '>'] + x + seq!['<', '/', 'h', close, '>'];
            let p = 4 + x.len() as int;
            &&& s.len() == p + 5
            &&& forall|k: int| 4 <= k < p ==> s[k] == x[k - 4]
            &&& s[0] == '<' && s[1] == 'h' && s[2] == level && s[3] == '>'
            &&& s[p] == '<' && s[p + 1] == '/' && s[p + 2] == 'h' && s[p + 3] == close && s[p + 4] == '>'
            &&& s.subrange(4, p) == x
        }),
{
    let c = seq!['<', '/', 'h', close, '>'];
    let s = seq!['<', 'h', level, '>'] + x + c;
    let p = 4 + x.len() as int;
    assert forall|k: int| 4 <= k < p implies s[k] == x[k - 4] by {}
    assert(s[p] == c[0]);
    assert(s[p + 1] == c[1]);
    assert(s[p + 2] == c[2]);
    assert(s[p + 3] == c[3]);
    assert(s[p + 4] == c[4]);
    assert(s.subrange(4, p) =~= x);
}

proof fn lemma_heading_passes(level: char, x: Seq<char>, close: char)
    requires
        '1' <= level <= '6',
        '1' <= close <= '6',
        tagless(x),
        forall|k: int| 0 <= k < x.len() ==> x[k] != '&',
    ensures
        ({
            let s = seq!['<', 'h', level, '>'] + x + seq!['<', '/', 'h', close, '>'];
            &&& rewrite(s, Pass::Scripts, seq![' ']) == s
            &&& hpass(s, 0, 0) == (marker(0), seq![(((level as int) - 48) as u8, x)])
        }),
{
    let s = seq!['<', 'h', level, '>'] + x + seq!['<', '/', 'h', close, '>'];
    let p = 4 + x.len() as int;
    let n = s.len() as int;
    lemma_heading_layout(level, x, close);
    assert(!folds_to(s[1], 's'));
    assert(!folds_to(s[p + 1], 's') && !folds_to(s[p + 1], 'h'));
    assert(!word_ci_at(s, 1, seq!['h', 'e', 'a', 'd'])) by {
        assert(!folds_to(s[2], seq!['h', 'e', 'a', 'd'][1]));
    }
    assert(raw_name_len(s, 1) == 0);
    assert(raw_name_len(s, p + 1) == 0);
    assert forall|k: int| 0 <= k < n implies !(k < #[trigger] pass_end(s, k, Pass::Scripts) <= s.len()) by {
        if k != 0 && k != p {
            if 4 <= k < p {
                assert(s[k] == x[k - 4]);
            }
            lemma_no_pass_off_tag(s, k, Pass::Scripts);
        }
    }
    lemma_rewrite_copies(s, Pass::Scripts, seq![' '], 0, n);
    assert(rewrite_from(s, Pass::Scripts, seq![' '], n) =~= Seq::<char>::empty());
    assert(s.subrange(0, n) + Seq::<char>::empty() =~= s);
    lemma_first_gt_at(s, 3, 3);
    assert(hclose_at(s, p));
    assert forall|q: int| 4 <= q < p implies !hclose_at(s, q) by {
        assert(s[q] == x[q - 4]);
    }
    lemma_first_hclose_at(s, 4, p);
    assert(heading_at(s, 0) == Some((((level as int) - 48) as u8, 4int, p)));
    assert(hpass(s, n, 1) == (Seq::<char>::empty(), Seq::<(u8, Seq<char>)>::empty()));
    lemma_tagless_passes(x);
    lemma_decoded_plain(x);
    assert(heading_text(x) == x);
    let hs = seq![(((level as int) - 48) as u8, x)];
    assert(marker(0) + Seq::<char>::empty() =~= marker(0));
    assert(hs + Seq::<(u8, Seq<char>)>::empty() =~= hs);
}

proof fn lemma_marker_paragraphs(hs: Seq<(u8, Seq<char>)>)
    requires
        hs.len() == 1,
        squash(hs[0].1).len() > 0,
    ensures
        html_paragraphs_of_marked(marker(0), hs) == seq![(squash(hs[0].1), Some(hs[0].0))],
{
    lemma_first_marker();
    let mk = marker(0);
    assert(tagless(mk));
    lemma_tagless_passes(mk);
    let m = marker_head() + seq!['0'] + marker_tail();
    let e = Seq::<char>::empty();
    assert(mk =~= e + seq!['\n'] + (m + seq!['\n'] + e));
    split::lemma_lines_join(e, m + seq!['\n'] + e);
    split::lemma_lines_join(m, e);
    assert(!m.contains('\n')) by {
        if m.contains('\n') {
            let k = choose|k: int| 0 <= k < m.len() && m[k] == '\n';
        }
    }
    assert(!e.contains('\n'));
    split::lemma_one_line(m);
    split::lemma_one_line(e);
    assert(lines(mk) =~= seq![e, m, e]);
    lemma_decoded_plain(e);
    assert(squash(e) =~= e);
    lemma_decoded_plain(m);
    lemma_squash_no_ws(m);
    assert(line_paragraphs(e, hs) =~= Seq::<(Seq<char>, Option<u8>)>::empty());
    assert(line_paragraphs(m, hs) == seq![(squash(hs[0].1), Some(hs[0].0))]);
    assert(seq![e, m, e].drop_last() =~= seq![e, m]);
    assert(seq![e, m].drop_last() =~= seq![e]);
    assert(seq![e].drop_last() =~= Seq::<Seq<char>>::empty());
    let one = seq![(squash(hs[0].1), Some(hs[0].0))];
    let none = Seq::<(Seq<char>, Option<u8>)>::empty();
    assert(seq![e].last() == e);
    assert(seq![e, m].last() == m);
    assert(seq![e, m, e].last() == e);
    assert(lines_paragraphs(Seq::<Seq<char>>::empty(), hs) == none);
    assert(lines_paragraphs(seq![e], hs) == none + none);
    assert(none + none =~= none);
    assert(lines_paragraphs(seq![e, m], hs) == none + one);
    assert(none + one =~= one);
    assert(lines_paragraphs(seq![e, m, e], hs) == one + none);
    assert(one + none =~= one);
}

/// The paragraphs of a text once its headings are set aside: the last three
/// steps of `html_paragraphs`.
pub open spec fn html_paragraphs_of_marked(h: Seq<char>, hs: Seq<(u8, Seq<char>)>) -> Seq<(Seq<char>, Option<u8>)> {
    lines_paragraphs(lines(rewrite(rewrite(h, Pass::Blocks, seq!['\n']), Pass::Tags, seq![' '])), hs)
}

/// A heading element `<hN>…</hM>` (level `N` from 1 to 6) around text
/// without tags or entities is one paragraph: the text, whitespace
/// collapsed, at heading level `N`.
pub proof fn lemma_heading_element(level: char, x: Seq<char>, close: char)
    requires
        '1' <= level <= '6',
        '1' <= close <= '6',
        tagless(x),
        forall|k: int| 0 <= k < x.len() ==> x[k] != '&',
        squash(x).len() > 0,
    ensures
        html_paragraphs(seq!['<', 'h', level, '>'] + x + seq!['<', '/', 'h', close, '>'])
            == seq![(squash(x), Some(((level as int) - 48) as u8))],
{
    let s = seq!['<', 'h', level, '>'] + x + seq!['<', '/', 'h', close, '>'];
    lemma_heading_passes(level, x, close);
    let hs = seq![(((level as int) - 48) as u8, x)];
    lemma_marker_paragraphs(hs);
    assert(html_paragraphs(s) == html_paragraphs_of_marked(marker(0), hs));
}

proof fn lemma_first_hclose_at(s: Seq<char>, q: int, p: int)
    requires
        0 <= q <= p,
        hclose_at(s, p),
        forall|k: int| q <= k < p ==> !hclose_at(s, k),
    ensures
        first_hclose(s, q) == p,
    decreases p - q,
{
    if q < p {
        lemma_first_hclose_at(s, q + 1, p);
    }
}

pub open spec fn paragraphs_view(v: Seq<Paragraph>) -> Seq<(Seq<char>, Option<u8>)> {
    v.map_values(|p: Paragraph| split::paragraph_view(p))
}

proof fn lemma_hpass_levels(s: Seq<char>, i: int, n: nat)
    ensures
        forall|k: int| 0 <= k < hpass(s, i, n).1.len() ==> 1 <= #[trigger] hpass(s, i, n).1[k].0 <= 6,
    decreases s.len() - i,
{
    if !(i < 0 || i >= s.len()) {
        let h = heading_at(s, i);
        if h is Some && i < h.unwrap().1 <= h.unwrap().2 && h.unwrap().2 + 5 <= s.len() {
            lemma_hpass_levels(s, h.unwrap().2 + 5, n + 1);
            let rest = hpass(s, h.unwrap().2 + 5, n + 1);
            let hd = seq![(h.unwrap().0, heading_text(s.subrange(h.unwrap().1, h.unwrap().2)))];
            assert(hpass(s, i, n).1 == hd + rest.1);
            assert(1 <= h.unwrap().0 <= 6);
            assert forall|k: int| 0 <= k < (hd + rest.1).len() implies 1 <= #[trigger] (hd + rest.1)[k].0 <= 6 by {
                if k > 0 {
                    assert((hd + rest.1)[k] == rest.1[k - 1]);
                }
            }
        } else {
            lemma_hpass_levels(s, i + 1, n);
            assert(hpass(s, i, n).1 == hpass(s, i + 1, n).1);
        }
    }
}

proof fn lemma_lines_paragraphs(ls: Seq<Seq<char>>, hs: Seq<(u8, Seq<char>)>)
    requires
        forall|k: int| 0 <= k < hs.len() ==> 1 <= #[trigger] hs[k].0 <= 6,
    ensures
        forall|k: int| 0 <= k < lines_paragraphs(ls, hs).len() ==> {
            &&& (#[trigger] lines_paragraphs(ls, hs)[k]).0.len() > 0
            &&& (lines_paragraphs(ls, hs)[k].1 matches Some(l) ==> 1 <= l <= 6)
        },
    decreases ls.len(),
{
    if ls.len() > 0 {
        lemma_lines_paragraphs(ls.drop_last(), hs);
        let prev = lines_paragraphs(ls.drop_last(), hs);
        let last = line_paragraphs(ls.last(), hs);
        assert forall|k: int| 0 <= k < (prev + last).len() implies {
            &&& (#[trigger] (prev + last)[k]).0.len() > 0
            &&& ((prev + last)[k].1 matches Some(l) ==> 1 <= l <= 6)
        } by {
            if k >= prev.len() {
                assert((prev + last)[k] == last[k - prev.len()]);
            } else {
                assert((prev + last)[k] == prev[k]);
            }
        }
    }
}

/// The paragraphs of an HTML text: headings (`h1`–`h6`) at their level,
/// every other non-blank line of text as an undeclared paragraph.
pub fn paragraphs_from_html(html: &str) -> (r: Vec<Paragraph>)
    ensures
        paragraphs_view(r@) == html_paragraphs(html@),
        forall|k: int| 0 <= k < r@.len() ==> (#[trigger] r@[k]).text@.len() > 0,
        forall|k: int| 0 <= k < r@.len() ==> ((#[trigger] r@[k]).heading_level matches Some(l) ==> 1 <= l <= 6),
{
    let v = chars_of(html);
    let space: Vec<char> = vec![' '];
    let newline: Vec<char> = vec!['\n'];
    assert(space@ =~= seq![' ']);
    assert(newline@ =~= seq!['\n']);
    let a = rewrite_chars(v.as_slice(), Pass::Scripts, space.as_slice());
    let (marked, hs) = heading_pass(a.as_slice());
    let b = rewrite_chars(marked.as_slice(), Pass::Blocks, newline.as_slice());
    let c = rewrite_chars(b.as_slice(), Pass::Tags, space.as_slice());
    let ls = split_lines(c.as_slice());
    let ghost lsv = ls@.map_values(|l: Vec<char>| l@);
    let ghost hsv = heads_view(hs@);
    assert(lsv == lines(c@));
    let mut out: Vec<Paragraph> = Vec::new();
    let mut k: usize = 0;
    while k < ls.len()
        invariant
            k <= ls.len(),
            lsv == ls@.map_values(|l: Vec<char>| l@),
            hsv == heads_view(hs@),
            paragraphs_view(out@) == lines_paragraphs(lsv.take(k as int), hsv),
        decreases ls.len() - k,
    {
        assert(lsv.take(k + 1).drop_last() == lsv.take(k as int));
        assert(lsv[k as int] == ls@[k as int]@);
        let ghost o0 = paragraphs_view(out@);
        let d = decode_chars(ls[k].as_slice());
        let t = squash_chars(d.as_slice());
        if t.len() > 0 {
            match marker_index_exec(t.as_slice()) {
                Some(idx) => {
                    if idx < hs.len() {
                        let hv = chars_of(hs[idx].1.as_str());
                        let ht = squash_chars(hv.as_slice());
                        assert(hsv[idx as int] == (hs@[idx as int].0, hs@[idx as int].1@));
                        if ht.len() > 0 {
                            out.push(Paragraph { text: string_of(ht.as_slice()), heading_level: Some(hs[idx].0), ooxml: None });
                            assert(paragraphs_view(out@) =~= o0 + line_paragraphs(lsv[k as int], hsv));
                        } else {
                            assert(line_paragraphs(lsv[k as int], hsv) =~= Seq::empty());
                            assert(o0 + line_paragraphs(lsv[k as int], hsv) =~= o0);
                        }
                    } else {
                        assert(line_paragraphs(lsv[k as int], hsv) =~= Seq::empty());
                        assert(o0 + line_paragraphs(lsv[k as int], hsv) =~= o0);
                    }
                },
                None => {
                    out.push(Paragraph { text: string_of(t.as_slice()), heading_level: None, ooxml: None });
                    assert(paragraphs_view(out@) =~= o0 + line_paragraphs(lsv[k as int], hsv));
                },
            }
        } else {
            assert(line_paragraphs(lsv[k as int], hsv) =~= Seq::empty());
            assert(o0 + line_paragraphs(lsv[k as int], hsv) =~= o0);
        }
        k += 1;
    }
    assert(lsv.take(ls.len() as int) == lsv);
    proof {
        lemma_hpass_levels(a@, 0, 0);
        assert(hsv == hpass(a@, 0, 0).1);
        assert forall|k: int| 0 <= k < hsv.len() implies 1 <= #[trigger] hsv[k].0 <= 6 by {
            assert(hsv[k] == hpass(a@, 0, 0).1[k]);
        }
        lemma_lines_paragraphs(lsv, hsv);
        assert forall|k: int| 0 <= k < out@.len() implies (#[trigger] out@[k]).text@.len() > 0
            && (out@[k].heading_level matches Some(l) ==> 1 <= l <= 6) by {
            assert(paragraphs_view(out@)[k] == split::paragraph_view(out@[k]));
        }
    }
    out
}

} // verus!
