//! Text patterns the assembler recognises in precedent bodies: `{{name}}`
//! placeholders (optionally `{{name|Human Label}}`), clause cross-references
//! ("clause 12.3"), and a leading clause number to strip from a line.

use vstd::prelude::*;
use crate::chars::{self, is_ws_exec, slice_of, push_all, string_of, chars_of};
use crate::grammar::{self, run_while, digits, spaces, lemma_run_step, lemma_run_bound, digit_run, space_run};
use crate::strs;

verus! {

// ---------------------------------------------------------------------------
// Placeholders
// ---------------------------------------------------------------------------

/// Characters of a placeholder name: `[A-Za-z0-9_]`.
pub open spec fn is_name_char(c: char) -> bool {
    chars::is_upper_ascii(c) || chars::is_lower_ascii(c) || chars::is_digit(c) || c == '_'
}

pub open spec fn name_chars() -> spec_fn(char) -> bool {
    |c: char| is_name_char(c)
}

/// Anything but a closing brace.
pub open spec fn not_close() -> spec_fn(char) -> bool {
    |c: char| c != '}'
}

/// Placeholder names are made of ASCII letters, digits and underscores; a
/// placeholder's label runs to the first closing brace.
pub proof fn lemma_placeholder_characters(c: char)
    ensures
        is_name_char(c) == (('A' <= c <= 'Z') || ('a' <= c <= 'z') || ('0' <= c <= '9') || c == '_'),
        (not_close())(c) == (c != '}'),
{
}

/// A placeholder opening at `i`: its name and the index just past it.
/// `{{`, optional whitespace, a non-empty name, optional whitespace, an
/// optional `|label` running up to the next `}`, then `}}`.
pub open spec fn placeholder_at(s: Seq<char>, i: int) -> Option<(Seq<char>, int)> {
    if 0 <= i && i + 1 < s.len() && s[i] == '{' && s[i + 1] == '{' {
        let a = i + 2 + run_while(s, i + 2, spaces());
        let n = run_while(s, a, name_chars());
        let k = a + n;
        let k2 = k + run_while(s, k, spaces());
        let m = if k2 < s.len() && s[k2] == '|' { k2 + 1 + run_while(s, k2 + 1, not_close()) } else { k2 };
        if n > 0 && m + 1 < s.len() && s[m] == '}' && s[m + 1] == '}' {
            Some((s.subrange(a, k), m + 2))
        } else {
            None
        }
    } else {
        None
    }
}

/// The value of the first variable named `name`.
pub open spec fn var_lookup(vars: Seq<(Seq<char>, Seq<char>)>, name: Seq<char>) -> Option<Seq<char>>
    decreases vars.len(),
{
    if vars.len() == 0 {
        None
    } else if vars[0].0 == name {
        Some(vars[0].1)
    } else {
        var_lookup(vars.drop_first(), name)
    }
}

pub open spec fn pairs_view(v: Seq<(String, String)>) -> Seq<(Seq<char>, Seq<char>)> {
    v.map_values(|p: (String, String)| (p.0@, p.1@))
}

/// Substitution from index `i` on: every placeholder whose name has a value
/// is replaced by it; a placeholder without a value is left as written.
pub open spec fn subst_from(s: Seq<char>, i: int, vars: Seq<(Seq<char>, Seq<char>)>) -> Seq<char>
    decreases s.len() - i,
{
    if i < 0 || i >= s.len() {
        Seq::empty()
    } else {
        match placeholder_at(s, i) {
            Some((name, e)) => {
                let repl = match var_lookup(vars, name) {
                    Some(v) => v,
                    None => s.subrange(i, e),
                };
                repl + subst_from(s, e, vars)
            },
            None => seq![s[i]] + subst_from(s, i + 1, vars),
        }
    }
}

/// `text` with its placeholders substituted from `vars`.
pub open spec fn substitution(s: Seq<char>, vars: Seq<(Seq<char>, Seq<char>)>) -> Seq<char> {
    subst_from(s, 0, vars)
}

fn is_name_char_exec(c: char) -> (r: bool)
    ensures
        r == is_name_char(c),
{
    (c >= 'A' && c <= 'Z') || (c >= 'a' && c <= 'z') || (c >= '0' && c <= '9') || c == '_'
}

fn name_run(s: &[char], i: usize) -> (r: usize)
    requires
        i <= s.len(),
    ensures
        r == run_while(s@, i as int, name_chars()),
        i + r <= s.len(),
{
    let mut j = i;
    while j < s.len() && is_name_char_exec(s[j])
        invariant
            i <= j <= s.len(),
            run_while(s@, i as int, name_chars()) == (j - i) + run_while(s@, j as int, name_chars()),
        decreases s.len() - j,
    {
        proof {
            lemma_run_step(s@, j as int, name_chars());
        }
        j += 1;
    }
    j - i
}

fn label_run(s: &[char], i: usize) -> (r: usize)
    requires
        i <= s.len(),
    ensures
        r == run_while(s@, i as int, not_close()),
        i + r <= s.len(),
{
    let mut j = i;
    while j < s.len() && s[j] != '}'
        invariant
            i <= j <= s.len(),
            run_while(s@, i as int, not_close()) == (j - i) + run_while(s@, j as int, not_close()),
        decreases s.len() - j,
    {
        proof {
            lemma_run_step(s@, j as int, not_close());
        }
        j += 1;
    }
    j - i
}

fn placeholder_at_exec(s: &[char], i: usize) -> (r: Option<(usize, usize, usize)>)
    requires
        i < s.len(),
    ensures
        match r {
            Some((a, k, e)) => placeholder_at(s@, i as int) == Some((s@.subrange(a as int, k as int), e as int))
                && i < a <= k < e <= s.len(),
            None => placeholder_at(s@, i as int) is None,
        },
{
    if !(i + 1 < s.len() && s[i] == '{' && s[i + 1] == '{') {
        return None;
    }
    let a = i + 2 + space_run(s, i + 2);
    let n = name_run(s, a);
    let k = a + n;
    let k2 = k + space_run(s, k);
    let m = if k2 < s.len() && s[k2] == '|' { k2 + 1 + label_run(s, k2 + 1) } else { k2 };
    if n > 0 && s.len() - m > 1 && s[m] == '}' && s[m + 1] == '}' {
        Some((a, k, m + 2))
    } else {
        None
    }
}

fn lookup_var(vars: &Vec<(String, String)>, name: &[char]) -> (r: Option<Vec<char>>)
    ensures
        match r {
            Some(v) => var_lookup(pairs_view(vars@), name@) == Some(v@),
            None => var_lookup(pairs_view(vars@), name@) is None,
        },
{
    let mut i: usize = 0;
    assert(pairs_view(vars@).skip(0) =~= pairs_view(vars@));
    while i < vars.len()
        invariant
            i <= vars.len(),
            var_lookup(pairs_view(vars@), name@) == var_lookup(pairs_view(vars@).skip(i as int), name@),
        decreases vars.len() - i,
    {
        let ghost rest = pairs_view(vars@).skip(i as int);
        assert(rest[0] == (vars@[i as int].0@, vars@[i as int].1@));
        assert(rest.drop_first() == pairs_view(vars@).skip(i + 1));
        let key = chars_of(vars[i].0.as_str());
        if chars::eq_chars(key.as_slice(), name) {
            return Some(chars_of(vars[i].1.as_str()));
        }
        i += 1;
    }
    assert(pairs_view(vars@).skip(vars.len() as int).len() == 0);
    None
}

/// Replace `{{name}}` / `{{name|Label}}` placeholders with the matter's
/// values; placeholders without a value stay as written so validation can
/// flag them.
pub fn substitute(text: &str, vars: &Vec<(String, String)>) -> (r: String)
    ensures
        r@ == substitution(text@, pairs_view(vars@)),
{
    let s = chars_of(text);
    let ghost vv = pairs_view(vars@);
    let mut out: Vec<char> = Vec::new();
    let mut i: usize = 0;
    while i < s.len()
        invariant
            i <= s.len(),
            s@ == text@,
            vv == pairs_view(vars@),
            out@ + subst_from(s@, i as int, vv) == subst_from(s@, 0, vv),
        decreases s.len() - i,
    {
        match placeholder_at_exec(s.as_slice(), i) {
            Some((a, k, e)) => {
                let name = slice_of(s.as_slice(), a, k);
                match lookup_var(vars, name.as_slice()) {
                    Some(v) => {
                        let ghost o0 = out@;
                        out.append(&mut v.clone());
                        assert(out@ == o0 + v@);
                    },
                    None => {
                        let lit = slice_of(s.as_slice(), i, e);
                        let ghost o0 = out@;
                        out.append(&mut lit.clone());
                        assert(out@ == o0 + lit@);
                    },
                }
                proof {
                    assert(out@ + subst_from(s@, e as int, vv) == subst_from(s@, 0, vv)) by {
                        assert(subst_from(s@, i as int, vv) == (match var_lookup(vv, name@) {
                            Some(v) => v,
                            None => s@.subrange(i as int, e as int),
                        }) + subst_from(s@, e as int, vv));
                    }
                }
                i = e;
            },
            None => {
                let ghost o0 = out@;
                out.push(s[i]);
                assert(subst_from(s@, i as int, vv) == seq![s@[i as int]] + subst_from(s@, i + 1, vv));
                assert(out@ == o0 + seq![s@[i as int]]);
                i += 1;
            },
        }
    }
    string_of(out.as_slice())
}

// ---------------------------------------------------------------------------
// Cross-references: "clause" (case-insensitive), whitespace, then a number
// path such as 12 or 12.3.1.
// ---------------------------------------------------------------------------

/// `c` matches the lower-case letter `l` under simple case folding (the long
/// s `ſ` folds to `s`).
pub open spec fn folds_to(c: char, l: char) -> bool {
    c == l || c == chars::upper_char(l) || (l == 's' && c == '\u{17F}')
}

/// The word "clause" (any case) at `i`.
pub open spec fn clause_word_at(s: Seq<char>, i: int) -> bool {
    &&& 0 <= i && i + 6 <= s.len()
    &&& folds_to(s[i], 'c')
    &&& folds_to(s[i + 1], 'l')
    &&& folds_to(s[i + 2], 'a')
    &&& folds_to(s[i + 3], 'u')
    &&& folds_to(s[i + 4], 's')
    &&& folds_to(s[i + 5], 'e')
}

/// End of a dotted number path whose last digit group ends at `j`: further
/// groups of a "." and one or more digits.
pub open spec fn dotted_end(s: Seq<char>, j: int) -> int
    decreases s.len() - j,
{
    if 0 <= j && j + 1 < s.len() && s[j] == '.' && chars::decimal_digit(s[j + 1]) {
        proof {
            assert(digits()(s[j + 1]));
            lemma_run_bound(s, j + 1, digits());
        }
        dotted_end(s, j + 1 + run_while(s, j + 1, digits()))
    } else {
        j
    }
}

/// A cross-reference starting at `i`: the referenced number and the index
/// just past it.
pub open spec fn cross_ref_at(s: Seq<char>, i: int) -> Option<(Seq<char>, int)> {
    if clause_word_at(s, i) {
        let w = run_while(s, i + 6, spaces());
        let d0 = i + 6 + w;
        let d = run_while(s, d0, digits());
        if w > 0 && d > 0 {
            let e = dotted_end(s, d0 + d);
            Some((s.subrange(d0, e), e))
        } else {
            None
        }
    } else {
        None
    }
}

/// The referenced numbers from index `i` on, left to right, matches not
/// overlapping.
pub open spec fn refs_from(s: Seq<char>, i: int) -> Seq<Seq<char>>
    decreases s.len() - i,
{
    if i < 0 || i >= s.len() {
        Seq::empty()
    } else {
        match cross_ref_at(s, i) {
            Some((n, e)) => if i < e <= s.len() { seq![n] + refs_from(s, e) } else { Seq::empty() },
            None => refs_from(s, i + 1),
        }
    }
}

/// A renumbering's new number for `old`: the first entry for it, or `old`
/// itself when the renumbering does not mention it.
pub open spec fn renumber_of(map: Seq<(Seq<char>, Seq<char>)>, old: Seq<char>) -> Seq<char>
    decreases map.len(),
{
    if map.len() == 0 {
        old
    } else if map[0].0 == old {
        map[0].1
    } else {
        renumber_of(map.drop_first(), old)
    }
}

/// The text from index `i` on with every cross-reference ("clause 9",
/// "Clause 9.2") renumbered: the number after the word is mapped, the rest
/// kept as written.
pub open spec fn renumbered_from(s: Seq<char>, i: int, map: Seq<(Seq<char>, Seq<char>)>) -> Seq<char>
    decreases s.len() - i,
{
    if i < 0 || i >= s.len() {
        Seq::empty()
    } else {
        match cross_ref_at(s, i) {
            Some((n, e)) => if i < e <= s.len() && n.len() <= e - i {
                s.subrange(i, e - n.len()) + renumber_of(map, n) + renumbered_from(s, e, map)
            } else {
                Seq::empty()
            },
            None => seq![s[i]] + renumbered_from(s, i + 1, map),
        }
    }
}

/// A text with its cross-references renumbered.
pub open spec fn renumbered(s: Seq<char>, map: Seq<(Seq<char>, Seq<char>)>) -> Seq<char> {
    renumbered_from(s, 0, map)
}

pub proof fn lemma_dotted_end_bound(s: Seq<char>, j: int)
    requires
        0 <= j <= s.len(),
    ensures
        j <= dotted_end(s, j) <= s.len(),
    decreases s.len() - j,
{
    if j + 1 < s.len() && s[j] == '.' && chars::decimal_digit(s[j + 1]) {
        assert(digits()(s[j + 1]));
        lemma_run_bound(s, j + 1, digits());
        lemma_dotted_end_bound(s, j + 1 + run_while(s, j + 1, digits()));
    }
}

pub(crate) fn folds_to_exec(c: char, l: char) -> (r: bool)
    ensures
        r == folds_to(c, l),
{
    c == l || c == chars::upper_char_exec(l) || (l == 's' && c == '\u{17F}')
}

fn clause_word_exec(s: &[char], i: usize) -> (r: bool)
    ensures
        r == clause_word_at(s@, i as int),
{
    if !(i <= s.len() && s.len() - i >= 6) {
        return false;
    }
    folds_to_exec(s[i], 'c') && folds_to_exec(s[i + 1], 'l') && folds_to_exec(s[i + 2], 'a')
        && folds_to_exec(s[i + 3], 'u') && folds_to_exec(s[i + 4], 's') && folds_to_exec(s[i + 5], 'e')
}

fn dotted_end_exec(s: &[char], j: usize) -> (r: usize)
    requires
        j <= s.len(),
    ensures
        r as int == dotted_end(s@, j as int),
        j <= r <= s.len(),
{
    let mut k = j;
    while k < s.len() && s.len() - k > 1 && s[k] == '.' && chars::is_decimal_digit(s[k + 1])
        invariant
            j <= k <= s.len(),
            dotted_end(s@, j as int) == dotted_end(s@, k as int),
        decreases s.len() - k,
    {
        let r = digit_run(s, k + 1);
        proof {
            assert(digits()(s@[k + 1]));
            lemma_run_step(s@, k + 1, digits());
        }
        k = k + 1 + r;
    }
    k
}

fn cross_ref_at_exec(s: &[char], i: usize) -> (r: Option<(usize, usize)>)
    requires
        i < s.len(),
    ensures
        match r {
            Some((d0, e)) => cross_ref_at(s@, i as int) == Some((s@.subrange(d0 as int, e as int), e as int))
                && i < d0 <= e <= s.len(),
            None => cross_ref_at(s@, i as int) is None,
        },
{
    if !clause_word_exec(s, i) {
        return None;
    }
    let w = space_run(s, i + 6);
    let d0 = i + 6 + w;
    let d = digit_run(s, d0);
    if w > 0 && d > 0 {
        let e = dotted_end_exec(s, d0 + d);
        Some((d0, e))
    } else {
        None
    }
}

// ---------------------------------------------------------------------------
// Ordering of strings (code-point lexicographic, as `String`'s `Ord`)
// ---------------------------------------------------------------------------

pub open spec fn seq_lt(a: Seq<char>, b: Seq<char>) -> bool
    decreases a.len(),
{
    if a.len() == 0 {
        b.len() > 0
    } else if b.len() == 0 {
        false
    } else if a[0] != b[0] {
        a[0] < b[0]
    } else {
        seq_lt(a.drop_first(), b.drop_first())
    }
}

pub open spec fn strictly_sorted(v: Seq<Seq<char>>) -> bool {
    forall|i: int, j: int| 0 <= i < j < v.len() ==> seq_lt(#[trigger] v[i], #[trigger] v[j])
}

pub proof fn lemma_lt_irrefl(a: Seq<char>)
    ensures
        !seq_lt(a, a),
    decreases a.len(),
{
    if a.len() > 0 {
        lemma_lt_irrefl(a.drop_first());
    }
}

pub proof fn lemma_lt_trans(a: Seq<char>, b: Seq<char>, c: Seq<char>)
    requires
        seq_lt(a, b),
        seq_lt(b, c),
    ensures
        seq_lt(a, c),
    decreases a.len(),
{
    if a.len() > 0 && b.len() > 0 && c.len() > 0 && a[0] == b[0] && b[0] == c[0] {
        lemma_lt_trans(a.drop_first(), b.drop_first(), c.drop_first());
    }
}

pub proof fn lemma_lt_total(a: Seq<char>, b: Seq<char>)
    requires
        a != b,
    ensures
        seq_lt(a, b) || seq_lt(b, a),
    decreases a.len(),
{
    if a.len() > 0 && b.len() > 0 && a[0] == b[0] {
        if a.drop_first() == b.drop_first() {
            assert(a =~= seq![a[0]] + a.drop_first());
            assert(b =~= seq![b[0]] + b.drop_first());
        }
        lemma_lt_total(a.drop_first(), b.drop_first());
    } else if a.len() == 0 && b.len() == 0 {
        assert(a =~= b);
    }
}

proof fn lemma_contains_cons(n: Seq<char>, tail: Seq<Seq<char>>, x: Seq<char>)
    ensures
        (seq![n] + tail).contains(x) <==> (x == n || tail.contains(x)),
{
    let full = seq![n] + tail;
    if full.contains(x) {
        let k = choose|k: int| 0 <= k < full.len() && full[k] == x;
        if k > 0 {
            assert(tail[k - 1] == x);
        }
    }
    if tail.contains(x) {
        let k = choose|k: int| 0 <= k < tail.len() && tail[k] == x;
        assert(full[k + 1] == x);
    }
    if x == n {
        assert(full[0] == x);
    }
}

fn lt_chars(a: &[char], b: &[char]) -> (r: bool)
    ensures
        r == seq_lt(a@, b@),
{
    let mut i: usize = 0;
    assert(a@.skip(0) == a@);
    assert(b@.skip(0) == b@);
    while i < a.len() && i < b.len() && a[i] == b[i]
        invariant
            i <= a.len(),
            i <= b.len(),
            seq_lt(a@, b@) == seq_lt(a@.skip(i as int), b@.skip(i as int)),
        decreases a.len() - i,
    {
        assert(a@.skip(i as int).drop_first() == a@.skip(i + 1));
        assert(b@.skip(i as int).drop_first() == b@.skip(i + 1));
        i += 1;
    }
    if i == a.len() {
        i < b.len()
    } else if i == b.len() {
        false
    } else {
        a[i] < b[i]
    }
}

/// Insert `x` into a strictly sorted list unless it is already there.
pub(crate) fn insert_sorted(v: &mut Vec<Vec<char>>, x: Vec<char>)
    requires
        strictly_sorted(crate::words::vecs_view(old(v)@)),
    ensures
        strictly_sorted(crate::words::vecs_view(final(v)@)),
        forall|y: Seq<char>| crate::words::vecs_view(final(v)@).contains(y)
            <==> (crate::words::vecs_view(old(v)@).contains(y) || y == x@),
{
    let ghost old_v = crate::words::vecs_view(v@);
    let mut p: usize = 0;
    while p < v.len() && lt_chars(v[p].as_slice(), x.as_slice())
        invariant
            p <= v.len(),
            old_v == crate::words::vecs_view(v@),
            forall|k: int| 0 <= k < p ==> seq_lt(#[trigger] old_v[k], x@),
        decreases v.len() - p,
    {
        p += 1;
    }
    if p < v.len() && crate::chars::eq_chars(v[p].as_slice(), x.as_slice()) {
        assert(old_v[p as int] == x@);
        return;
    }
    let ghost xv = x@;
    proof {
        assert forall|q: int| p <= q < old_v.len() implies seq_lt(xv, #[trigger] old_v[q]) by {
            assert(!seq_lt(old_v[p as int], xv));
            assert(old_v[p as int] != xv);
            lemma_lt_total(old_v[p as int], xv);
            if q > p {
                lemma_lt_trans(xv, old_v[p as int], old_v[q]);
            }
        }
    }
    v.insert(p, x);
    let ghost nv = crate::words::vecs_view(v@);
    assert(nv =~= old_v.take(p as int).push(xv) + old_v.skip(p as int));
    assert forall|i: int, j: int| 0 <= i < j < nv.len() implies seq_lt(#[trigger] nv[i], #[trigger] nv[j]) by {
        if j < p {
            assert(nv[i] == old_v[i] && nv[j] == old_v[j]);
        } else if j == p {
            assert(nv[i] == old_v[i]);
        } else if i < p {
            assert(nv[i] == old_v[i] && nv[j] == old_v[j - 1]);
            lemma_lt_trans(old_v[i], xv, old_v[j - 1]);
        } else if i == p {
            assert(nv[j] == old_v[j - 1]);
        } else {
            assert(nv[i] == old_v[i - 1] && nv[j] == old_v[j - 1]);
        }
    }
    assert forall|y: Seq<char>| nv.contains(y) <==> (old_v.contains(y) || y == xv) by {
        if nv.contains(y) {
            let k = choose|k: int| 0 <= k < nv.len() && nv[k] == y;
            if k < p {
                assert(old_v[k] == y);
            } else if k > p {
                assert(old_v[k - 1] == y);
            }
        }
        if old_v.contains(y) {
            let k = choose|k: int| 0 <= k < old_v.len() && old_v[k] == y;
            if k < p {
                assert(nv[k] == y);
            } else {
                assert(nv[k + 1] == y);
            }
        }
        if y == xv {
            assert(nv[p as int] == y);
        }
    }
}

/// Clause-number cross-references mentioned in a body ("clause 12.3" gives
/// "12.3"), sorted and without duplicates.
fn renumber_exec(map: &Vec<(String, String)>, old: &[char]) -> (r: Vec<char>)
    ensures
        r@ == renumber_of(pairs_view(map@), old@),
{
    let ghost mv = pairs_view(map@);
    let mut i: usize = 0;
    assert(mv.skip(0) =~= mv);
    while i < map.len()
        invariant
            i <= map.len(),
            mv == pairs_view(map@),
            renumber_of(mv, old@) == renumber_of(mv.skip(i as int), old@),
        decreases map.len() - i,
    {
        assert(mv.skip(i as int)[0] == (map@[i as int].0@, map@[i as int].1@));
        assert(mv.skip(i as int).drop_first() =~= mv.skip(i + 1));
        let k = chars_of(map[i].0.as_str());
        if crate::chars::eq_chars(k.as_slice(), old) {
            return chars_of(map[i].1.as_str());
        }
        i += 1;
    }
    let mut r: Vec<char> = Vec::new();
    let mut j: usize = 0;
    while j < old.len()
        invariant
            j <= old.len(),
            r@ == old@.take(j as int),
        decreases old.len() - j,
    {
        r.push(old[j]);
        j += 1;
        assert(r@ =~= old@.take(j as int));
    }
    assert(old@.take(old.len() as int) == old@);
    r
}

/// A text with every cross-reference's number mapped through a renumbering
/// of (old number, new number) pairs; numbers the renumbering does not
/// mention, and all other text, stay as written.
pub fn renumber_refs(text: &str, map: &Vec<(String, String)>) -> (r: String)
    ensures
        r@ == renumbered(text@, pairs_view(map@)),
{
    let s = chars_of(text);
    let ghost mv = pairs_view(map@);
    let mut out: Vec<char> = Vec::new();
    let mut i: usize = 0;
    while i < s.len()
        invariant
            i <= s.len(),
            s@ == text@,
            mv == pairs_view(map@),
            out@ + renumbered_from(s@, i as int, mv) == renumbered_from(s@, 0, mv),
        decreases s.len() - i,
    {
        match cross_ref_at_exec(s.as_slice(), i) {
            Some((d0, e)) => {
                let lit = slice_of(s.as_slice(), i, d0);
                let num = slice_of(s.as_slice(), d0, e);
                let newn = renumber_exec(map, num.as_slice());
                let ghost o0 = out@;
                out.append(&mut lit.clone());
                out.append(&mut newn.clone());
                proof {
                    assert(out@ == o0 + lit@ + newn@);
                    assert(renumbered_from(s@, i as int, mv) == s@.subrange(i as int, d0 as int)
                        + renumber_of(mv, s@.subrange(d0 as int, e as int)) + renumbered_from(s@, e as int, mv));
                }
                i = e;
            },
            None => {
                let ghost o0 = out@;
                out.push(s[i]);
                assert(renumbered_from(s@, i as int, mv) == seq![s@[i as int]] + renumbered_from(s@, i + 1, mv));
                assert(out@ == o0 + seq![s@[i as int]]);
                i += 1;
            },
        }
    }
    string_of(out.as_slice())
}

pub fn cross_refs(body: &str) -> (r: Vec<String>)
    ensures
        strictly_sorted(strs::views(r@)),
        strs::views(r@).to_set() == refs_from(body@, 0).to_set(),
{
    let s = chars_of(body);
    let mut acc: Vec<Vec<char>> = Vec::new();
    let mut i: usize = 0;
    assert(crate::words::vecs_view(acc@).to_set() =~= Set::<Seq<char>>::empty());
    assert(refs_from(s@, 0).to_set() =~= crate::words::vecs_view(acc@).to_set() + refs_from(s@, 0).to_set());
    while i < s.len()
        invariant
            i <= s.len(),
            s@ == body@,
            strictly_sorted(crate::words::vecs_view(acc@)),
            refs_from(s@, 0).to_set() == crate::words::vecs_view(acc@).to_set() + refs_from(s@, i as int).to_set(),
        decreases s.len() - i,
    {
        match cross_ref_at_exec(s.as_slice(), i) {
            Some((d0, e)) => {
                let n = slice_of(s.as_slice(), d0, e);
                let ghost nv = n@;
                let ghost tail = refs_from(s@, e as int);
                let ghost before = crate::words::vecs_view(acc@);
                assert(refs_from(s@, i as int) == seq![nv] + tail);
                insert_sorted(&mut acc, n);
                proof {
                    let after = crate::words::vecs_view(acc@);
                    assert forall|x: Seq<char>| #[trigger] (seq![nv] + tail).to_set().contains(x)
                        <==> (tail.to_set().contains(x) || x == nv) by {
                        lemma_contains_cons(nv, tail, x);
                    }
                    assert(after.to_set() =~= before.to_set().insert(nv));
                    assert(refs_from(s@, 0).to_set() =~= after.to_set() + tail.to_set());
                }
                i = e;
            },
            None => {
                assert(refs_from(s@, i as int) == refs_from(s@, i + 1));
                i += 1;
            },
        }
    }
    assert(refs_from(s@, i as int).to_set() =~= Set::<Seq<char>>::empty());
    assert(refs_from(s@, 0).to_set() =~= crate::words::vecs_view(acc@).to_set());
    let mut out: Vec<String> = Vec::new();
    let mut k: usize = 0;
    while k < acc.len()
        invariant
            k <= acc.len(),
            strs::views(out@) == crate::words::vecs_view(acc@).take(k as int),
        decreases acc.len() - k,
    {
        let ghost prev = strs::views(out@);
        let t = string_of(acc[k].as_slice());
        out.push(t);
        assert(strs::views(out@) =~= prev.push(acc@[k as int]@));
        k += 1;
        assert(crate::words::vecs_view(acc@).take(k as int) =~= crate::words::vecs_view(acc@).take(k - 1).push(acc@[k - 1]@));
    }
    assert(crate::words::vecs_view(acc@).take(acc.len() as int) == crate::words::vecs_view(acc@));
    out
}

// ---------------------------------------------------------------------------
// A leading clause number on a line: optional whitespace, 1-3 digits, any
// number of "." + 1-3 digits, an optional "." or ")", then whitespace.
// ---------------------------------------------------------------------------

/// Length of the leading clause number (with its trailing whitespace) at the
/// start of `s`; 0 when there is none.
pub open spec fn number_prefix(s: Seq<char>) -> int {
    let w0 = run_while(s, 0, spaces());
    let d = run_while(s, w0 as int, digits());
    if d < 1 || d > 3 {
        0
    } else {
        let e = grammar::number_end(s, (w0 + d) as int);
        if e < 0 {
            0
        } else {
            let p = if e < s.len() && (s[e] == '.' || s[e] == ')') { e + 1 } else { e };
            let w = run_while(s, p, spaces());
            if w == 0 { 0 } else { p + w }
        }
    }
}

/// `s` without its leading clause number.
pub open spec fn strip_number(s: Seq<char>) -> Seq<char> {
    s.subrange(number_prefix(s), s.len() as int)
}

pub fn number_prefix_exec(s: &[char]) -> (r: usize)
    ensures
        r as int == number_prefix(s@),
        r <= s.len(),
{
    let w0 = space_run(s, 0);
    let d = digit_run(s, w0);
    if d < 1 || d > 3 {
        return 0;
    }
    proof {
        grammar::lemma_number_end_bound(s@, (w0 + d) as int);
    }
    let e = match grammar::number_end_exec(s, w0 + d) {
        Some(e) => e,
        None => return 0,
    };
    let p = if e < s.len() && (s[e] == '.' || s[e] == ')') { e + 1 } else { e };
    let w = space_run(s, p);
    if w == 0 { 0 } else { p + w }
}

} // verus!
