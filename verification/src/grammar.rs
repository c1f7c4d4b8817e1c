//! The small grammars clause segmentation recognises in a paragraph: a leading
//! clause number ("12.3 Termination"), a schedule marker ("Schedule 1"), and a
//! definition ("\"Effective Date\" means …").

use vstd::prelude::*;
use crate::chars::{self, is_ws_exec, is_alphanumeric, slice_of, to_lower, starts_with_str};

verus! {

/// Characters a defined term may continue with: `[A-Za-z0-9 /-]`.
pub open spec fn is_term_char(c: char) -> bool {
    chars::is_upper_ascii(c) || chars::is_lower_ascii(c) || chars::is_digit(c) || c == ' ' || c == '/' || c == '-'
}

/// Quote characters that open or close a defined term.
pub open spec fn is_quote(c: char) -> bool {
    c == '"' || c == '\u{201C}' || c == '\u{201D}' || c == '\''
}

/// Length of the run of characters satisfying `p` that starts at `i`.
pub open spec fn run_while(s: Seq<char>, i: int, p: spec_fn(char) -> bool) -> nat
    decreases s.len() - i,
{
    if 0 <= i < s.len() && p(s[i]) {
        1 + run_while(s, i + 1, p)
    } else {
        0
    }
}

pub open spec fn digits() -> spec_fn(char) -> bool {
    |c: char| chars::decimal_digit(c)
}

pub open spec fn spaces() -> spec_fn(char) -> bool {
    |c: char| chars::is_ws(c)
}

pub open spec fn term_chars() -> spec_fn(char) -> bool {
    |c: char| is_term_char(c)
}

pub proof fn lemma_run_step(s: Seq<char>, i: int, p: spec_fn(char) -> bool)
    requires
        0 <= i < s.len(),
        p(s[i]),
    ensures
        run_while(s, i, p) == 1 + run_while(s, i + 1, p),
{
}

pub proof fn lemma_run_bound(s: Seq<char>, i: int, p: spec_fn(char) -> bool)
    requires
        0 <= i <= s.len(),
    ensures
        i + run_while(s, i, p) <= s.len(),
        forall|k: int| i <= k < i + run_while(s, i, p) ==> p(s[k]),
        i + run_while(s, i, p) < s.len() ==> !p(s[i + run_while(s, i, p)]),
    decreases s.len() - i,
{
    if i < s.len() && p(s[i]) {
        lemma_run_bound(s, i + 1, p);
    }
}

pub(crate) fn digit_run(s: &[char], i: usize) -> (r: usize)
    requires
        i <= s.len(),
    ensures
        r == run_while(s@, i as int, digits()),
        i + r <= s.len(),
{
    let mut j = i;
    while j < s.len() && chars::is_decimal_digit(s[j])
        invariant
            i <= j <= s.len(),
            run_while(s@, i as int, digits()) == (j - i) + run_while(s@, j as int, digits()),
        decreases s.len() - j,
    {
        proof {
            lemma_run_step(s@, j as int, digits());
        }
        j += 1;
    }
    j - i
}

pub(crate) fn space_run(s: &[char], i: usize) -> (r: usize)
    requires
        i <= s.len(),
    ensures
        r == run_while(s@, i as int, spaces()),
        i + r <= s.len(),
{
    let mut j = i;
    while j < s.len() && is_ws_exec(s[j])
        invariant
            i <= j <= s.len(),
            run_while(s@, i as int, spaces()) == (j - i) + run_while(s@, j as int, spaces()),
        decreases s.len() - j,
    {
        proof {
            lemma_run_step(s@, j as int, spaces());
        }
        j += 1;
    }
    j - i
}

fn is_term_char_exec(c: char) -> (r: bool)
    ensures
        r == is_term_char(c),
{
    (c >= 'A' && c <= 'Z') || (c >= 'a' && c <= 'z') || (c >= '0' && c <= '9') || c == ' ' || c == '/' || c == '-'
}

fn term_run(s: &[char], i: usize) -> (r: usize)
    requires
        i <= s.len(),
    ensures
        r == run_while(s@, i as int, term_chars()),
        i + r <= s.len(),
{
    let mut j = i;
    while j < s.len() && is_term_char_exec(s[j])
        invariant
            i <= j <= s.len(),
            run_while(s@, i as int, term_chars()) == (j - i) + run_while(s@, j as int, term_chars()),
        decreases s.len() - j,
    {
        proof {
            lemma_run_step(s@, j as int, term_chars());
        }
        j += 1;
    }
    j - i
}

// ---------------------------------------------------------------------------
// Leading clause numbers: 1–3 digits, then any number of "." + 1–3 digits,
// an optional "." or ")", whitespace, and a non-empty rest of the line.
// ---------------------------------------------------------------------------

/// End of the number path whose last digit group ends at `i`, or -1 when a
/// following group is too long for the grammar.
pub open spec fn number_end(s: Seq<char>, i: int) -> int
    decreases s.len() - i,
{
    if 0 <= i && i + 1 < s.len() && s[i] == '.' && chars::decimal_digit(s[i + 1]) {
        let r = run_while(s, i + 1, digits());
        if r <= 3 {
            proof {
                assert(digits()(s[i + 1]));
                lemma_run_bound(s, i + 1, digits());
            }
            number_end(s, i + 1 + r)
        } else {
            -1
        }
    } else {
        i
    }
}

/// `Some((path, rest))` when `s` opens with a clause number.
pub open spec fn leading_number(s: Seq<char>) -> Option<(Seq<char>, Seq<char>)> {
    let d = run_while(s, 0, digits());
    if d < 1 || d > 3 {
        None
    } else {
        let e = number_end(s, d as int);
        if e < 0 {
            None
        } else {
            let p = if e < s.len() && (s[e] == '.' || s[e] == ')') { e + 1 } else { e };
            let w = run_while(s, p, spaces());
            let rest = s.subrange(p + w, s.len() as int);
            if w == 0 || rest.len() == 0 || rest.contains('\n') {
                None
            } else {
                Some((s.take(e), rest))
            }
        }
    }
}

pub proof fn lemma_number_end_bound(s: Seq<char>, i: int)
    requires
        0 <= i <= s.len(),
    ensures
        number_end(s, i) == -1 || (i <= number_end(s, i) <= s.len()),
    decreases s.len() - i,
{
    if i + 1 < s.len() && s[i] == '.' && chars::decimal_digit(s[i + 1]) {
        lemma_run_bound(s, i + 1, digits());
        let r = run_while(s, i + 1, digits());
        if r <= 3 {
            lemma_number_end_bound(s, i + 1 + r);
        }
    }
}

pub(crate) fn number_end_exec(s: &[char], i: usize) -> (r: Option<usize>)
    requires
        i <= s.len(),
    ensures
        match r {
            Some(e) => e as int == number_end(s@, i as int) && i <= e <= s.len(),
            None => number_end(s@, i as int) == -1,
        },
{
    let mut j = i;
    while j < s.len() && j + 1 < s.len() && s[j] == '.' && chars::is_decimal_digit(s[j + 1])
        invariant
            i <= j <= s.len(),
            number_end(s@, i as int) == number_end(s@, j as int),
        decreases s.len() - j,
    {
        let r = digit_run(s, j + 1);
        if r > 3 {
            return None;
        }
        j = j + 1 + r;
    }
    Some(j)
}

fn has_newline(s: &[char]) -> (r: bool)
    ensures
        r == s@.contains('\n'),
{
    let mut i: usize = 0;
    while i < s.len()
        invariant
            i <= s.len(),
            forall|k: int| 0 <= k < i ==> s@[k] != '\n',
        decreases s.len() - i,
    {
        if s[i] == '\n' {
            return true;
        }
        i += 1;
    }
    false
}

/// Split a leading clause number from the rest of a paragraph.
pub fn split_leading_number(s: &[char]) -> (r: Option<(Vec<char>, Vec<char>)>)
    ensures
        match r {
            Some((path, rest)) => leading_number(s@) == Some((path@, rest@)),
            None => leading_number(s@) is None,
        },
{
    let d = digit_run(s, 0);
    if d < 1 || d > 3 {
        return None;
    }
    let e = match number_end_exec(s, d) {
        Some(e) => e,
        None => return None,
    };
    let p = if e < s.len() && (s[e] == '.' || s[e] == ')') { e + 1 } else { e };
    let w = space_run(s, p);
    if w == 0 {
        return None;
    }
    let rest = slice_of(s, p + w, s.len());
    if rest.len() == 0 || has_newline(rest.as_slice()) {
        return None;
    }
    let path = slice_of(s, 0, e);
    assert(path@ == s@.take(e as int));
    Some((path, rest))
}

// ---------------------------------------------------------------------------
// Schedule markers: "schedule", "annexure", "annex", "appendix" or "exhibit"
// at the start (ASCII case-insensitive), ending at a word boundary.
// ---------------------------------------------------------------------------

/// Characters that continue a word (`\w`): alphanumerics and underscore.
pub open spec fn is_word_char(c: char) -> bool {
    chars::alphanumeric(c) || c == '_'
}

pub open spec fn schedule_words() -> Seq<Seq<char>> {
    seq!["schedule"@, "annexure"@, "annex"@, "appendix"@, "exhibit"@]
}

/// `s` opens with the marker word `w` followed by a word boundary.
pub open spec fn opens_with_word(s: Seq<char>, w: Seq<char>) -> bool {
    chars::starts_with(chars::lower(s), w) && (s.len() == w.len() || !is_word_char(s[w.len() as int]))
}

pub open spec fn is_schedule_marker(s: Seq<char>) -> bool {
    exists|i: int| 0 <= i < schedule_words().len() && opens_with_word(s, schedule_words()[i])
}

/// A schedule marker opens with "schedule", "annexure", "annex", "appendix"
/// or "exhibit" (ASCII case ignored) followed by a word boundary.
pub proof fn lemma_schedule_marker_words(s: Seq<char>)
    ensures
        is_schedule_marker(s) == (opens_with_word(s, "schedule"@) || opens_with_word(s, "annexure"@)
            || opens_with_word(s, "annex"@) || opens_with_word(s, "appendix"@) || opens_with_word(s, "exhibit"@)),
{
    let w = schedule_words();
    assert(w[0] == "schedule"@ && w[1] == "annexure"@ && w[2] == "annex"@ && w[3] == "appendix"@ && w[4] == "exhibit"@);
    if is_schedule_marker(s) {
        let i = choose|i: int| 0 <= i < w.len() && opens_with_word(s, w[i]);
        assert(0 <= i < 5);
    }
}

fn opens_with_word_exec(s: &[char], lowered: &[char], w: &str) -> (r: bool)
    requires
        lowered@ == chars::lower(s@),
    ensures
        r == opens_with_word(s@, w@),
{
    if !starts_with_str(lowered, w) {
        return false;
    }
    let n = chars::chars_of(w).len();
    if n == s.len() {
        return true;
    }
    let c = s[n];
    !(is_alphanumeric(c) || c == '_')
}

pub fn schedule_marker(s: &[char]) -> (r: bool)
    ensures
        r == is_schedule_marker(s@),
{
    let low = to_lower(s);
    let words: [&str; 5] = ["schedule", "annexure", "annex", "appendix", "exhibit"];
    assert(chars::lower(s@).len() == s@.len());
    let mut i: usize = 0;
    while i < 5
        invariant
            i <= 5,
            low@ == chars::lower(s@),
            words@.map_values(|x: &str| x@) == schedule_words(),
            forall|k: int| 0 <= k < i ==> !opens_with_word(s@, schedule_words()[k]),
        decreases 5 - i,
    {
        assert(words@[i as int]@ == schedule_words()[i as int]);
        if opens_with_word_exec(s, low.as_slice(), words[i]) {
            return true;
        }
        i += 1;
    }
    false
}

// ---------------------------------------------------------------------------
// Definitions: a quote, a capitalised term of 2–61 characters from
// [A-Za-z0-9 /-], a closing quote, whitespace, then "shall mean", "means" or
// "shall have the meaning".
// ---------------------------------------------------------------------------

/// End of the literal `w` at `i`, when it occurs there.
pub open spec fn lit_at(s: Seq<char>, i: int, w: Seq<char>) -> bool {
    chars::occurs_at(s, w, i)
}

/// End of "a\s+b" at `i` (two words separated by whitespace), or -1.
pub open spec fn pair_end(s: Seq<char>, i: int, a: Seq<char>, b: Seq<char>) -> int {
    if lit_at(s, i, a) {
        let j = i + a.len();
        let w = run_while(s, j, spaces());
        if w > 0 && lit_at(s, j + w, b) {
            j + w + b.len()
        } else {
            -1
        }
    } else {
        -1
    }
}

/// End of the defining phrase at `i`, or -1.
pub open spec fn phrase_end(s: Seq<char>, i: int) -> int {
    if pair_end(s, i, "shall"@, "mean"@) >= 0 {
        pair_end(s, i, "shall"@, "mean"@)
    } else if lit_at(s, i, "means"@) {
        i + 5
    } else {
        let e1 = pair_end(s, i, "shall"@, "have"@);
        if e1 < 0 {
            -1
        } else {
            let e2 = pair_end(s, e1, ""@, "the"@);
            if e2 < 0 {
                -1
            } else {
                pair_end(s, e2, ""@, "meaning"@)
            }
        }
    }
}

/// A definition match starting at `i`: `Some((term, end))`.
pub open spec fn definition_at(s: Seq<char>, i: int) -> Option<(Seq<char>, int)> {
    if 0 <= i && i + 1 < s.len() && is_quote(s[i]) && chars::is_upper_ascii(s[i + 1]) {
        let k = run_while(s, i + 2, term_chars());
        let q = i + 2 + k;
        if 1 <= k <= 60 && q < s.len() && is_quote(s[q]) {
            let w = run_while(s, q + 1, spaces());
            let e = phrase_end(s, q + 1 + w);
            if w > 0 && e >= 0 {
                Some((s.subrange(i + 1, q), e))
            } else {
                None
            }
        } else {
            None
        }
    } else {
        None
    }
}

/// The terms of all non-overlapping definition matches from `i` on.
pub open spec fn terms_from(s: Seq<char>, i: int) -> Seq<Seq<char>>
    decreases s.len() - i,
{
    if i < 0 || i >= s.len() {
        Seq::empty()
    } else {
        match definition_at(s, i) {
            Some((t, e)) => if i < e <= s.len() {
                seq![t] + terms_from(s, e)
            } else {
                Seq::empty()
            },
            None => terms_from(s, i + 1),
        }
    }
}

fn lit_at_exec(s: &[char], i: usize, w: &str) -> (r: bool)
    ensures
        r == lit_at(s@, i as int, w@),
{
    let wv = chars::chars_of(w);
    chars::matches_at(s, wv.as_slice(), i)
}

fn pair_end_exec(s: &[char], i: usize, a: &str, b: &str) -> (r: Option<usize>)
    ensures
        match r {
            Some(e) => e as int == pair_end(s@, i as int, a@, b@) && e <= s.len(),
            None => pair_end(s@, i as int, a@, b@) == -1,
        },
{
    if !lit_at_exec(s, i, a) {
        return None;
    }
    let av = chars::chars_of(a);
    let al = av.len();
    assert(lit_at(s@, i as int, a@));
    assert(i + a@.len() <= s@.len());
    assert(al == a@.len());
    assert(s.len() == s@.len());
    let j = i + al;
    let w = space_run(s, j);
    if w > 0 && lit_at_exec(s, j + w, b) {
        let bl = chars::chars_of(b).len();
        assert(j + w + bl <= s.len());
        Some(j + w + bl)
    } else {
        None
    }
}

fn phrase_end_exec(s: &[char], i: usize) -> (r: Option<usize>)
    ensures
        match r {
            Some(e) => e as int == phrase_end(s@, i as int) && e <= s.len(),
            None => phrase_end(s@, i as int) == -1,
        },
{
    proof { reveal_strlit("means"); }
    match pair_end_exec(s, i, "shall", "mean") {
        Some(e) => return Some(e),
        None => {},
    }
    if lit_at_exec(s, i, "means") {
        assert(i + 5 <= s.len());
        return Some(i + 5);
    }
    let e1 = match pair_end_exec(s, i, "shall", "have") {
        Some(e) => e,
        None => return None,
    };
    let e2 = match pair_end_exec(s, e1, "", "the") {
        Some(e) => e,
        None => return None,
    };
    pair_end_exec(s, e2, "", "meaning")
}

fn definition_at_exec(s: &[char], i: usize) -> (r: Option<(Vec<char>, usize)>)
    ensures
        match r {
            Some((t, e)) => definition_at(s@, i as int) == Some((t@, e as int)) && e <= s.len(),
            None => definition_at(s@, i as int) is None,
        },
{
    if !(i < s.len() && i + 1 < s.len() && (s[i] == '"' || s[i] == '\u{201C}' || s[i] == '\u{201D}' || s[i] == '\'')
        && s[i + 1] >= 'A' && s[i + 1] <= 'Z') {
        return None;
    }
    let k = term_run(s, i + 2);
    let q = i + 2 + k;
    if !(1 <= k && k <= 60 && q < s.len()
        && (s[q] == '"' || s[q] == '\u{201C}' || s[q] == '\u{201D}' || s[q] == '\'')) {
        return None;
    }
    let w = space_run(s, q + 1);
    if w == 0 {
        return None;
    }
    match phrase_end_exec(s, q + 1 + w) {
        Some(e) => Some((slice_of(s, i + 1, q), e)),
        None => None,
    }
}

/// Every defined term in a line, in order of appearance.
pub fn definition_terms(s: &[char]) -> (r: Vec<Vec<char>>)
    ensures
        r@.map_values(|t: Vec<char>| t@) == terms_from(s@, 0),
{
    let mut out: Vec<Vec<char>> = Vec::new();
    let mut i: usize = 0;
    while i < s.len()
        invariant
            i <= s.len(),
            out@.map_values(|t: Vec<char>| t@) + terms_from(s@, i as int) == terms_from(s@, 0),
        decreases s.len() - i,
    {
        match definition_at_exec(s, i) {
            Some((t, e)) => {
                if e <= i {
                    assert(terms_from(s@, i as int) == Seq::<Seq<char>>::empty());
                    assert(out@.map_values(|t: Vec<char>| t@) + Seq::<Seq<char>>::empty()
                        == out@.map_values(|t: Vec<char>| t@));
                    return out;
                }
                let ghost o0 = out@.map_values(|t: Vec<char>| t@);
                let ghost tv = t@;
                out.push(t);
                assert(out@.map_values(|t: Vec<char>| t@) == o0.push(tv));
                assert(o0 + terms_from(s@, i as int) == o0.push(tv) + terms_from(s@, e as int));
                i = e;
            },
            None => {
                i += 1;
            },
        }
    }
    assert(terms_from(s@, i as int) == Seq::<Seq<char>>::empty());
    assert(out@.map_values(|t: Vec<char>| t@) + Seq::<Seq<char>>::empty() == out@.map_values(|t: Vec<char>| t@));
    out
}

} // verus!
