//! Style donor: lift the visual formatting (fonts, sizes, spacing, page
//! setup) from a real precedent DOCX so an assembled draft renders in the
//! same house style as the pack it was drawn from. The donor's style, theme,
//! font and numbering parts are copied verbatim; its body-level section
//! properties (margins, page size) are reused with header and footer
//! references stripped, since those parts are not copied.

use vstd::prelude::*;
use crate::chars::{self, chars_of, string_of, slice_of, trim_chars};
use crate::strs::{self, views, owned};
use crate::xml::{self, first_from, last_of, find, rfind, lemma_first_from_bounds, para_span, para_span_exec,
    self_close};
use crate::docx::StyleDonor;
use crate::error::CoreError;

verus! {

// ---------------------------------------------------------------------------
// Attributes and elements
// ---------------------------------------------------------------------------

/// Value of a direct attribute `name="value"` at or after the start of `x`.
pub open spec fn attr_direct_of(x: Seq<char>, name: Seq<char>) -> Option<Seq<char>> {
    let key = name + seq!['=', '"'];
    let k = first_from(x, key, 0);
    if k < 0 {
        None
    } else {
        let i = k + key.len();
        let e = first_from(x, seq!['"'], i);
        if e < 0 { None } else { Some(x.subrange(i, e)) }
    }
}

fn attr_direct(x: &[char], name: &[char]) -> (r: Option<Vec<char>>)
    ensures
        match r {
            Some(v) => attr_direct_of(x@, name@) == Some(v@),
            None => attr_direct_of(x@, name@) is None,
        },
{
    let mut key = slice_of(name, 0, name.len());
    key.push('=');
    key.push('"');
    assert(key@ =~= name@ + seq!['=', '"']);
    let xl = x.len();
    let k = match find(x, key.as_slice(), 0) {
        Some(k) => k,
        None => return None,
    };
    let i = k + key.len();
    let q: Vec<char> = vec!['"'];
    assert(q@ =~= seq!['"']);
    match find(x, q.as_slice(), i) {
        Some(e) => {
            proof {
                lemma_first_from_bounds(x@, seq!['"'], i as int);
            }
            Some(slice_of(x, i, e))
        },
        None => None,
    }
}

pub open spec fn val_key() -> Seq<char> {
    seq!['w', ':', 'v', 'a', 'l', '=', '"']
}

/// Value of `w:val` after the first occurrence of `attr` in `x`.
pub open spec fn attr_val_of(x: Seq<char>, attr: Seq<char>) -> Option<Seq<char>> {
    let i = first_from(x, attr, 0);
    if i < 0 {
        None
    } else {
        let rest = x.skip(i + attr.len());
        let v = first_from(rest, val_key(), 0);
        if v < 0 {
            None
        } else {
            let end = first_from(rest, seq!['"'], v + 7);
            if end < 0 { None } else { Some(rest.subrange(v + 7, end)) }
        }
    }
}

fn attr_val(x: &[char], attr: &[char]) -> (r: Option<Vec<char>>)
    ensures
        match r {
            Some(v) => attr_val_of(x@, attr@) == Some(v@),
            None => attr_val_of(x@, attr@) is None,
        },
{
    let xl = x.len();
    let i = match find(x, attr, 0) {
        Some(i) => i,
        None => return None,
    };
    let rest = slice_of(x, i + attr.len(), x.len());
    assert(rest@ == x@.skip(i + attr@.len()));
    let key: Vec<char> = vec!['w', ':', 'v', 'a', 'l', '=', '"'];
    assert(key@ =~= val_key());
    let v = match find(rest.as_slice(), key.as_slice(), 0) {
        Some(v) => v,
        None => return None,
    };
    let q: Vec<char> = vec!['"'];
    assert(q@ =~= seq!['"']);
    match find(rest.as_slice(), q.as_slice(), v + 7) {
        Some(end) => {
            proof {
                lemma_first_from_bounds(rest@, seq!['"'], v + 7);
            }
            Some(slice_of(rest.as_slice(), v + 7, end))
        },
        None => None,
    }
}

/// The text from the first `open` up to (not including) the next `close`.
pub open spec fn between_of(x: Seq<char>, open: Seq<char>, close: Seq<char>) -> Option<Seq<char>> {
    let s = first_from(x, open, 0);
    if s < 0 {
        None
    } else {
        let e = first_from(x, close, s);
        if e < 0 { None } else { Some(x.subrange(s, e)) }
    }
}

fn between(x: &[char], open: &[char], close: &[char]) -> (r: Option<Vec<char>>)
    ensures
        match r {
            Some(v) => between_of(x@, open@, close@) == Some(v@),
            None => between_of(x@, open@, close@) is None,
        },
{
    let s = match find(x, open, 0) {
        Some(s) => s,
        None => return None,
    };
    match find(x, close, s) {
        Some(e) => {
            proof {
                lemma_first_from_bounds(x@, close@, s as int);
            }
            Some(slice_of(x, s, e))
        },
        None => None,
    }
}

// ---------------------------------------------------------------------------
// Numbering
// ---------------------------------------------------------------------------

pub open spec fn num_open() -> Seq<char> {
    seq!['<', 'w', ':', 'n', 'u', 'm', ' ']
}

/// The ids declared by `<w:num w:numId="…">` at or after `pos`, in order.
pub open spec fn num_ids_from(x: Seq<char>, pos: int) -> Seq<Seq<char>>
    decreases x.len() + 1 - pos,
{
    let k = first_from(x, num_open(), pos);
    if k < 0 || pos < 0 {
        Seq::empty()
    } else {
        proof {
            lemma_first_from_bounds(x, num_open(), pos);
        }
        let r = k + 6;
        let here = match attr_direct_of(x.skip(r), "w:numId"@) {
            Some(id) => seq![id],
            None => Seq::empty(),
        };
        here + num_ids_from(x, r)
    }
}

/// The `w:numId`s declared by `<w:num w:numId="…">` in numbering.xml, each
/// once.
pub fn defined_num_ids(numbering_xml: &str) -> (r: Vec<String>)
    ensures
        views(r@).no_duplicates(),
        views(r@).to_set() == num_ids_from(numbering_xml@, 0).to_set(),
{
    let x = chars_of(numbering_xml);
    let open: Vec<char> = vec!['<', 'w', ':', 'n', 'u', 'm', ' '];
    assert(open@ =~= num_open());
    let name = chars_of("w:numId");
    let mut ids: Vec<String> = Vec::new();
    let mut pos: usize = 0;
    let xl = x.len();
    assert(views(ids@).to_set() + num_ids_from(x@, 0).to_set() =~= num_ids_from(x@, 0).to_set());
    loop
        invariant
            xl == x@.len(),
            x@ == numbering_xml@,
            open@ == num_open(),
            name@ == "w:numId"@,
            pos <= x@.len(),
            views(ids@).no_duplicates(),
            views(ids@).to_set() + num_ids_from(x@, pos as int).to_set() == num_ids_from(x@, 0).to_set(),
        decreases x@.len() + 1 - pos,
    {
        let k = match find(x.as_slice(), open.as_slice(), pos) {
            Some(k) => k,
            None => {
                assert(num_ids_from(x@, pos as int).to_set() =~= Set::<Seq<char>>::empty());
                assert(views(ids@).to_set() =~= num_ids_from(x@, 0).to_set());
                return ids;
            },
        };
        proof {
            lemma_first_from_bounds(x@, num_open(), pos as int);
        }
        let r = k + 6;
        let rest = slice_of(x.as_slice(), r, x.len());
        assert(rest@ == x@.skip(r as int));
        let ghost before = views(ids@);
        let ghost tail = num_ids_from(x@, r as int);
        match attr_direct(rest.as_slice(), name.as_slice()) {
            Some(id) => {
                assert(num_ids_from(x@, pos as int) == seq![id@] + tail);
                let s = string_of(id.as_slice());
                if !strs::contains_exact(&ids, s.as_str()) {
                    ids.push(s);
                    assert(views(ids@) =~= before.push(id@));
                    assert(views(ids@).no_duplicates()) by {
                        assert forall|a: int, b: int| 0 <= a < b < views(ids@).len()
                            implies views(ids@)[a] != views(ids@)[b] by {
                            if b == before.len() {
                                assert(!before.contains(id@));
                                assert(before[a] == views(ids@)[a]);
                            }
                        }
                    }
                }
                assert((seq![id@] + tail).to_set() =~= tail.to_set().insert(id@)) by {
                    assert forall|y: Seq<char>| (seq![id@] + tail).to_set().contains(y)
                        <==> tail.to_set().insert(id@).contains(y) by {
                        let full = seq![id@] + tail;
                        if full.contains(y) {
                            let j = choose|j: int| 0 <= j < full.len() && full[j] == y;
                            if j > 0 {
                                assert(tail[j - 1] == y);
                            }
                        }
                        if tail.contains(y) {
                            let j = choose|j: int| 0 <= j < tail.len() && tail[j] == y;
                            assert(full[j + 1] == y);
                        }
                        if y == id@ {
                            assert(full[0] == y);
                        }
                    }
                }
                assert(views(ids@).to_set() =~= before.to_set().insert(id@)) by {
                    let after = views(ids@);
                    assert forall|y: Seq<char>| after.to_set().contains(y) <==> before.to_set().insert(id@).contains(y) by {
                        if after.len() == before.len() + 1 {
                            assert(after == before.push(id@));
                            if after.contains(y) {
                                let j = choose|j: int| 0 <= j < after.len() && after[j] == y;
                                if j < before.len() {
                                    assert(before[j] == y);
                                }
                            }
                            if before.contains(y) {
                                let j = choose|j: int| 0 <= j < before.len() && before[j] == y;
                                assert(after[j] == y);
                            }
                            if y == id@ {
                                assert(after[before.len() as int] == y);
                            }
                        } else {
                            assert(after == before);
                            assert(before.contains(id@));
                        }
                    }
                }
                assert(views(ids@).to_set() + tail.to_set() =~= num_ids_from(x@, 0).to_set());
            },
            None => {
                assert(num_ids_from(x@, pos as int) =~= tail);
            },
        }
        pos = r;
    }
}

/// Occurrences of `x` in `s`.
pub open spec fn count_of(s: Seq<Seq<char>>, x: Seq<char>) -> nat
    decreases s.len(),
{
    if s.len() == 0 {
        0
    } else {
        count_of(s.drop_last(), x) + if s.last() == x { 1nat } else { 0nat }
    }
}

/// The paragraph elements of a document body at or after `i`, in order.
pub open spec fn paragraphs_from(x: Seq<char>, i: int) -> Seq<Seq<char>>
    decreases x.len() + 1 - i,
{
    match para_span(x, i) {
        Some((s, e)) => if i < e <= x.len() { seq![x.subrange(s, e)] + paragraphs_from(x, e) } else { Seq::empty() },
        None => Seq::empty(),
    }
}

/// The numId of a paragraph numbered at the top level (`ilvl` 0, or no
/// `ilvl`) with a numId among `defined`.
pub open spec fn top_num_id(p: Seq<char>, defined: Seq<Seq<char>>) -> Option<Seq<char>> {
    match between_of(p, "<w:numPr"@, "</w:numPr>"@) {
        Some(np) => {
            let ilvl = match attr_val_of(np, "w:ilvl"@) {
                Some(v) => v,
                None => "0"@,
            };
            if ilvl == "0"@ {
                match attr_val_of(np, "w:numId"@) {
                    Some(id) => if defined.contains(id) { Some(id) } else { None },
                    None => None,
                }
            } else {
                None
            }
        },
        None => None,
    }
}

pub open spec fn top_num_ids(ps: Seq<Seq<char>>, defined: Seq<Seq<char>>) -> Seq<Seq<char>>
    decreases ps.len(),
{
    if ps.len() == 0 {
        Seq::empty()
    } else {
        top_num_ids(ps.drop_last(), defined) + match top_num_id(ps.last(), defined) {
            Some(id) => seq![id],
            None => Seq::empty(),
        }
    }
}

/// Split a document body into its `<w:p …>…</w:p>` elements.
pub fn split_paragraphs(x: &[char]) -> (r: Vec<Vec<char>>)
    ensures
        crate::words::vecs_view(r@) == paragraphs_from(x@, 0),
{
    let mut out: Vec<Vec<char>> = Vec::new();
    let mut i: usize = 0;
    loop
        invariant
            i <= x@.len(),
            crate::words::vecs_view(out@) + paragraphs_from(x@, i as int) == paragraphs_from(x@, 0),
        decreases x@.len() + 1 - i,
    {
        match para_span_exec(x, i) {
            Some((s, e)) => {
                let ghost o0 = crate::words::vecs_view(out@);
                let p = slice_of(x, s, e);
                out.push(p);
                assert(crate::words::vecs_view(out@) =~= o0.push(x@.subrange(s as int, e as int)));
                assert(paragraphs_from(x@, i as int) == seq![x@.subrange(s as int, e as int)] + paragraphs_from(x@, e as int)) by {
                    lemma_para_span_bounds(x@, i as int);
                }
                assert(crate::words::vecs_view(out@) + paragraphs_from(x@, e as int)
                    =~= o0 + (seq![x@.subrange(s as int, e as int)] + paragraphs_from(x@, e as int)));
                proof {
                    lemma_para_span_bounds(x@, i as int);
                }
                i = e;
            },
            None => {
                assert(crate::words::vecs_view(out@) =~= crate::words::vecs_view(out@) + paragraphs_from(x@, i as int));
                return out;
            },
        }
    }
}

proof fn lemma_para_span_bounds(x: Seq<char>, i: int)
    requires
        0 <= i,
    ensures
        para_span(x, i) matches Some((s, e)) ==> i <= s < e <= x.len(),
    decreases x.len() + 1 - i,
{
    lemma_first_from_bounds(x, xml::p_open(), i);
    let st = first_from(x, xml::p_open(), i);
    if st >= 0 {
        if st + 4 < x.len() && xml::opens_paragraph(x[st + 4]) {
            lemma_first_from_bounds(x, xml::p_close(), st);
        } else {
            lemma_para_span_bounds(x, st + 4);
        }
    }
}

fn count_exec(s: &Vec<Vec<char>>, x: &[char]) -> (r: usize)
    ensures
        r == count_of(crate::words::vecs_view(s@), x@),
{
    let mut n: usize = 0;
    let mut i: usize = 0;
    while i < s.len()
        invariant
            i <= s.len(),
            n <= i,
            n == count_of(crate::words::vecs_view(s@).take(i as int), x@),
        decreases s.len() - i,
    {
        assert(crate::words::vecs_view(s@).take(i + 1).drop_last() == crate::words::vecs_view(s@).take(i as int));
        if chars::eq_chars(s[i].as_slice(), x) {
            n += 1;
        }
        i += 1;
    }
    assert(crate::words::vecs_view(s@).take(s.len() as int) == crate::words::vecs_view(s@));
    n
}

proof fn lemma_count_zero(s: Seq<Seq<char>>, x: Seq<char>)
    requires
        !s.contains(x),
    ensures
        count_of(s, x) == 0,
    decreases s.len(),
{
    if s.len() > 0 {
        assert(!s.drop_last().contains(x)) by {
            if s.drop_last().contains(x) {
                let k = choose|k: int| 0 <= k < s.drop_last().len() && s.drop_last()[k] == x;
                assert(s[k] == x);
            }
        }
        lemma_count_zero(s.drop_last(), x);
        assert(s.last() != x) by {
            if s.last() == x {
                assert(s[s.len() - 1] == x);
            }
        }
    }
}

/// The numId used by the most top-level paragraphs of the document body, of
/// those `defined`: the backbone list the clauses hang off. Of numIds used
/// equally often, any may be the answer.
pub fn dominant_top_num_id(document_xml: &str, defined: &Vec<String>) -> (r: Option<String>)
    ensures
        ({
            let ids = top_num_ids(paragraphs_from(document_xml@, 0), views(defined@));
            match r {
                None => ids.len() == 0,
                Some(id) => ids.contains(id@) && forall|y: Seq<char>| #[trigger] count_of(ids, y) <= count_of(ids, id@),
            }
        }),
{
    let x = chars_of(document_xml);
    let ps = split_paragraphs(x.as_slice());
    let ghost pv = crate::words::vecs_view(ps@);
    let ghost dv = views(defined@);
    let open = chars_of("<w:numPr");
    let close = chars_of("</w:numPr>");
    let ilvl_name = chars_of("w:ilvl");
    let id_name = chars_of("w:numId");
    let zero = chars_of("0");
    let mut ids: Vec<Vec<char>> = Vec::new();
    let mut i: usize = 0;
    while i < ps.len()
        invariant
            i <= ps.len(),
            pv == crate::words::vecs_view(ps@),
            dv == views(defined@),
            open@ == "<w:numPr"@,
            close@ == "</w:numPr>"@,
            ilvl_name@ == "w:ilvl"@,
            id_name@ == "w:numId"@,
            zero@ == "0"@,
            crate::words::vecs_view(ids@) == top_num_ids(pv.take(i as int), dv),
        decreases ps.len() - i,
    {
        assert(pv.take(i + 1).drop_last() == pv.take(i as int));
        assert(pv.take(i + 1).last() == ps@[i as int]@);
        let ghost i0 = crate::words::vecs_view(ids@);
        match between(ps[i].as_slice(), open.as_slice(), close.as_slice()) {
            Some(np) => {
                let lvl = match attr_val(np.as_slice(), ilvl_name.as_slice()) {
                    Some(v) => v,
                    None => {
                        let z = slice_of(zero.as_slice(), 0, zero.len());
                        assert(z@ =~= zero@);
                        z
                    },
                };
                if chars::eq_chars(lvl.as_slice(), zero.as_slice()) {
                    match attr_val(np.as_slice(), id_name.as_slice()) {
                        Some(id) => {
                            let s = string_of(id.as_slice());
                            if strs::contains_exact(defined, s.as_str()) {
                                assert(top_num_id(ps@[i as int]@, dv) == Some(s@));
                                ids.push(id);
                                assert(crate::words::vecs_view(ids@) =~= i0.push(s@));
                            } else {
                                assert(top_num_id(ps@[i as int]@, dv) is None);
                                assert(i0 + Seq::<Seq<char>>::empty() =~= i0);
                            }
                        },
                        None => {
                            assert(top_num_id(ps@[i as int]@, dv) is None);
                            assert(i0 + Seq::<Seq<char>>::empty() =~= i0);
                        },
                    }
                } else {
                    assert(top_num_id(ps@[i as int]@, dv) is None);
                    assert(i0 + Seq::<Seq<char>>::empty() =~= i0);
                }
            },
            None => {
                assert(top_num_id(ps@[i as int]@, dv) is None);
                assert(i0 + Seq::<Seq<char>>::empty() =~= i0);
            },
        }
        i += 1;
    }
    assert(pv.take(ps.len() as int) == pv);
    let ghost iv = crate::words::vecs_view(ids@);
    if ids.len() == 0 {
        return None;
    }
    let mut best: usize = 0;
    let mut best_n: usize = count_exec(&ids, ids[0].as_slice());
    let mut k: usize = 1;
    while k < ids.len()
        invariant
            1 <= k <= ids.len(),
            best < ids.len(),
            iv == crate::words::vecs_view(ids@),
            best_n == count_of(iv, iv[best as int]),
            forall|j: int| 0 <= j < k ==> count_of(iv, #[trigger] iv[j]) <= best_n,
        decreases ids.len() - k,
    {
        let n = count_exec(&ids, ids[k].as_slice());
        if n > best_n {
            best = k;
            best_n = n;
        }
        k += 1;
    }
    assert forall|y: Seq<char>| #[trigger] count_of(iv, y) <= count_of(iv, iv[best as int]) by {
        if iv.contains(y) {
            let j = choose|j: int| 0 <= j < iv.len() && iv[j] == y;
            assert(count_of(iv, iv[j]) <= best_n);
        } else {
            lemma_count_zero(iv, y);
        }
    }
    assert(iv.contains(iv[best as int]));
    Some(string_of(ids[best].as_slice()))
}

// ---------------------------------------------------------------------------
// Document root attributes and section properties
// ---------------------------------------------------------------------------

pub open spec fn doc_open() -> Seq<char> {
    seq!['<', 'w', ':', 'd', 'o', 'c', 'u', 'm', 'e', 'n', 't']
}

/// `s` without trailing slashes.
pub open spec fn trim_end_slash(s: Seq<char>) -> Seq<char>
    decreases s.len(),
{
    if s.len() > 0 && s.last() == '/' { trim_end_slash(s.drop_last()) } else { s }
}

/// The attribute text of the `<w:document …>` root element (its namespace
/// declarations), if it has any.
pub open spec fn document_attrs_of(x: Seq<char>) -> Option<Seq<char>> {
    let st = first_from(x, doc_open(), 0);
    if st < 0 {
        None
    } else {
        let s = st + 11;
        let end = first_from(x, seq!['>'], s);
        if end < 0 {
            None
        } else {
            let a = chars::trim(trim_end_slash(chars::trim(x.subrange(s, end))));
            if a.len() == 0 { None } else { Some(a) }
        }
    }
}

fn trim_end_slash_exec(s: &[char]) -> (r: Vec<char>)
    ensures
        r@ == trim_end_slash(s@),
{
    let mut hi = s.len();
    assert(s@.subrange(0, hi as int) == s@);
    while hi > 0 && s[hi - 1] == '/'
        invariant
            hi <= s.len(),
            trim_end_slash(s@) == trim_end_slash(s@.subrange(0, hi as int)),
        decreases hi,
    {
        assert(s@.subrange(0, hi as int).drop_last() == s@.subrange(0, hi - 1));
        hi -= 1;
    }
    slice_of(s, 0, hi)
}

/// The attribute text of the donor's `<w:document …>` root element, so lifted
/// paragraphs keep valid namespaces.
pub fn extract_document_attrs(document_xml: &str) -> (r: Option<String>)
    ensures
        match r {
            Some(a) => document_attrs_of(document_xml@) == Some(a@),
            None => document_attrs_of(document_xml@) is None,
        },
{
    let x = chars_of(document_xml);
    let open: Vec<char> = vec!['<', 'w', ':', 'd', 'o', 'c', 'u', 'm', 'e', 'n', 't'];
    assert(open@ =~= doc_open());
    let xl = x.len();
    let st = match find(x.as_slice(), open.as_slice(), 0) {
        Some(st) => st,
        None => return None,
    };
    let s = st + 11;
    let gt: Vec<char> = vec!['>'];
    assert(gt@ =~= seq!['>']);
    let end = match find(x.as_slice(), gt.as_slice(), s) {
        Some(e) => e,
        None => return None,
    };
    proof {
        lemma_first_from_bounds(x@, seq!['>'], s as int);
    }
    let raw = slice_of(x.as_slice(), s, end);
    let a = trim_chars(trim_end_slash_exec(trim_chars(raw.as_slice()).as_slice()).as_slice());
    if a.len() == 0 { None } else { Some(string_of(a.as_slice())) }
}

/// Every `tag…/>` element cut out, first occurrence first.
pub open spec fn strip_tag(s: Seq<char>, tag: Seq<char>) -> Seq<char>
    decreases s.len(),
{
    if tag.len() == 0 {
        s
    } else {
        let st = first_from(s, tag, 0);
        if st < 0 {
            s
        } else {
            let q = first_from(s, self_close(), st);
            proof {
                lemma_first_from_bounds(s, tag, 0);
                lemma_first_from_bounds(s, self_close(), st);
            }
            if q < 0 { s } else { strip_tag(s.take(st) + s.skip(q + 2), tag) }
        }
    }
}

/// Section properties without header and footer references.
pub open spec fn refs_stripped(s: Seq<char>) -> Seq<char> {
    strip_tag(strip_tag(s, "<w:headerReference"@), "<w:footerReference"@)
}

fn strip_tag_exec(s: &[char], tag: &[char]) -> (r: Vec<char>)
    ensures
        r@ == strip_tag(s@, tag@),
{
    let mut out = slice_of(s, 0, s.len());
    assert(out@ =~= s@);
    if tag.len() == 0 {
        return out;
    }
    let sc: Vec<char> = vec!['/', '>'];
    assert(sc@ =~= self_close());
    loop
        invariant
            tag@.len() > 0,
            sc@ == self_close(),
            strip_tag(s@, tag@) == strip_tag(out@, tag@),
        decreases out@.len(),
    {
        let st = match find(out.as_slice(), tag, 0) {
            Some(st) => st,
            None => return out,
        };
        proof {
            lemma_first_from_bounds(out@, self_close(), st as int);
        }
        match find(out.as_slice(), sc.as_slice(), st) {
            Some(q) => {
                let ol = out.len();
                assert(q + 2 <= ol);
                let end = q + 2;
                let mut a = slice_of(out.as_slice(), 0, st);
                let mut b = slice_of(out.as_slice(), end, ol);
                let ghost av = a@;
                a.append(&mut b);
                assert(a@ =~= out@.take(st as int) + out@.skip(end as int));
                out = a;
            },
            None => return out,
        }
    }
}

/// Remove header and footer references: they point at parts that are not
/// copied and would dangle.
pub fn strip_refs(sect_pr: &str) -> (r: String)
    ensures
        r@ == refs_stripped(sect_pr@),
{
    let s = chars_of(sect_pr);
    let a = strip_tag_exec(s.as_slice(), chars_of("<w:headerReference").as_slice());
    let b = strip_tag_exec(a.as_slice(), chars_of("<w:footerReference").as_slice());
    string_of(b.as_slice())
}

pub open spec fn sect_close() -> Seq<char> {
    seq!['<', '/', 'w', ':', 's', 'e', 'c', 't', 'P', 'r', '>']
}

/// The last `<w:sectPr>…</w:sectPr>` (the body-level one), without header and
/// footer references.
pub open spec fn sect_pr_of(x: Seq<char>) -> Option<Seq<char>> {
    let st = last_of(x, "<w:sectPr"@);
    if st < 0 {
        None
    } else {
        let e = first_from(x, sect_close(), st);
        if e < 0 { None } else { Some(refs_stripped(x.subrange(st, e + 11))) }
    }
}

/// Pull the body-level section properties out of a document.xml.
pub fn extract_sect_pr(document_xml: &str) -> (r: Option<String>)
    ensures
        match r {
            Some(s) => sect_pr_of(document_xml@) == Some(s@),
            None => sect_pr_of(document_xml@) is None,
        },
{
    let x = chars_of(document_xml);
    let open = chars_of("<w:sectPr");
    let st = match rfind(x.as_slice(), open.as_slice()) {
        Some(st) => st,
        None => return None,
    };
    let close: Vec<char> = vec!['<', '/', 'w', ':', 's', 'e', 'c', 't', 'P', 'r', '>'];
    assert(close@ =~= sect_close());
    let xl = x.len();
    match find(x.as_slice(), close.as_slice(), st) {
        Some(e) => {
            assert(e + 11 <= xl);
            proof {
                lemma_first_from_bounds(x@, sect_close(), st as int);
            }
            let region = string_of(slice_of(x.as_slice(), st, e + 11).as_slice());
            Some(strip_refs(region.as_str()))
        },
        None => None,
    }
}

// ---------------------------------------------------------------------------
// Reading a donor
// ---------------------------------------------------------------------------

pub open spec fn part_of(bytes: Seq<u8>, name: Seq<char>) -> Option<Seq<char>> {
    crate::package::zip_file_text(bytes, name)
}

/// What a donor read from a DOCX package holds: its parts verbatim, the
/// section properties and root attributes of its document part, the numIds
/// its numbering part declares, and its dominant top-level numId.
pub open spec fn donor_from(d: StyleDonor, bytes: Seq<u8>) -> bool {
    let doc = part_of(bytes, "word/document.xml"@);
    let numbering = part_of(bytes, "word/numbering.xml"@);
    &&& strs::opt_view(d.styles_xml) == part_of(bytes, "word/styles.xml"@)
    &&& strs::opt_view(d.theme_xml) == part_of(bytes, "word/theme/theme1.xml"@)
    &&& strs::opt_view(d.font_table_xml) == part_of(bytes, "word/fontTable.xml"@)
    &&& strs::opt_view(d.numbering_xml) == numbering
    &&& strs::opt_view(d.settings_xml) == part_of(bytes, "word/settings.xml"@)
    &&& strs::opt_view(d.sect_pr) == (match doc { Some(x) => sect_pr_of(x), None => None })
    &&& strs::opt_view(d.document_attrs) == (match doc { Some(x) => document_attrs_of(x), None => None })
    &&& views(d.num_ids@).no_duplicates()
    &&& views(d.num_ids@).to_set() == (match numbering { Some(n) => num_ids_from(n, 0).to_set(), None => Set::empty() })
    &&& match doc {
        None => d.main_num_id is None,
        Some(x) => {
            let ids = top_num_ids(paragraphs_from(x, 0), views(d.num_ids@));
            match d.main_num_id {
                None => ids.len() == 0,
                Some(id) => ids.contains(id@) && forall|y: Seq<char>| #[trigger] count_of(ids, y) <= count_of(ids, id@),
            }
        },
    }
}

impl StyleDonor {
    /// Extract the style parts from the bytes of a `.docx` file. Bytes that do
    /// not open as a zip package give an index error, and only they do.
    pub fn from_docx_bytes(bytes: &[u8]) -> (r: Result<StyleDonor, CoreError>)
        ensures
            (r is Ok) == crate::package::zip_opens(bytes@),
            r matches Ok(d) ==> donor_from(d, bytes@),
            r matches Err(e) ==> e is Index,
    {
        match crate::package::zip_check(bytes) {
            Ok(()) => {},
            Err(e) => return Err(crate::package::zip_error("open donor docx: ", &e)),
        }
        let document_xml = crate::package::zip_read_text(bytes, "word/document.xml");
        let sect_pr = match &document_xml {
            Some(d) => extract_sect_pr(d.as_str()),
            None => None,
        };
        let document_attrs = match &document_xml {
            Some(d) => extract_document_attrs(d.as_str()),
            None => None,
        };
        let numbering_xml = crate::package::zip_read_text(bytes, "word/numbering.xml");
        let num_ids = match &numbering_xml {
            Some(n) => defined_num_ids(n.as_str()),
            None => {
                let v: Vec<String> = Vec::new();
                assert(views(v@).to_set() =~= Set::<Seq<char>>::empty());
                v
            },
        };
        let main_num_id = match &document_xml {
            Some(d) => dominant_top_num_id(d.as_str(), &num_ids),
            None => None,
        };
        let d = StyleDonor {
            styles_xml: crate::package::zip_read_text(bytes, "word/styles.xml"),
            theme_xml: crate::package::zip_read_text(bytes, "word/theme/theme1.xml"),
            font_table_xml: crate::package::zip_read_text(bytes, "word/fontTable.xml"),
            numbering_xml,
            settings_xml: crate::package::zip_read_text(bytes, "word/settings.xml"),
            sect_pr,
            document_attrs,
            num_ids,
            main_num_id,
        };
        Ok(d)
    }
}

} // verus!
