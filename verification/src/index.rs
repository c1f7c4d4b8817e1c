//! What a source's index records about each document beyond its clauses:
//! document-level metadata, and the knowledge-graph edges from a clause to
//! the definitions whose terms it uses.

use vstd::prelude::*;
use crate::chars::{self, chars_of, contains_chars, byte_len_le, copy_opt};
use crate::model::{ClauseKind, ExtractedClause, ParsedDocument};
use crate::strs::opt_view;

verus! {

/// Document-level metadata recorded at ingestion, so a precedent can be
/// picked as a drafting skeleton by contract type without opening its
/// clauses.
#[derive(Debug, Clone)]
pub struct DocumentMeta {
    pub contract_type: Option<String>,
    pub jurisdiction: Option<String>,
    pub title: Option<String>,
}

impl Default for DocumentMeta {
    fn default() -> (r: DocumentMeta)
        ensures
            r.contract_type is None,
            r.jurisdiction is None,
            r.title is None,
    {
        DocumentMeta { contract_type: None, jurisdiction: None, title: None }
    }
}

/// One indexed precedent, as a candidate skeleton.
#[derive(Debug, Clone)]
pub struct DocumentSummary {
    pub id: String,
    pub source_name: String,
    pub rel_path: String,
    pub contract_type: Option<String>,
    pub jurisdiction: Option<String>,
    pub title: Option<String>,
    /// Operative clauses only (not definitions, schedules or front matter).
    pub clause_count: usize,
}

/// The contract type of the first clause, from `i` on, that carries one.
pub open spec fn first_contract_type(cs: Seq<ExtractedClause>, i: int) -> Option<String>
    decreases cs.len() - i,
{
    if i < 0 || i >= cs.len() {
        None
    } else if cs[i].metadata.contract_type is Some {
        cs[i].metadata.contract_type
    } else {
        first_contract_type(cs, i + 1)
    }
}

/// The jurisdiction of the first clause, from `i` on, that carries one.
pub open spec fn first_jurisdiction(cs: Seq<ExtractedClause>, i: int) -> Option<String>
    decreases cs.len() - i,
{
    if i < 0 || i >= cs.len() {
        None
    } else if cs[i].metadata.jurisdiction is Some {
        cs[i].metadata.jurisdiction
    } else {
        first_jurisdiction(cs, i + 1)
    }
}

/// A document's metadata: the contract type and the jurisdiction of the
/// first clause that carries one, and the text of its first paragraph as its
/// title.
pub open spec fn meta_of(doc: ParsedDocument, cs: Seq<ExtractedClause>, m: DocumentMeta) -> bool {
    &&& opt_view(m.contract_type) == opt_view(first_contract_type(cs, 0))
    &&& opt_view(m.jurisdiction) == opt_view(first_jurisdiction(cs, 0))
    &&& opt_view(m.title) == (if doc.paragraphs@.len() > 0 {
        Some(doc.paragraphs@[0].text@)
    } else {
        None
    })
}

/// The metadata recorded for a document from its extracted clauses.
pub fn document_meta(doc: &ParsedDocument, clauses: &[ExtractedClause]) -> (r: DocumentMeta)
    ensures
        meta_of(*doc, clauses@, r),
{
    let mut contract_type: Option<String> = None;
    let mut jurisdiction: Option<String> = None;
    let mut i: usize = clauses.len();
    // Walking backwards, the last label seen is the first one present.
    while i > 0
        invariant
            i <= clauses.len(),
            opt_view(contract_type) == opt_view(first_contract_type(clauses@, i as int)),
            opt_view(jurisdiction) == opt_view(first_jurisdiction(clauses@, i as int)),
        decreases i,
    {
        i -= 1;
        if clauses[i].metadata.contract_type.is_some() {
            contract_type = copy_opt(&clauses[i].metadata.contract_type);
        }
        if clauses[i].metadata.jurisdiction.is_some() {
            jurisdiction = copy_opt(&clauses[i].metadata.jurisdiction);
        }
    }
    let title = if doc.paragraphs.len() > 0 {
        Some(chars::copy_string(&doc.paragraphs[0].text))
    } else {
        None
    };
    DocumentMeta { contract_type, jurisdiction, title }
}

/// Clause `i` uses the term that clause `j` defines: `i` is not itself a
/// definition, `j` is another object whose term is at least three bytes long,
/// and that term occurs in `i`'s body.
pub open spec fn uses_term(cs: Seq<ExtractedClause>, i: int, j: int) -> bool {
    &&& 0 <= i < cs.len() && 0 <= j < cs.len()
    &&& cs[i].kind != ClauseKind::Definition
    &&& i != j
    &&& cs[j].term matches Some(t) && chars::byte_len(t@) >= 3 && chars::contains(cs[i].body@, t@)
}

/// Pairs in order: by the first position, then the second.
pub open spec fn pair_lt(a: (usize, usize), b: (usize, usize)) -> bool {
    a.0 < b.0 || (a.0 == b.0 && a.1 < b.1)
}

/// Every `uses_term` edge among a document's objects, as (user, definer)
/// positions, each once, in order.
pub fn term_edges(clauses: &[ExtractedClause]) -> (r: Vec<(usize, usize)>)
    ensures
        forall|k: int| 0 <= k < r@.len() ==> uses_term(clauses@, r@[k].0 as int, r@[k].1 as int),
        forall|i: int, j: int| uses_term(clauses@, i, j) ==> exists|k: int| 0 <= k < r@.len() && r@[k] == (i as usize, j as usize),
        forall|a: int, b: int| 0 <= a < b < r@.len() ==> pair_lt(r@[a], r@[b]),
{
    let n = clauses.len();
    let mut out: Vec<(usize, usize)> = Vec::new();
    let mut i: usize = 0;
    while i < n
        invariant
            i <= n == clauses.len(),
            forall|k: int| 0 <= k < out@.len() ==> uses_term(clauses@, out@[k].0 as int, out@[k].1 as int)
                && out@[k].0 < i,
            forall|x: int, y: int| 0 <= x < i && uses_term(clauses@, x, y) ==> exists|k: int| 0 <= k < out@.len() && out@[k] == (x as usize, y as usize),
            forall|a: int, b: int| 0 <= a < b < out@.len() ==> pair_lt(out@[a], out@[b]),
        decreases n - i,
    {
        if clauses[i].kind != ClauseKind::Definition {
            let body = chars_of(clauses[i].body.as_str());
            let mut j: usize = 0;
            let ghost start = out@.len();
            while j < n
                invariant
                    i < n == clauses.len(),
                    j <= n,
                    start <= out@.len(),
                    body@ == clauses@[i as int].body@,
                    clauses@[i as int].kind != ClauseKind::Definition,
                    forall|k: int| 0 <= k < out@.len() ==> uses_term(clauses@, out@[k].0 as int, out@[k].1 as int)
                        && out@[k].0 <= i,
                    forall|k: int| start <= k < out@.len() ==> out@[k].0 == i && out@[k].1 < j,
                    forall|k: int| 0 <= k < start ==> out@[k].0 < i,
                    forall|x: int, y: int| 0 <= x < i && uses_term(clauses@, x, y) ==> exists|k: int| 0 <= k < out@.len() && out@[k] == (x as usize, y as usize),
                    forall|y: int| 0 <= y < j && uses_term(clauses@, i as int, y) ==> exists|k: int| 0 <= k < out@.len() && out@[k] == (i, y as usize),
                    forall|a: int, b: int| 0 <= a < b < out@.len() ==> pair_lt(out@[a], out@[b]),
                decreases n - j,
            {
                let mut hit = false;
                if j != i {
                    if let Some(t) = &clauses[j].term {
                        let tv = chars_of(t.as_str());
                        hit = !byte_len_le(tv.as_slice(), 2) && contains_chars(body.as_slice(), tv.as_slice());
                    }
                }
                assert(hit == uses_term(clauses@, i as int, j as int));
                let ghost prev = out@;
                if hit {
                    out.push((i, j));
                }
                assert forall|x: int, y: int| 0 <= x < i && uses_term(clauses@, x, y)
                    implies exists|k: int| 0 <= k < out@.len() && out@[k] == (x as usize, y as usize) by {
                    let k = choose|k: int| 0 <= k < prev.len() && prev[k] == (x as usize, y as usize);
                    assert(out@[k] == prev[k]);
                }
                assert forall|y: int| 0 <= y < j + 1 && uses_term(clauses@, i as int, y)
                    implies exists|k: int| 0 <= k < out@.len() && out@[k] == (i, y as usize) by {
                    if y == j {
                        assert(out@[out@.len() - 1] == (i, j));
                    } else {
                        let k = choose|k: int| 0 <= k < prev.len() && prev[k] == (i, y as usize);
                        assert(out@[k] == prev[k]);
                    }
                }
                j += 1;
            }
        } else {
            assert forall|y: int| !uses_term(clauses@, i as int, y) by {}
        }
        i += 1;
    }
    out
}

} // verus!
