//! Steps around a draft: which precedent lends its house style to the
//! rendered document, and folding a model's rewrite of one clause back into
//! the draft.

use vstd::prelude::*;
use crate::chars::{self, chars_of, to_lower, ends_with_str};
use crate::strs::{self, views};
use crate::lir::{Block, LirClause, LirDocument, Definition, blocks_texts};
use crate::storage::{SourceRecord, source_named, find_by_name};
use crate::assemble::{terms_used, terms_in};
use crate::patterns::{cross_refs, refs_from, strictly_sorted};
use crate::preview::body_text;
use crate::model::str_eq;

verus! {

// ---------------------------------------------------------------------------
// The style donor
// ---------------------------------------------------------------------------

/// Where a clause came from, when that is a named `.docx` file of a named
/// source: (source, file).
pub open spec fn docx_origin(c: LirClause) -> Option<(Seq<char>, Seq<char>)> {
    match c.provenance.source {
        Some(s) => match c.provenance.file {
            Some(f) => if f@.len() > 0 && chars::ends_with(chars::lower(f@), ".docx"@) {
                Some((s@, f@))
            } else {
                None
            },
            None => None,
        },
        None => None,
    }
}

/// The `.docx` origins of the clauses, in order.
pub open spec fn origins(cs: Seq<LirClause>) -> Seq<(Seq<char>, Seq<char>)>
    decreases cs.len(),
{
    if cs.len() == 0 {
        Seq::empty()
    } else {
        origins(cs.drop_last()) + match docx_origin(cs.last()) {
            Some(o) => seq![o],
            None => Seq::empty(),
        }
    }
}

/// How many times `p` occurs in `ps`.
pub open spec fn count_in(ps: Seq<(Seq<char>, Seq<char>)>, p: (Seq<char>, Seq<char>)) -> nat
    decreases ps.len(),
{
    if ps.len() == 0 {
        0
    } else {
        count_in(ps.drop_last(), p) + if ps.last() == p { 1nat } else { 0nat }
    }
}

/// `k` is the first position of an origin that occurs most often.
pub open spec fn is_top(ps: Seq<(Seq<char>, Seq<char>)>, k: int) -> bool {
    &&& 0 <= k < ps.len()
    &&& forall|j: int| 0 <= j < ps.len() ==> count_in(ps, #[trigger] ps[j]) <= count_in(ps, ps[k])
    &&& forall|j: int| 0 <= j < k ==> count_in(ps, #[trigger] ps[j]) < count_in(ps, ps[k])
}

/// The donor a choice of origin gives: the first registered source named
/// like the origin's source (ASCII case ignored), and the origin's file.
pub open spec fn donor_for(records: Seq<SourceRecord>, o: (Seq<char>, Seq<char>), r: Option<(usize, String)>) -> bool {
    let i = source_named(records, o.0);
    match r {
        Some((ri, f)) => i >= 0 && ri as int == i && f@ == o.1,
        None => i == -1,
    }
}

fn origin_of(c: &LirClause) -> (r: Option<(String, String)>)
    ensures
        match r {
            Some((s, f)) => docx_origin(*c) == Some((s@, f@)),
            None => docx_origin(*c) is None,
        },
{
    match &c.provenance.source {
        Some(s) => match &c.provenance.file {
            Some(f) => {
                let fv = chars_of(f.as_str());
                let lower = to_lower(fv.as_slice());
                if fv.len() > 0 && chars::ends_with_str(lower.as_slice(), ".docx") {
                    Some((chars::copy_string(s), chars::copy_string(f)))
                } else {
                    None
                }
            },
            None => None,
        },
        None => None,
    }
}

pub open spec fn pairs_view(v: Seq<(String, String)>) -> Seq<(Seq<char>, Seq<char>)> {
    v.map_values(|p: (String, String)| (p.0@, p.1@))
}

fn count_exec(ps: &Vec<(String, String)>, k: usize) -> (r: usize)
    requires
        k < ps.len(),
    ensures
        r as nat == count_in(pairs_view(ps@), pairs_view(ps@)[k as int]),
{
    let ghost pv = pairs_view(ps@);
    let mut n: usize = 0;
    let mut j: usize = 0;
    while j < ps.len()
        invariant
            j <= ps.len(),
            k < ps.len(),
            pv == pairs_view(ps@),
            n as nat == count_in(pv.take(j as int), pv[k as int]),
            n <= j,
        decreases ps.len() - j,
    {
        assert(pv.take(j + 1).drop_last() == pv.take(j as int));
        let same = str_eq(ps[j].0.as_str(), ps[k].0.as_str()) && str_eq(ps[j].1.as_str(), ps[k].1.as_str());
        assert(same == (pv[j as int] == pv[k as int]));
        if same {
            n = n + 1;
        }
        j += 1;
    }
    assert(pv.take(ps.len() as int) == pv);
    n
}

/// The precedent that lends its house style to a draft: among the `.docx`
/// files its clauses came from, the one that contributed the most clauses
/// (the first of them in clause order, on a tie), with the position of its
/// source in the registry and the file's path within that source's folder.
/// None when no clause came from a `.docx` file, or the source of the chosen
/// file is not registered.
pub fn donor_source(doc: &LirDocument, records: &[SourceRecord]) -> (r: Option<(usize, String)>)
    ensures
        origins(doc.clauses@).len() == 0 ==> r is None,
        origins(doc.clauses@).len() > 0 ==> exists|k: int| is_top(origins(doc.clauses@), k)
            && donor_for(records@, origins(doc.clauses@)[k], r),
{
    let ghost os = origins(doc.clauses@);
    let mut ps: Vec<(String, String)> = Vec::new();
    let mut i: usize = 0;
    while i < doc.clauses.len()
        invariant
            i <= doc.clauses.len(),
            pairs_view(ps@) == origins(doc.clauses@.take(i as int)),
        decreases doc.clauses.len() - i,
    {
        assert(doc.clauses@.take(i + 1).drop_last() == doc.clauses@.take(i as int));
        let ghost p0 = pairs_view(ps@);
        match origin_of(&doc.clauses[i]) {
            Some(o) => {
                ps.push(o);
                assert(pairs_view(ps@) =~= p0 + seq![(ps@[ps@.len() - 1].0@, ps@[ps@.len() - 1].1@)]);
            },
            None => {
                assert(p0 + Seq::<(Seq<char>, Seq<char>)>::empty() =~= p0);
            },
        }
        i += 1;
    }
    assert(doc.clauses@.take(doc.clauses.len() as int) == doc.clauses@);
    let ghost pv = pairs_view(ps@);
    assert(pv == os);
    if ps.len() == 0 {
        return None;
    }
    let mut best: usize = 0;
    let mut best_n = count_exec(&ps, 0);
    let mut k: usize = 1;
    while k < ps.len()
        invariant
            1 <= k <= ps.len(),
            best < k,
            pv == pairs_view(ps@),
            best_n as nat == count_in(pv, pv[best as int]),
            forall|j: int| 0 <= j < k ==> count_in(pv, #[trigger] pv[j]) <= count_in(pv, pv[best as int]),
            forall|j: int| 0 <= j < best ==> count_in(pv, #[trigger] pv[j]) < count_in(pv, pv[best as int]),
        decreases ps.len() - k,
    {
        let n = count_exec(&ps, k);
        if n > best_n {
            best = k;
            best_n = n;
        }
        k += 1;
    }
    assert(is_top(pv, best as int));
    let src = &ps[best].0;
    match find_by_name(records, src.as_str()) {
        Some(ri) => Some((ri, chars::copy_string(&ps[best].1))),
        None => None,
    }
}

// ---------------------------------------------------------------------------
// Adapting one clause
// ---------------------------------------------------------------------------

/// Position of the first top-level clause with the given number.
pub open spec fn numbered_at(cs: Seq<LirClause>, number: Seq<char>) -> int
    decreases cs.len(),
{
    if cs.len() == 0 {
        -1
    } else if numbered_at(cs.drop_last(), number) >= 0 {
        numbered_at(cs.drop_last(), number)
    } else if cs.last().number@ == number {
        cs.len() - 1
    } else {
        -1
    }
}

/// The position of the first top-level clause numbered `number`.
pub fn clause_position(doc: &LirDocument, number: &str) -> (r: Option<usize>)
    ensures
        match r {
            Some(i) => i as int == numbered_at(doc.clauses@, number@),
            None => numbered_at(doc.clauses@, number@) == -1,
        },
{
    let mut i: usize = 0;
    while i < doc.clauses.len()
        invariant
            i <= doc.clauses.len(),
            numbered_at(doc.clauses@.take(i as int), number@) == -1,
        decreases doc.clauses.len() - i,
    {
        assert(doc.clauses@.take(i + 1).drop_last() == doc.clauses@.take(i as int));
        if str_eq(doc.clauses[i].number.as_str(), number) {
            proof {
                lemma_numbered_prefix(doc.clauses@, number@, i + 1);
            }
            return Some(i);
        }
        i += 1;
    }
    assert(doc.clauses@.take(doc.clauses.len() as int) == doc.clauses@);
    None
}

proof fn lemma_numbered_prefix(cs: Seq<LirClause>, number: Seq<char>, k: int)
    requires
        0 <= k <= cs.len(),
        numbered_at(cs.take(k), number) >= 0,
    ensures
        numbered_at(cs, number) == numbered_at(cs.take(k), number),
    decreases cs.len() - k,
{
    if k < cs.len() {
        assert(cs.take(k + 1).drop_last() == cs.take(k));
        lemma_numbered_prefix(cs, number, k + 1);
    } else {
        assert(cs.take(k) == cs);
    }
}

/// The terms of a document's definitions table, in order.
pub fn definition_terms(doc: &LirDocument) -> (r: Vec<String>)
    ensures
        views(r@) == doc.definitions@.map_values(|d: Definition| d.term@),
{
    let mut out: Vec<String> = Vec::new();
    let mut i: usize = 0;
    while i < doc.definitions.len()
        invariant
            i <= doc.definitions.len(),
            views(out@) == doc.definitions@.take(i as int).map_values(|d: Definition| d.term@),
        decreases doc.definitions.len() - i,
    {
        let ghost o0 = views(out@);
        out.push(chars::copy_string(&doc.definitions[i].term));
        assert(views(out@) =~= o0.push(doc.definitions@[i as int].term@));
        assert(doc.definitions@.take(i + 1).map_values(|d: Definition| d.term@)
            =~= doc.definitions@.take(i as int).map_values(|d: Definition| d.term@).push(doc.definitions@[i as int].term@));
        i += 1;
    }
    assert(doc.definitions@.take(doc.definitions.len() as int) == doc.definitions@);
    out
}

/// A clause once a rewrite of its body is folded in: the new body, the
/// defined terms and the cross-references that its text (one line per
/// block) uses, and marked as adapted by a model; everything else as it
/// was.
pub open spec fn adapted(old: LirClause, new: LirClause, blocks: Seq<Block>, terms: Seq<Seq<char>>) -> bool {
    let text = strs::join(blocks_texts(blocks), seq!['\n']);
    &&& new.body@ == blocks
    &&& views(new.defined_terms_used@) == terms_in(text, terms)
    &&& strictly_sorted(views(new.cross_refs@))
    &&& views(new.cross_refs@).to_set() == refs_from(text, 0).to_set()
    &&& new.provenance.adapted_by_model
    &&& new.provenance.source == old.provenance.source
    &&& new.provenance.file == old.provenance.file
    &&& new.provenance.original_clause_id == old.provenance.original_clause_id
    &&& new.id == old.id && new.number == old.number && new.heading == old.heading
    &&& new.children == old.children
    &&& new.source_ooxml == old.source_ooxml && new.heading_ooxml == old.heading_ooxml
}

/// Fold a model's rewrite of a clause body into the clause.
pub fn apply_adaptation(clause: &mut LirClause, blocks: Vec<Block>, def_terms: &[String])
    ensures
        adapted(*old(clause), *final(clause), blocks@, views(def_terms@)),
{
    let text = body_text(&blocks);
    let used = terms_used(text.as_str(), def_terms);
    let refs = cross_refs(text.as_str());
    clause.body = blocks;
    clause.defined_terms_used = used;
    clause.cross_refs = refs;
    clause.provenance.adapted_by_model = true;
}

} // verus!
