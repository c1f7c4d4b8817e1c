//! Deterministic extraction: split a parsed document into clauses,
//! definitions and schedules, and infer metadata with keyword heuristics.

use vstd::prelude::*;
use crate::chars::{self, chars_of, byte_len_le, copy_opt, copy_strings};
use crate::strs::{self, views, join_strings, owned};
use crate::model::{ClauseKind, ClauseMetadata, ExtractedClause, ParsedDocument, Paragraph};
use crate::metadata::{self, detect_contract_type, detect_jurisdiction, classify_clause_type};
use crate::split::{self, ClauseView, MetaView, clause_view, clauses_view, split_into_clauses, find_definitions};

verus! {

/// The paragraph texts of a document joined by newlines.
pub open spec fn full_text(doc: ParsedDocument) -> Seq<char> {
    strs::join(doc.paragraphs@.map_values(|p: Paragraph| p.text@), "\n"@)
}

/// All (term, line) definition pairs found in the bodies of `cs`, in order.
pub open spec fn definition_pairs(cs: Seq<ClauseView>) -> Seq<(Seq<char>, Seq<char>)>
    decreases cs.len(),
{
    if cs.len() == 0 {
        Seq::empty()
    } else {
        definition_pairs(cs.drop_last()) + split::definitions_in(cs.last().body)
    }
}

/// A harvested definition as a standalone object at position `seq`.
pub open spec fn definition_object(pair: (Seq<char>, Seq<char>), seq: int) -> ClauseView {
    ClauseView {
        kind: ClauseKind::Definition,
        number: None,
        seq: seq,
        depth: 0,
        heading: None,
        term: Some(pair.0),
        body: pair.1,
        ooxml: Seq::empty(),
        heading_ooxml: None,
        meta: split::empty_meta(),
    }
}

/// The segmented objects followed by the definitions harvested from them.
pub open spec fn with_definitions(cs: Seq<ClauseView>) -> Seq<ClauseView> {
    cs + definition_pairs(cs).map(|k: int, p: (Seq<char>, Seq<char>)| definition_object(p, cs.len() + k))
}

pub open spec fn unwrap_or_empty(o: Option<Seq<char>>) -> Seq<char> {
    match o {
        Some(s) => s,
        None => Seq::empty(),
    }
}

/// Metadata attached to an object of a document.
pub open spec fn annotate(c: ClauseView, contract_type: Option<Seq<char>>, jurisdiction: Option<Seq<char>>, rel_path: Seq<char>) -> ClauseView {
    ClauseView {
        meta: MetaView {
            contract_type: contract_type,
            clause_type: if c.kind == ClauseKind::Definition {
                Some("Definitions"@)
            } else {
                metadata::clause_type_of(unwrap_or_empty(c.heading), c.body)
            },
            jurisdiction: jurisdiction,
            industry: None,
            risk: None,
            language: Some("English"@),
            version: None,
            source: Some(rel_path),
            approved: None,
        },
        ..c
    }
}

/// Objects long enough to be meaningful (at least 40 bytes of body), all
/// definitions, and every heading-only parent: its text lives in its
/// sub-clauses, so dropping it would orphan them.
pub open spec fn keep(c: ClauseView) -> bool {
    chars::byte_len(c.body) >= 40 || c.kind == ClauseKind::Definition || (c.heading is Some && c.body.len() == 0)
}

pub open spec fn kept(cs: Seq<ClauseView>) -> Seq<ClauseView>
    decreases cs.len(),
{
    if cs.len() == 0 {
        Seq::empty()
    } else if keep(cs.last()) {
        kept(cs.drop_last()).push(cs.last())
    } else {
        kept(cs.drop_last())
    }
}

/// The knowledge objects of a document.
pub open spec fn extraction(doc: ParsedDocument, rel_path: Seq<char>) -> Seq<ClauseView> {
    let text = full_text(doc);
    let ct = metadata::contract_type_of(doc.file_name@, text);
    let jur = metadata::jurisdiction_of(text);
    let all = with_definitions(split::segment(split::doc_paragraphs(doc)));
    kept(all.map_values(|c: ClauseView| annotate(c, ct, jur, rel_path)))
}

fn paragraph_texts(doc: &ParsedDocument) -> (r: Vec<String>)
    ensures
        views(r@) == doc.paragraphs@.map_values(|p: Paragraph| p.text@),
{
    let mut r: Vec<String> = Vec::new();
    let mut i: usize = 0;
    while i < doc.paragraphs.len()
        invariant
            i <= doc.paragraphs.len(),
            views(r@) == doc.paragraphs@.take(i as int).map_values(|p: Paragraph| p.text@),
        decreases doc.paragraphs.len() - i,
    {
        let ghost r0 = views(r@);
        r.push(doc.paragraphs[i].text.clone());
        i += 1;
        assert(views(r@) =~= r0.push(doc.paragraphs@[i - 1].text@));
        assert(doc.paragraphs@.take(i as int).map_values(|p: Paragraph| p.text@)
            =~= doc.paragraphs@.take((i - 1) as int).map_values(|p: Paragraph| p.text@).push(doc.paragraphs@[i - 1].text@));
    }
    assert(doc.paragraphs@.take(doc.paragraphs.len() as int) == doc.paragraphs@);
    r
}

fn copy_meta(m: &ClauseMetadata) -> (r: ClauseMetadata)
    ensures
        split::meta_view(r) == split::meta_view(*m),
{
    ClauseMetadata {
        contract_type: copy_opt(&m.contract_type),
        clause_type: copy_opt(&m.clause_type),
        jurisdiction: copy_opt(&m.jurisdiction),
        industry: copy_opt(&m.industry),
        risk: copy_opt(&m.risk),
        language: copy_opt(&m.language),
        version: copy_opt(&m.version),
        source: copy_opt(&m.source),
        approved: m.approved,
    }
}

/// Extract knowledge objects from a parsed document. `rel_path` is the
/// document's path relative to the watched folder, recorded as provenance on
/// every object.
pub fn extract(doc: &ParsedDocument, rel_path: &str) -> (r: Vec<ExtractedClause>)
    ensures
        clauses_view(r@) == extraction(*doc, rel_path@),
{
    let texts = paragraph_texts(doc);
    let text = join_strings(&texts, "\n");
    let contract_type = detect_contract_type(doc.file_name.as_str(), text.as_str());
    let jurisdiction = detect_jurisdiction(text.as_str());

    let clauses = split_into_clauses(doc);
    let ghost segmented = clauses_view(clauses@);

    // Harvest definitions out of clause bodies as standalone objects.
    let mut all: Vec<ExtractedClause> = Vec::new();
    let mut i: usize = 0;
    while i < clauses.len()
        invariant
            i <= clauses.len(),
            segmented == clauses_view(clauses@),
            clauses_view(all@) == segmented.take(i as int),
        decreases clauses.len() - i,
    {
        let c = &clauses[i];
        let ghost a0 = clauses_view(all@);
        let copy = ExtractedClause {
            kind: c.kind,
            number: copy_opt(&c.number),
            seq: c.seq,
            depth: c.depth,
            heading: copy_opt(&c.heading),
            term: copy_opt(&c.term),
            body: c.body.clone(),
            ooxml: copy_strings(&c.ooxml),
            heading_ooxml: copy_opt(&c.heading_ooxml),
            metadata: copy_meta(&c.metadata),
        };
        all.push(copy);
        i += 1;
        assert(clauses_view(all@) =~= a0.push(segmented[i - 1]));
        assert(segmented.take(i as int) =~= segmented.take((i - 1) as int).push(segmented[i - 1]));
    }
    assert(segmented.take(clauses.len() as int) == segmented);
    let n = clauses.len();
    let ghost pairs = definition_pairs(segmented);
    let mut k: usize = 0;
    i = 0;
    while i < clauses.len()
        invariant
            i <= clauses.len(),
            n == clauses.len(),
            segmented == clauses_view(clauses@),
            pairs == definition_pairs(segmented),
            k == definition_pairs(segmented.take(i as int)).len(),
            all.len() == n + k,
            clauses_view(all@) == segmented + definition_pairs(segmented.take(i as int)).map(
                |j: int, p: (Seq<char>, Seq<char>)| definition_object(p, n + j)),
        decreases clauses.len() - i,
    {
        assert(segmented.take(i + 1).drop_last() == segmented.take(i as int));
        assert(segmented.take(i + 1).last() == clause_view(clauses@[i as int]));
        let defs = find_definitions(clauses[i].body.as_str());
        let ghost before = definition_pairs(segmented.take(i as int));
        let ghost here = split::definitions_in(clauses@[i as int].body@);
        let mut j: usize = 0;
        while j < defs.len()
            invariant
                j <= defs.len(),
                n == clauses.len(),
                split::pairs_view(defs@) == here,
                k == before.len() + j,
                all.len() == n + k,
                clauses_view(all@) == segmented + (before + here.take(j as int)).map(
                    |m: int, p: (Seq<char>, Seq<char>)| definition_object(p, n + m)),
            decreases defs.len() - j,
        {
            let ghost a0 = clauses_view(all@);
            let ghost x = before + here.take(j as int);
            let obj = ExtractedClause {
                kind: ClauseKind::Definition,
                number: None,
                seq: all.len(),
                depth: 0,
                heading: None,
                term: Some(defs[j].0.clone()),
                body: defs[j].1.clone(),
                ooxml: Vec::new(),
                heading_ooxml: None,
                metadata: ClauseMetadata::default(),
            };
            let ghost o = definition_object(here[j as int], n + x.len());
            assert(views(obj.ooxml@) =~= Seq::<Seq<char>>::empty());
            assert(clause_view(obj) == o);
            all.push(obj);
            k = all.len() - n;
            j += 1;
            assert(before + here.take(j as int) =~= x.push(here[j - 1]));
            assert(x.push(here[j - 1]).map(|m: int, p: (Seq<char>, Seq<char>)| definition_object(p, n + m))
                =~= x.map(|m: int, p: (Seq<char>, Seq<char>)| definition_object(p, n + m)).push(o));
            assert(clauses_view(all@) =~= a0.push(o));
            assert(clauses_view(all@) =~= segmented + (before + here.take(j as int)).map(
                |m: int, p: (Seq<char>, Seq<char>)| definition_object(p, n + m)));
        }
        assert(here.take(defs.len() as int) == here);
        i += 1;
    }
    assert(segmented.take(clauses.len() as int) == segmented);

    // Classify each object and record provenance, then drop noise.
    let ghost ct = strs::opt_view(contract_type);
    let ghost jur = strs::opt_view(jurisdiction);
    let ghost annotated = clauses_view(all@).map_values(|c: ClauseView| annotate(c, ct, jur, rel_path@));
    let mut out: Vec<ExtractedClause> = Vec::new();
    i = 0;
    while i < all.len()
        invariant
            i <= all.len(),
            annotated == clauses_view(all@).map_values(|c: ClauseView| annotate(c, ct, jur, rel_path@)),
            ct == strs::opt_view(contract_type),
            jur == strs::opt_view(jurisdiction),
            clauses_view(out@) == kept(annotated.take(i as int)),
        decreases all.len() - i,
    {
        assert(annotated.take(i + 1).drop_last() == annotated.take(i as int));
        let c = &all[i];
        let clause_type = if c.kind == ClauseKind::Definition {
            Some(owned("Definitions"))
        } else {
            let heading: &str = match &c.heading {
                Some(h) => h.as_str(),
                None => "",
            };
            proof {
                assert(""@ == Seq::<char>::empty()) by {
                    reveal_strlit("");
                }
            }
            classify_clause_type(heading, c.body.as_str())
        };
        let obj = ExtractedClause {
            kind: c.kind,
            number: copy_opt(&c.number),
            seq: c.seq,
            depth: c.depth,
            heading: copy_opt(&c.heading),
            term: copy_opt(&c.term),
            body: c.body.clone(),
            ooxml: copy_strings(&c.ooxml),
            heading_ooxml: copy_opt(&c.heading_ooxml),
            metadata: ClauseMetadata {
                contract_type: copy_opt(&contract_type),
                clause_type,
                jurisdiction: copy_opt(&jurisdiction),
                industry: None,
                risk: None,
                language: Some(owned("English")),
                version: None,
                source: Some(owned(rel_path)),
                approved: None,
            },
        };
        assert(clause_view(obj) == annotated[i as int]);
        let body = chars_of(obj.body.as_str());
        let long_enough = !byte_len_le(body.as_slice(), 39);
        if long_enough || obj.kind == ClauseKind::Definition || (obj.heading.is_some() && body.len() == 0) {
            let ghost o0 = clauses_view(out@);
            out.push(obj);
            assert(clauses_view(out@) =~= o0.push(annotated[i as int]));
        }
        i += 1;
    }
    assert(annotated.take(all.len() as int) == annotated);
    out
}

/// Every object `kept` keeps is one of its input and passes `keep`.
proof fn lemma_kept_from(cs: Seq<ClauseView>)
    ensures
        forall|i: int| 0 <= i < kept(cs).len() ==> keep(#[trigger] kept(cs)[i])
            && exists|j: int| 0 <= j < cs.len() && cs[j] == kept(cs)[i],
    decreases cs.len(),
{
    if cs.len() > 0 {
        let d = cs.drop_last();
        lemma_kept_from(d);
        assert forall|i: int| 0 <= i < kept(cs).len() implies keep(#[trigger] kept(cs)[i])
            && exists|j: int| 0 <= j < cs.len() && cs[j] == kept(cs)[i] by {
            if i < kept(d).len() {
                assert(kept(cs)[i] == kept(d)[i]);
                let j = choose|j: int| 0 <= j < d.len() && d[j] == kept(d)[i];
                assert(cs[j] == d[j]);
            } else {
                assert(kept(cs)[i] == cs.last());
                assert(cs[cs.len() - 1] == cs.last());
            }
        }
    }
}

/// Every object extracted from a document records the document's path as
/// its source, English as its language and the document's detected contract
/// type; it is long enough to keep (or a definition, or a heading-only
/// parent); and every definition names its term under the clause type
/// "Definitions".
pub proof fn lemma_extracted_objects(doc: ParsedDocument, rel_path: Seq<char>)
    ensures
        forall|i: int| 0 <= i < extraction(doc, rel_path).len() ==> {
            let c = #[trigger] extraction(doc, rel_path)[i];
            &&& c.meta.source == Some(rel_path)
            &&& c.meta.language == Some("English"@)
            &&& c.meta.contract_type == metadata::contract_type_of(doc.file_name@, full_text(doc))
            &&& keep(c)
            &&& c.kind == ClauseKind::Definition ==> c.term is Some && c.meta.clause_type == Some("Definitions"@)
        },
{
    let text = full_text(doc);
    let ct = metadata::contract_type_of(doc.file_name@, text);
    let jur = metadata::jurisdiction_of(text);
    let seg = split::segment(split::doc_paragraphs(doc));
    let all = with_definitions(seg);
    let xs = all.map_values(|c: ClauseView| annotate(c, ct, jur, rel_path));
    split::lemma_segment_shape(split::doc_paragraphs(doc));
    lemma_kept_from(xs);
    assert forall|i: int| 0 <= i < extraction(doc, rel_path).len() implies {
        let c = #[trigger] extraction(doc, rel_path)[i];
        &&& c.meta.source == Some(rel_path)
        &&& c.meta.language == Some("English"@)
        &&& c.meta.contract_type == metadata::contract_type_of(doc.file_name@, full_text(doc))
        &&& keep(c)
        &&& c.kind == ClauseKind::Definition ==> c.term is Some && c.meta.clause_type == Some("Definitions"@)
    } by {
        let c = extraction(doc, rel_path)[i];
        let j = choose|j: int| 0 <= j < xs.len() && xs[j] == c;
        assert(xs[j] == annotate(all[j], ct, jur, rel_path));
        if j >= seg.len() {
            let k = j - seg.len();
            assert(all[j] == definition_object(definition_pairs(seg)[k], seg.len() + k));
        } else {
            assert(all[j] == seg[j]);
        }
    }
}

} // verus!
