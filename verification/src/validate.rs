//! Deterministic validation of an LIR document. Every check is reproducible
//! and reports a precise location. Errors block rendering; warnings do not.

use vstd::prelude::*;
use crate::chars::{self, chars_of, string_of, push_str, trim_chars, find_from, to_lowercase, contains_chars};
use crate::strs::{self, views, join_strings, contains_exact, owned};
use crate::num::{self, decimal_string};
use crate::words::{self, Class, split_words, strip_exec, strip_end_exec, vecs_view};
use crate::lir::{self, LirDocument, LirClause, Block, Definition, Party, Recital, Schedule, walk_all, block_text, blocks_texts};

verus! {

#[derive(Debug, Clone, Copy, PartialEq, Eq, Structural)]
pub enum Severity {
    Error,
    Warning,
}

#[derive(Debug, Clone)]
pub struct Finding {
    pub severity: Severity,
    pub code: &'static str,
    pub message: String,
    /// Human-readable location, e.g. "clause 3 (Termination)".
    pub location: String,
}

#[derive(Debug)]
pub struct ValidationReport {
    pub findings: Vec<Finding>,
}

/// A finding as plain values.
pub struct FindingView {
    pub severity: Severity,
    pub code: Seq<char>,
    pub message: Seq<char>,
    pub location: Seq<char>,
}

pub open spec fn finding_view(f: Finding) -> FindingView {
    FindingView { severity: f.severity, code: f.code@, message: f.message@, location: f.location@ }
}

pub open spec fn findings_view(v: Seq<Finding>) -> Seq<FindingView> {
    v.map_values(|f: Finding| finding_view(f))
}

pub open spec fn err(code: Seq<char>, location: Seq<char>, message: Seq<char>) -> FindingView {
    FindingView { severity: Severity::Error, code, message, location }
}

pub open spec fn warn(code: Seq<char>, location: Seq<char>, message: Seq<char>) -> FindingView {
    FindingView { severity: Severity::Warning, code, message, location }
}

impl Default for ValidationReport {
    fn default() -> (r: ValidationReport)
        ensures
            r.findings@.len() == 0,
    {
        ValidationReport { findings: Vec::new() }
    }
}

impl ValidationReport {
    /// The error findings, in order.
    pub fn errors(&self) -> (r: Vec<&Finding>)
        ensures
            r@.map_values(|f: &Finding| *f) == self.findings@.filter(|f: Finding| f.severity == Severity::Error),
    {
        self.with_severity(Severity::Error)
    }

    /// The warning findings, in order.
    pub fn warnings(&self) -> (r: Vec<&Finding>)
        ensures
            r@.map_values(|f: &Finding| *f) == self.findings@.filter(|f: Finding| f.severity == Severity::Warning),
    {
        self.with_severity(Severity::Warning)
    }

    fn with_severity(&self, sev: Severity) -> (r: Vec<&Finding>)
        ensures
            r@.map_values(|f: &Finding| *f) == self.findings@.filter(|f: Finding| f.severity == sev),
    {
        let mut out: Vec<&Finding> = Vec::new();
        let mut i: usize = 0;
        while i < self.findings.len()
            invariant
                i <= self.findings.len(),
                out@.map_values(|f: &Finding| *f) == self.findings@.take(i as int).filter(|f: Finding| f.severity == sev),
            decreases self.findings.len() - i,
        {
            reveal_with_fuel(Seq::filter, 1);
            assert(self.findings@.take(i + 1).drop_last() == self.findings@.take(i as int));
            let ghost o0 = out@.map_values(|f: &Finding| *f);
            if self.findings[i].severity == sev {
                out.push(&self.findings[i]);
                assert(out@.map_values(|f: &Finding| *f) =~= o0.push(self.findings@[i as int]));
            } else {
                assert(out@.map_values(|f: &Finding| *f) =~= o0);
            }
            i += 1;
        }
        assert(self.findings@.take(self.findings.len() as int) == self.findings@);
        out
    }

    /// Whether any finding is an error.
    pub fn has_errors(&self) -> (r: bool)
        ensures
            r == exists|i: int| 0 <= i < self.findings@.len() && self.findings@[i].severity == Severity::Error,
    {
        let mut i: usize = 0;
        while i < self.findings.len()
            invariant
                i <= self.findings.len(),
                forall|k: int| 0 <= k < i ==> self.findings@[k].severity != Severity::Error,
            decreases self.findings.len() - i,
        {
            if self.findings[i].severity == Severity::Error {
                return true;
            }
            i += 1;
        }
        false
    }
}

/// Whether a list of findings holds an error.
pub open spec fn has_error(fs: Seq<FindingView>) -> bool {
    exists|i: int| 0 <= i < fs.len() && fs[i].severity == Severity::Error
}

/// Whether a document with this report may be rendered: errors block
/// rendering unless the caller forces it; warnings never do.
pub open spec fn renders(report: ValidationReport, force: bool) -> bool {
    force || !has_error(findings_view(report.findings@))
}

/// Whether a document with this report may be rendered (see `renders`).
pub fn may_render(report: &ValidationReport, force: bool) -> (r: bool)
    ensures
        r == renders(*report, force),
{
    let e = report.has_errors();
    proof {
        let fv = findings_view(report.findings@);
        if e {
            let i = choose|i: int| 0 <= i < report.findings@.len() && report.findings@[i].severity == Severity::Error;
            assert(fv[i].severity == Severity::Error);
        } else {
            assert forall|i: int| 0 <= i < fv.len() implies fv[i].severity != Severity::Error by {
                assert(report.findings@[i].severity != Severity::Error);
            }
        }
    }
    force || !e
}

// ---------------------------------------------------------------------------
// What validation reports
// ---------------------------------------------------------------------------

/// "clause N" or "clause N (Heading)".
pub open spec fn clause_loc(c: LirClause) -> Seq<char> {
    if chars::trim(c.heading@).len() == 0 {
        "clause "@ + c.number@
    } else {
        "clause "@ + c.number@ + " ("@ + c.heading@ + ")"@
    }
}

/// A clause's own text: its blocks' texts joined by newlines.
pub open spec fn clause_text(c: LirClause) -> Seq<char> {
    strs::join(blocks_texts(c.body@), "\n"@)
}

/// Number expected at position `i` (0-based) among siblings under `prefix`.
pub open spec fn expected_number(prefix: Seq<char>, i: int) -> Seq<char> {
    if prefix.len() == 0 {
        num::decimal((i + 1) as nat)
    } else {
        prefix + "."@ + num::decimal((i + 1) as nat)
    }
}

/// Numbering must be dense and hierarchical: 1, 1.1, 1.2, 2, 2.1 … Each level
/// restarts at 1 and every child's number extends its parent's.
pub open spec fn numbering_list(cs: Seq<LirClause>, prefix: Seq<char>) -> Seq<FindingView>
    decreases cs,
{
    if cs.len() == 0 {
        Seq::empty()
    } else {
        numbering_list(cs.drop_last(), prefix) + numbering_one(cs.last(), expected_number(prefix, cs.len() - 1))
    }
}

pub open spec fn numbering_one(c: LirClause, expected: Seq<char>) -> Seq<FindingView>
    decreases c,
{
    (if c.number@ != expected {
        seq![err("numbering"@, clause_loc(c), "expected clause number "@ + expected + ", found "@ + c.number@)]
    } else {
        Seq::empty()
    }) + numbering_list(c.children@, expected)
}

/// The first position at or after `from` where `p` occurs.
pub open spec fn first_occ(s: Seq<char>, p: Seq<char>, from: int) -> Option<int>
    decreases s.len() + 1 - from,
{
    if from < 0 || from > s.len() {
        None
    } else if chars::occurs_at(s, p, from) {
        Some(from)
    } else {
        first_occ(s, p, from + 1)
    }
}

pub proof fn lemma_first_occ(s: Seq<char>, p: Seq<char>, from: int)
    requires
        from >= 0,
    ensures
        first_occ(s, p, from) matches Some(k) ==> from <= k <= s.len() && chars::occurs_at(s, p, k)
            && forall|j: int| from <= j < k ==> !chars::occurs_at(s, p, j),
        first_occ(s, p, from) is None ==> forall|j: int| from <= j ==> !chars::occurs_at(s, p, j),
    decreases s.len() + 1 - from,
{
    if from >= 0 && from <= s.len() && !chars::occurs_at(s, p, from) {
        lemma_first_occ(s, p, from + 1);
    }
}

/// The part of `s` before its first `|`.
pub open spec fn before_bar(s: Seq<char>) -> Seq<char> {
    s.take(crate::grammar::run_while(s, 0, |c: char| c != '|') as int)
}

/// Names of `{{name}}` / `{{name|Label}}` placeholders from position `i` on.
pub open spec fn vars_from(s: Seq<char>, i: int) -> Seq<Seq<char>>
    decreases s.len() - i,
{
    if i < 0 || i + 1 >= s.len() {
        Seq::empty()
    } else if s[i] == '{' && s[i + 1] == '{' {
        match first_occ(s, seq!['}', '}'], i + 2) {
            Some(k) => {
                proof {
                    lemma_first_occ(s, seq!['}', '}'], i + 2);
                }
                let name = chars::trim(before_bar(s.subrange(i + 2, k)));
                (if name.len() > 0 { seq![name] } else { Seq::empty() }) + vars_from(s, k + 2)
            },
            None => vars_from(s, i + 1),
        }
    } else {
        vars_from(s, i + 1)
    }
}

pub open spec fn var_findings(names: Seq<Seq<char>>, loc: Seq<char>) -> Seq<FindingView> {
    names.map_values(|n: Seq<char>| err("unresolved-variable"@, loc, "unresolved variable placeholder: {{"@ + n + "}}"@))
}

pub open spec fn xref_findings(refs: Seq<Seq<char>>, numbers: Seq<Seq<char>>, loc: Seq<char>) -> Seq<FindingView>
    decreases refs.len(),
{
    if refs.len() == 0 {
        Seq::empty()
    } else {
        xref_findings(refs.drop_last(), numbers, loc) + if numbers.contains(refs.last()) {
            Seq::<FindingView>::empty()
        } else {
            seq![err("dangling-cross-reference"@, loc, "references clause "@ + refs.last()
                + ", which does not exist in this document; the reference could not be remapped from the precedent's numbering"@)]
        }
    }
}

pub open spec fn term_findings(terms: Seq<Seq<char>>, defined: Seq<Seq<char>>, loc: Seq<char>) -> Seq<FindingView>
    decreases terms.len(),
{
    if terms.len() == 0 {
        Seq::empty()
    } else {
        term_findings(terms.drop_last(), defined, loc) + if defined.contains(terms.last()) {
            Seq::<FindingView>::empty()
        } else {
            seq![warn("undefined-term"@, loc, "uses \""@ + terms.last() + "\", which is not in the Definitions clause"@)]
        }
    }
}

/// Findings about one clause: an empty leaf, unresolved placeholders,
/// dangling cross-references (errors) and undefined terms (warnings).
pub open spec fn clause_findings(c: LirClause, numbers: Seq<Seq<char>>, defined: Seq<Seq<char>>) -> Seq<FindingView> {
    let loc = clause_loc(c);
    let text = clause_text(c);
    (if chars::trim(text).len() == 0 && c.children@.len() == 0 {
        seq![err("empty-clause"@, loc, "clause body is empty"@)]
    } else {
        Seq::empty()
    }) + var_findings(vars_from(text, 0), loc) + xref_findings(views(c.cross_refs@), numbers, loc)
        + term_findings(views(c.defined_terms_used@), defined, loc)
}

pub open spec fn all_clause_findings(cs: Seq<LirClause>, numbers: Seq<Seq<char>>, defined: Seq<Seq<char>>) -> Seq<FindingView>
    decreases cs.len(),
{
    if cs.len() == 0 {
        Seq::empty()
    } else {
        all_clause_findings(cs.drop_last(), numbers, defined) + clause_findings(cs.last(), numbers, defined)
    }
}

/// Every defined term a clause in `cs` says it uses, in order.
pub open spec fn used_terms(cs: Seq<LirClause>) -> Seq<Seq<char>>
    decreases cs.len(),
{
    if cs.len() == 0 {
        Seq::empty()
    } else {
        used_terms(cs.drop_last()) + views(cs.last().defined_terms_used@)
    }
}

// --- company names -----------------------------------------------------------

pub open spec fn entity_suffixes() -> Seq<Seq<char>> {
    seq!["(pty) ltd"@, "(pty) limited"@, "ltd"@, "limited"@, "inc"@, "incorporated"@,
        "llc"@, "llp"@, "plc"@, "cc"@, "n.v."@, "b.v."@, "gmbh"@, "sa"@, "spa"@]
}

/// The company-name endings that mark a name as a legal entity's.
pub proof fn lemma_entity_suffixes_as_listed()
    ensures
        ({
            let e = entity_suffixes();
            &&& e.len() == 15
            &&& e[0] == "(pty) ltd"@ && e[1] == "(pty) limited"@ && e[2] == "ltd"@ && e[3] == "limited"@
            &&& e[4] == "inc"@ && e[5] == "incorporated"@ && e[6] == "llc"@ && e[7] == "llp"@ && e[8] == "plc"@
            &&& e[9] == "cc"@ && e[10] == "n.v."@ && e[11] == "b.v."@ && e[12] == "gmbh"@ && e[13] == "sa"@
            &&& e[14] == "spa"@
        }),
{
}

/// How many words the entity suffix ending at word `i` spans (0: none).
pub open spec fn suffix_len(ws: Seq<Seq<char>>, i: int) -> int {
    let lc = words::strip_end(chars::unicode_lower(words::strip(ws[i], Class::NotNameChar)), Class::TrailingPunct);
    if i > 0 && chars::starts_with(chars::unicode_lower(ws[i - 1]), "(pty)"@) {
        2
    } else if entity_suffixes().contains(lc) {
        1
    } else {
        0
    }
}

/// Walk back from word `f` over capitalised words.
pub open spec fn name_start(ws: Seq<Seq<char>>, f: int) -> int
    decreases f,
{
    if f <= 0 {
        f
    } else {
        let prev = words::strip(ws[f - 1], Class::NotAlphanumeric);
        if prev.len() > 0 && chars::uppercase(prev[0]) {
            name_start(ws, f - 1)
        } else {
            f
        }
    }
}

/// The company name ending at word `i`, if one does: capitalised words
/// followed by a legal-entity suffix, at least two words long.
pub open spec fn name_at(ws: Seq<Seq<char>>, i: int) -> Option<Seq<char>> {
    let k = suffix_len(ws, i);
    if k == 0 {
        None
    } else {
        let start = i + 1 - k;
        let first = name_start(ws, start);
        if first == start {
            None
        } else {
            let name = words::strip(strs::join(ws.subrange(first, i + 1), " "@), Class::TrailingPunct);
            if words::words_of(name).len() >= 2 { Some(name) } else { None }
        }
    }
}

/// Distinct company-like names in `ws[..n]`, in order of first appearance.
pub open spec fn names_upto(ws: Seq<Seq<char>>, n: int) -> Seq<Seq<char>>
    decreases n,
{
    if n <= 0 {
        Seq::empty()
    } else {
        let prev = names_upto(ws, n - 1);
        match name_at(ws, n - 1) {
            Some(name) => if prev.contains(name) { prev } else { prev.push(name) },
            None => prev,
        }
    }
}

/// Company-like names in a run of text.
pub open spec fn entity_names(text: Seq<char>) -> Seq<Seq<char>> {
    let ws = words::words_of(text);
    names_upto(ws, ws.len() as int)
}

/// Every piece of prose in the document with its location label.
pub open spec fn document_texts(doc: LirDocument) -> Seq<(Seq<char>, Seq<char>)> {
    walk_all(doc.clauses@).map_values(|c: LirClause| (clause_loc(c), clause_text(c)))
        + doc.recitals@.map(|i: int, r: Recital| ("recital "@ + num::decimal((i + 1) as nat), strs::join(blocks_texts(r.body@), "\n"@)))
        + doc.schedules@.map_values(|s: Schedule| ("schedule \""@ + s.title@ + "\""@, strs::join(blocks_texts(s.body@), "\n"@)))
}

pub open spec fn is_party(parties: Seq<Seq<char>>, lc: Seq<char>) -> bool {
    exists|j: int| 0 <= j < parties.len() && (chars::contains(parties[j], lc) || chars::contains(lc, parties[j]))
}

/// Warnings so far and the lowercased names already flagged.
pub open spec fn party_scan(texts: Seq<(Seq<char>, Seq<char>)>, parties: Seq<Seq<char>>) -> (Seq<FindingView>, Seq<Seq<char>>)
    decreases texts.len(),
{
    if texts.len() == 0 {
        (Seq::empty(), Seq::empty())
    } else {
        let prev = party_scan(texts.drop_last(), parties);
        names_scan(prev, entity_names(texts.last().1), texts.last().0, parties)
    }
}

pub open spec fn names_scan(st: (Seq<FindingView>, Seq<Seq<char>>), names: Seq<Seq<char>>, loc: Seq<char>, parties: Seq<Seq<char>>) -> (Seq<FindingView>, Seq<Seq<char>>)
    decreases names.len(),
{
    if names.len() == 0 {
        st
    } else {
        let prev = names_scan(st, names.drop_last(), loc, parties);
        let name = names.last();
        let lc = chars::unicode_lower(name);
        if is_party(parties, lc) || prev.1.contains(lc) {
            prev
        } else {
            (prev.0.push(warn("foreign-party-name"@, loc, "names \""@ + name
                + "\", which is not a party to this agreement \u{2014} check it is not left over from the precedent"@)),
                prev.1.push(lc))
        }
    }
}

pub open spec fn unused_findings(defs: Seq<Definition>, used: Seq<Seq<char>>) -> Seq<FindingView>
    decreases defs.len(),
{
    if defs.len() == 0 {
        Seq::empty()
    } else {
        unused_findings(defs.drop_last(), used) + if used.contains(defs.last().term@) {
            Seq::<FindingView>::empty()
        } else {
            seq![warn("unused-definition"@, "definition \""@ + defs.last().term@ + "\""@, "is defined but never used"@)]
        }
    }
}

pub open spec fn document_findings(doc: LirDocument) -> Seq<FindingView> {
    (if doc.parties@.len() == 0 {
        seq![err("no-parties"@, "document"@, "the document has no parties"@)]
    } else {
        Seq::empty()
    }) + (if doc.clauses@.len() == 0 {
        seq![err("no-clauses"@, "document"@, "the document has no clauses"@)]
    } else {
        Seq::empty()
    }) + (if doc.execution.blocks@.len() == 0 {
        seq![err("no-execution"@, "document"@, "the document has no execution/signature block"@)]
    } else {
        Seq::empty()
    })
}

/// Everything validation reports about a document, in order: document-level
/// errors, numbering, per-clause checks (depth-first), names of companies that
/// are not parties, and unused definitions.
pub open spec fn validation(doc: LirDocument) -> Seq<FindingView> {
    let all = walk_all(doc.clauses@);
    let numbers = all.map_values(|c: LirClause| c.number@);
    let defined = doc.definitions@.map_values(|d: Definition| d.term@);
    let parties = doc.parties@.map_values(|p: Party| chars::unicode_lower(p.name@));
    document_findings(doc) + numbering_list(doc.clauses@, Seq::empty())
        + all_clause_findings(all, numbers, defined)
        + party_scan(document_texts(doc), parties).0
        + unused_findings(doc.definitions@, used_terms(all))
}


// ---------------------------------------------------------------------------
// Executable checks
// ---------------------------------------------------------------------------

pub proof fn lemma_first_occ_is(s: Seq<char>, p: Seq<char>, from: int, k: int)
    requires
        0 <= from <= k,
        chars::occurs_at(s, p, k),
        forall|j: int| from <= j < k ==> !chars::occurs_at(s, p, j),
    ensures
        first_occ(s, p, from) == Some(k),
    decreases k - from,
{
    if from < k {
        lemma_first_occ_is(s, p, from + 1, k);
    }
}

pub proof fn lemma_first_occ_none(s: Seq<char>, p: Seq<char>, from: int)
    requires
        from >= 0,
        forall|j: int| from <= j ==> !chars::occurs_at(s, p, j),
    ensures
        first_occ(s, p, from) is None,
    decreases s.len() + 1 - from,
{
    if from <= s.len() {
        lemma_first_occ_none(s, p, from + 1);
    }
}

fn finding(severity: Severity, code: &'static str, location: String, message: String) -> (f: Finding)
    ensures
        finding_view(f) == (FindingView { severity, code: code@, message: message@, location: location@ }),
{
    Finding { severity, code, message, location }
}

fn push_finding(out: &mut Vec<Finding>, f: Finding)
    ensures
        findings_view(final(out)@) == findings_view(old(out)@).push(finding_view(f)),
{
    let ghost o0 = findings_view(out@);
    let ghost fv = finding_view(f);
    out.push(f);
    assert(findings_view(out@) =~= o0.push(fv));
}

fn concat3(a: &str, b: &str, c: &str) -> (r: String)
    ensures
        r@ == a@ + b@ + c@,
{
    let mut s = owned(a);
    push_str(&mut s, b);
    push_str(&mut s, c);
    s
}

fn clause_loc_exec(c: &LirClause) -> (r: String)
    ensures
        r@ == clause_loc(*c),
{
    let h = chars::trim_str(c.heading.as_str());
    let mut s = owned("clause ");
    push_str(&mut s, c.number.as_str());
    if h.len() > 0 {
        push_str(&mut s, " (");
        push_str(&mut s, c.heading.as_str());
        push_str(&mut s, ")");
    }
    s
}

fn blocks_text_exec(bs: &Vec<Block>) -> (r: String)
    ensures
        r@ == strs::join(blocks_texts(bs@), "\n"@),
{
    let mut texts: Vec<String> = Vec::new();
    let mut i: usize = 0;
    while i < bs.len()
        invariant
            i <= bs.len(),
            views(texts@) == blocks_texts(bs@.take(i as int)),
        decreases bs.len() - i,
    {
        assert(bs@.take(i + 1).drop_last() == bs@.take(i as int));
        let ghost t0 = views(texts@);
        let t = bs[i].plain_text();
        let ghost tv = t@;
        texts.push(t);
        assert(views(texts@) =~= t0.push(tv));
        i += 1;
    }
    assert(bs@.take(bs.len() as int) == bs@);
    join_strings(&texts, "\n")
}

fn check_numbering(out: &mut Vec<Finding>, cs: &Vec<LirClause>, prefix: &str)
    ensures
        findings_view(final(out)@) == findings_view(old(out)@) + numbering_list(cs@, prefix@),
    decreases cs@,
{
    let ghost o0 = findings_view(out@);
    let mut i: usize = 0;
    assert forall|k: int| 0 <= k < cs@.len() implies decreases_to!(cs@ => cs@[k].children@) by {
        assert(decreases_to!(cs@ => cs@[k]));
        assert(decreases_to!(cs@[k] => cs@[k].children));
        assert(decreases_to!(cs@[k].children => cs@[k].children@));
    }
    while i < cs.len()
        invariant
            i <= cs.len(),
            forall|k: int| 0 <= k < cs@.len() ==> decreases_to!(cs@ => cs@[k].children@),
            findings_view(out@) == o0 + numbering_list(cs@.take(i as int), prefix@),
        decreases cs.len() - i,
    {
        assert(cs@.take(i + 1).drop_last() == cs@.take(i as int));
        assert(cs@.take(i + 1).last() == cs@[i as int]);
        let c = &cs[i];
        let n = decimal_string(i + 1);
        let pv = chars_of(prefix);
        let expected = if pv.len() == 0 {
            n
        } else {
            concat3(prefix, ".", n.as_str())
        };
        assert(expected@ == expected_number(prefix@, i as int));
        let ghost before = findings_view(out@);
        if !crate::model::str_eq(c.number.as_str(), expected.as_str()) {
            let msg = concat3("expected clause number ", expected.as_str(), ", found ");
            let mut msg = msg;
            push_str(&mut msg, c.number.as_str());
            push_finding(out, finding(Severity::Error, "numbering", clause_loc_exec(c), msg));
        }
        let ghost mid = findings_view(out@);
        check_numbering(out, &c.children, expected.as_str());
        assert(findings_view(out@) == o0 + numbering_list(cs@.take(i as int), prefix@)
            + numbering_one(cs@[i as int], expected_number(prefix@, i as int)));
        i += 1;
    }
    assert(cs@.take(cs.len() as int) == cs@);
}

fn before_bar_exec(s: &[char]) -> (r: Vec<char>)
    ensures
        r@ == before_bar(s@),
{
    let ghost p = |c: char| c != '|';
    let mut j: usize = 0;
    while j < s.len() && s[j] != '|'
        invariant
            j <= s.len(),
            crate::grammar::run_while(s@, 0, |c: char| c != '|') == j + crate::grammar::run_while(s@, j as int, |c: char| c != '|'),
        decreases s.len() - j,
    {
        proof {
            crate::grammar::lemma_run_step(s@, j as int, |c: char| c != '|');
        }
        j += 1;
    }
    chars::slice_of(s, 0, j)
}

/// Names of the `{{…}}` placeholders in a text, in order.
pub(crate) fn unresolved_vars(s: &[char]) -> (r: Vec<Vec<char>>)
    ensures
        vecs_view(r@) == vars_from(s@, 0),
{
    let close: [char; 2] = ['}', '}'];
    assert(close@ == seq!['}', '}']);
    let mut out: Vec<Vec<char>> = Vec::new();
    let mut i: usize = 0;
    assert(vecs_view(out@) =~= Seq::<Seq<char>>::empty());
    while i < s.len() && i + 1 < s.len()
        invariant
            i <= s.len(),
            close@ == seq!['}', '}'],
            vecs_view(out@) + vars_from(s@, i as int) == vars_from(s@, 0),
        decreases s.len() - i,
    {
        if s[i] == '{' && s[i + 1] == '{' {
            match find_from(s, close.as_slice(), i + 2) {
                Some(end) => {
                    proof {
                        lemma_first_occ_is(s@, seq!['}', '}'], i + 2, end as int);
                    }
                    let inner = chars::slice_of(s, i + 2, end);
                    let name = trim_chars(before_bar_exec(inner.as_slice()).as_slice());
                    let ghost o0 = vecs_view(out@);
                    let ghost nv = name@;
                    if name.len() > 0 {
                        out.push(name);
                        assert(vecs_view(out@) =~= o0.push(nv));
                        assert(o0 + (seq![nv] + vars_from(s@, end + 2)) =~= o0.push(nv) + vars_from(s@, end + 2));
                    } else {
                        assert(o0 + (Seq::<Seq<char>>::empty() + vars_from(s@, end + 2)) =~= o0 + vars_from(s@, end + 2));
                    }
                    i = end + 2;
                    continue;
                },
                None => {
                    proof {
                        lemma_first_occ_none(s@, seq!['}', '}'], i + 2);
                    }
                },
            }
        }
        i += 1;
    }
    assert(vars_from(s@, i as int) == Seq::<Seq<char>>::empty());
    assert(vecs_view(out@) + Seq::<Seq<char>>::empty() == vecs_view(out@));
    out
}

fn contains_vec(v: &Vec<Vec<char>>, x: &[char]) -> (r: bool)
    ensures
        r == vecs_view(v@).contains(x@),
{
    let mut i: usize = 0;
    while i < v.len()
        invariant
            i <= v.len(),
            forall|k: int| 0 <= k < i ==> vecs_view(v@)[k] != x@,
        decreases v.len() - i,
    {
        assert(vecs_view(v@)[i as int] == v@[i as int]@);
        if chars_eq(v[i].as_slice(), x) {
            return true;
        }
        i += 1;
    }
    false
}

fn chars_eq(a: &[char], b: &[char]) -> (r: bool)
    ensures
        r == (a@ == b@),
{
    if a.len() != b.len() {
        return false;
    }
    let mut i: usize = 0;
    while i < a.len()
        invariant
            i <= a.len() == b.len(),
            forall|k: int| 0 <= k < i ==> a@[k] == b@[k],
        decreases a.len() - i,
    {
        if a[i] != b[i] {
            return false;
        }
        i += 1;
    }
    assert(a@ =~= b@);
    true
}

fn lower_chars(v: &[char]) -> (r: Vec<char>)
    ensures
        r@ == chars::unicode_lower(v@),
{
    let s = string_of(v);
    let l = to_lowercase(s.as_str());
    chars_of(l.as_str())
}

fn is_suffix_word(lc: &[char]) -> (r: bool)
    ensures
        r == entity_suffixes().contains(lc@),
{
    let list: [&str; 15] = ["(pty) ltd", "(pty) limited", "ltd", "limited", "inc", "incorporated",
        "llc", "llp", "plc", "cc", "n.v.", "b.v.", "gmbh", "sa", "spa"];
    assert(strs::str_views(list@) =~= entity_suffixes());
    let mut i: usize = 0;
    while i < 15
        invariant
            i <= 15,
            strs::str_views(list@) == entity_suffixes(),
            forall|k: int| 0 <= k < i ==> entity_suffixes()[k] != lc@,
        decreases 15 - i,
    {
        assert(strs::str_views(list@)[i as int] == list@[i as int]@);
        if chars_eq(chars_of(list[i]).as_slice(), lc) {
            return true;
        }
        i += 1;
    }
    false
}

fn name_at_exec(ws: &Vec<Vec<char>>, i: usize) -> (r: Option<Vec<char>>)
    requires
        i < ws.len(),
    ensures
        match r {
            Some(n) => name_at(vecs_view(ws@), i as int) == Some(n@),
            None => name_at(vecs_view(ws@), i as int) is None,
        },
{
    let ghost wv = vecs_view(ws@);
    assert(wv[i as int] == ws@[i as int]@);
    let cleaned = strip_exec(ws[i].as_slice(), Class::NotNameChar);
    let lc = strip_end_exec(lower_chars(cleaned.as_slice()).as_slice(), Class::TrailingPunct);
    let k: usize = if i > 0 && chars::starts_with_str(lower_chars(ws[i - 1].as_slice()).as_slice(), "(pty)") {
        assert(wv[i - 1] == ws@[i - 1]@);
        2
    } else if is_suffix_word(lc.as_slice()) {
        1
    } else {
        0
    };
    assert(k == suffix_len(wv, i as int)) by {
        if i > 0 {
            assert(wv[i - 1] == ws@[i - 1]@);
        }
    }
    if k == 0 {
        return None;
    }
    let start = i + 1 - k;
    let mut first = start;
    let mut going = true;
    while going && first > 0
        invariant
            first <= start <= i < ws.len(),
            wv == vecs_view(ws@),
            name_start(wv, start as int) == name_start(wv, first as int),
            !going ==> name_start(wv, first as int) == first,
        decreases first + (if going { 1int } else { 0int }),
    {
        assert(wv[first - 1] == ws@[first - 1]@);
        let prev = strip_exec(ws[first - 1].as_slice(), Class::NotAlphanumeric);
        if prev.len() > 0 && chars::is_uppercase(prev[0]) {
            first -= 1;
        } else {
            going = false;
        }
    }
    assert(name_start(wv, start as int) == first);
    if first == start {
        return None;
    }
    let mut joined: Vec<char> = Vec::new();
    let mut j = first;
    proof {
        reveal_strlit(" ");
    }
    while j <= i
        invariant
            first <= j <= i + 1,
            i < ws.len(),
            wv == vecs_view(ws@),
            " "@ == seq![' '],
            joined@ == strs::join(wv.subrange(first as int, j as int), " "@),
        decreases i + 1 - j,
    {
        assert(wv.subrange(first as int, j + 1).drop_last() == wv.subrange(first as int, j as int));
        assert(wv.subrange(first as int, j + 1).last() == ws@[j as int]@);
        if j > first {
            joined.push(' ');
        }
        let w = &ws[j];
        let mut m: usize = 0;
        let ghost base = joined@;
        while m < w.len()
            invariant
                m <= w.len(),
                joined@ == base + w@.take(m as int),
            decreases w.len() - m,
        {
            joined.push(w[m]);
            m += 1;
            assert(w@.take(m as int) == w@.take((m - 1) as int).push(w@[m - 1]));
        }
        assert(w@.take(w.len() as int) == w@);
        j += 1;
    }
    let name = strip_exec(joined.as_slice(), Class::TrailingPunct);
    if split_words(name.as_slice()).len() >= 2 {
        Some(name)
    } else {
        None
    }
}

/// Company-like names in a run of text: capitalised words ending in a
/// legal-entity suffix ("Alpha Holdings (Pty) Ltd", "Beta Inc").
fn entity_names_exec(text: &[char]) -> (r: Vec<Vec<char>>)
    ensures
        vecs_view(r@) == entity_names(text@),
{
    let ws = split_words(text);
    let ghost wv = vecs_view(ws@);
    let mut out: Vec<Vec<char>> = Vec::new();
    assert(vecs_view(out@) =~= Seq::<Seq<char>>::empty());
    let mut i: usize = 0;
    while i < ws.len()
        invariant
            i <= ws.len(),
            wv == vecs_view(ws@),
            wv == words::words_of(text@),
            vecs_view(out@) == names_upto(wv, i as int),
        decreases ws.len() - i,
    {
        match name_at_exec(&ws, i) {
            Some(name) => {
                if !contains_vec(&out, name.as_slice()) {
                    let ghost o0 = vecs_view(out@);
                    let ghost nv = name@;
                    out.push(name);
                    assert(vecs_view(out@) =~= o0.push(nv));
                }
            },
            None => {},
        }
        i += 1;
    }
    out
}

fn check_clause(out: &mut Vec<Finding>, c: &LirClause, numbers: &Vec<String>, defined: &Vec<String>)
    ensures
        findings_view(final(out)@) == findings_view(old(out)@) + clause_findings(*c, views(numbers@), views(defined@)),
{
    let ghost o0 = findings_view(out@);
    let loc = clause_loc_exec(c);
    let text = blocks_text_exec(&c.body);
    let tv = chars_of(text.as_str());
    if trim_chars(tv.as_slice()).len() == 0 && c.children.len() == 0 {
        push_finding(out, finding(Severity::Error, "empty-clause", loc.clone(), owned("clause body is empty")));
    }
    let ghost o1 = findings_view(out@);
    let names = unresolved_vars(tv.as_slice());
    let ghost nv = vecs_view(names@);
    let mut i: usize = 0;
    while i < names.len()
        invariant
            i <= names.len(),
            nv == vecs_view(names@),
            findings_view(out@) == o1 + var_findings(nv.take(i as int), loc@),
        decreases names.len() - i,
    {
        let name = string_of(names[i].as_slice());
        let msg = concat3("unresolved variable placeholder: {{", name.as_str(), "}}");
        push_finding(out, finding(Severity::Error, "unresolved-variable", loc.clone(), msg));
        assert(nv.take(i + 1) == nv.take(i as int).push(nv[i as int]));
        assert(var_findings(nv.take(i + 1), loc@) =~= var_findings(nv.take(i as int), loc@).push(
            err("unresolved-variable"@, loc@, "unresolved variable placeholder: {{"@ + nv[i as int] + "}}"@)));
        i += 1;
    }
    assert(nv.take(names.len() as int) == nv);
    let ghost o2 = findings_view(out@);
    let ghost refs = views(c.cross_refs@);
    i = 0;
    while i < c.cross_refs.len()
        invariant
            i <= c.cross_refs.len(),
            refs == views(c.cross_refs@),
            findings_view(out@) == o2 + xref_findings(refs.take(i as int), views(numbers@), loc@),
        decreases c.cross_refs.len() - i,
    {
        assert(refs.take(i + 1).drop_last() == refs.take(i as int));
        assert(refs.take(i + 1).last() == c.cross_refs@[i as int]@);
        let x = c.cross_refs[i].as_str();
        if !contains_exact(numbers, x) {
            let mut msg = concat3("references clause ", x,
                ", which does not exist in this document; the reference could not be remapped from the precedent's numbering");
            push_finding(out, finding(Severity::Error, "dangling-cross-reference", loc.clone(), msg));
        }
        i += 1;
    }
    assert(refs.take(c.cross_refs.len() as int) == refs);
    let ghost o3 = findings_view(out@);
    let ghost terms = views(c.defined_terms_used@);
    i = 0;
    while i < c.defined_terms_used.len()
        invariant
            i <= c.defined_terms_used.len(),
            terms == views(c.defined_terms_used@),
            findings_view(out@) == o3 + term_findings(terms.take(i as int), views(defined@), loc@),
        decreases c.defined_terms_used.len() - i,
    {
        assert(terms.take(i + 1).drop_last() == terms.take(i as int));
        assert(terms.take(i + 1).last() == c.defined_terms_used@[i as int]@);
        let t = c.defined_terms_used[i].as_str();
        if !contains_exact(defined, t) {
            let msg = concat3("uses \"", t, "\", which is not in the Definitions clause");
            push_finding(out, finding(Severity::Warning, "undefined-term", loc.clone(), msg));
        }
        i += 1;
    }
    assert(terms.take(c.defined_terms_used.len() as int) == terms);
}

fn document_texts_exec(doc: &LirDocument, all: &Vec<&LirClause>) -> (r: Vec<(String, String)>)
    requires
        lir::derefs(all@) == walk_all(doc.clauses@),
    ensures
        r@.map_values(|p: (String, String)| (p.0@, p.1@)) == document_texts(*doc),
{
    let ghost want = document_texts(*doc);
    let ghost w1 = walk_all(doc.clauses@).map_values(|c: LirClause| (clause_loc(c), clause_text(c)));
    let ghost w2 = doc.recitals@.map(|i: int, r: Recital| ("recital "@ + num::decimal((i + 1) as nat), strs::join(blocks_texts(r.body@), "\n"@)));
    let ghost w3 = doc.schedules@.map_values(|s: Schedule| ("schedule \""@ + s.title@ + "\""@, strs::join(blocks_texts(s.body@), "\n"@)));
    let mut out: Vec<(String, String)> = Vec::new();
    let mut i: usize = 0;
    while i < all.len()
        invariant
            i <= all.len(),
            lir::derefs(all@) == walk_all(doc.clauses@),
            w1 == walk_all(doc.clauses@).map_values(|c: LirClause| (clause_loc(c), clause_text(c))),
            out@.map_values(|p: (String, String)| (p.0@, p.1@)) == w1.take(i as int),
            w1.len() == all.len(),
        decreases all.len() - i,
    {
        let c: &LirClause = all[i];
        assert(*c == walk_all(doc.clauses@)[i as int]);
        let ghost o0 = out@.map_values(|p: (String, String)| (p.0@, p.1@));
        let pair = (clause_loc_exec(c), blocks_text_exec(&c.body));
        let ghost pr = (pair.0@, pair.1@);
        assert(pr == w1[i as int]);
        out.push(pair);
        assert(out@.map_values(|p: (String, String)| (p.0@, p.1@)) =~= o0.push(pr));
        assert(w1.take(i + 1) =~= w1.take(i as int).push(w1[i as int]));
        i += 1;
    }
    assert(w1.take(all.len() as int) == w1);
    i = 0;
    while i < doc.recitals.len()
        invariant
            i <= doc.recitals.len(),
            w2 == doc.recitals@.map(|i: int, r: Recital| ("recital "@ + num::decimal((i + 1) as nat), strs::join(blocks_texts(r.body@), "\n"@))),
            out@.map_values(|p: (String, String)| (p.0@, p.1@)) == w1 + w2.take(i as int),
        decreases doc.recitals.len() - i,
    {
        let r = &doc.recitals[i];
        let mut loc = owned("recital ");
        let n = decimal_string(i + 1);
        push_str(&mut loc, n.as_str());
        let ghost o0 = out@.map_values(|p: (String, String)| (p.0@, p.1@));
        let pair = (loc, blocks_text_exec(&r.body));
        let ghost pr = (pair.0@, pair.1@);
        assert(pr == w2[i as int]);
        out.push(pair);
        assert(out@.map_values(|p: (String, String)| (p.0@, p.1@)) =~= o0.push(pr));
        assert(w2.take(i + 1) =~= w2.take(i as int).push(w2[i as int]));
        i += 1;
    }
    assert(w2.take(doc.recitals.len() as int) == w2);
    i = 0;
    while i < doc.schedules.len()
        invariant
            i <= doc.schedules.len(),
            w3 == doc.schedules@.map_values(|s: Schedule| ("schedule \""@ + s.title@ + "\""@, strs::join(blocks_texts(s.body@), "\n"@))),
            out@.map_values(|p: (String, String)| (p.0@, p.1@)) == w1 + w2 + w3.take(i as int),
        decreases doc.schedules.len() - i,
    {
        let sc = &doc.schedules[i];
        let loc = concat3("schedule \"", sc.title.as_str(), "\"");
        let ghost o0 = out@.map_values(|p: (String, String)| (p.0@, p.1@));
        let pair = (loc, blocks_text_exec(&sc.body));
        let ghost pr = (pair.0@, pair.1@);
        assert(pr == w3[i as int]);
        out.push(pair);
        assert(out@.map_values(|p: (String, String)| (p.0@, p.1@)) =~= o0.push(pr));
        assert(w3.take(i + 1) =~= w3.take(i as int).push(w3[i as int]));
        i += 1;
    }
    assert(w3.take(doc.schedules.len() as int) == w3);
    assert(w1 + w2 + w3 == want);
    out
}

fn is_party_exec(parties: &Vec<Vec<char>>, lc: &[char]) -> (r: bool)
    ensures
        r == is_party(vecs_view(parties@), lc@),
{
    let mut j: usize = 0;
    while j < parties.len()
        invariant
            j <= parties.len(),
            forall|k: int| 0 <= k < j ==> !(chars::contains(vecs_view(parties@)[k], lc@) || chars::contains(lc@, vecs_view(parties@)[k])),
        decreases parties.len() - j,
    {
        assert(vecs_view(parties@)[j as int] == parties@[j as int]@);
        if contains_chars(parties[j].as_slice(), lc) || contains_chars(lc, parties[j].as_slice()) {
            return true;
        }
        j += 1;
    }
    false
}

/// Validate a document: every finding, in order (see `validation`).
pub fn validate(doc: &LirDocument) -> (r: ValidationReport)
    ensures
        findings_view(r.findings@) == validation(*doc),
{
    let mut out: Vec<Finding> = Vec::new();
    assert(findings_view(out@) =~= Seq::<FindingView>::empty());
    if doc.parties.len() == 0 {
        push_finding(&mut out, finding(Severity::Error, "no-parties", owned("document"), owned("the document has no parties")));
    }
    if doc.clauses.len() == 0 {
        push_finding(&mut out, finding(Severity::Error, "no-clauses", owned("document"), owned("the document has no clauses")));
    }
    if doc.execution.blocks.len() == 0 {
        push_finding(&mut out, finding(Severity::Error, "no-execution", owned("document"),
            owned("the document has no execution/signature block")));
    }
    assert(findings_view(out@) =~= document_findings(*doc));
    let all = doc.walk_clauses();
    let numbers = clause_numbers(&all);
    let defined = defined_terms(doc);
    proof {
        reveal_strlit("");
    }
    check_numbering(&mut out, &doc.clauses, "");
    assert(""@ =~= Seq::<char>::empty());
    let used = check_clauses(&mut out, &all, &numbers, &defined);
    check_parties(&mut out, doc, &all);
    check_unused(&mut out, doc, &used);
    ValidationReport { findings: out }
}

fn clause_numbers(all: &Vec<&LirClause>) -> (r: Vec<String>)
    ensures
        views(r@) == lir::derefs(all@).map_values(|c: LirClause| c.number@),
{
    let ghost wall = lir::derefs(all@);
    let mut numbers: Vec<String> = Vec::new();
    let mut i: usize = 0;
    while i < all.len()
        invariant
            i <= all.len(),
            lir::derefs(all@) == wall,
            views(numbers@) == wall.map_values(|c: LirClause| c.number@).take(i as int),
        decreases all.len() - i,
    {
        let ghost n0 = views(numbers@);
        numbers.push(all[i].number.clone());
        assert(views(numbers@) =~= n0.push(wall[i as int].number@));
        assert(wall.map_values(|c: LirClause| c.number@).take(i + 1) =~= n0.push(wall[i as int].number@));
        i += 1;
    }
    assert(wall.map_values(|c: LirClause| c.number@).take(all.len() as int) =~= wall.map_values(|c: LirClause| c.number@));
    numbers
}

fn defined_terms(doc: &LirDocument) -> (r: Vec<String>)
    ensures
        views(r@) == doc.definitions@.map_values(|d: Definition| d.term@),
{
    let mut defined: Vec<String> = Vec::new();
    let mut i: usize = 0;
    while i < doc.definitions.len()
        invariant
            i <= doc.definitions.len(),
            views(defined@) == doc.definitions@.map_values(|d: Definition| d.term@).take(i as int),
        decreases doc.definitions.len() - i,
    {
        let ghost d0 = views(defined@);
        defined.push(doc.definitions[i].term.clone());
        assert(views(defined@) =~= d0.push(doc.definitions@[i as int].term@));
        assert(doc.definitions@.map_values(|d: Definition| d.term@).take(i + 1) =~= d0.push(doc.definitions@[i as int].term@));
        i += 1;
    }
    assert(doc.definitions@.map_values(|d: Definition| d.term@).take(doc.definitions.len() as int)
        =~= doc.definitions@.map_values(|d: Definition| d.term@));
    defined
}

/// Per-clause checks over the walk; returns the terms the clauses use.
fn check_clauses(out: &mut Vec<Finding>, all: &Vec<&LirClause>, numbers: &Vec<String>, defined: &Vec<String>) -> (used: Vec<String>)
    ensures
        findings_view(final(out)@) == findings_view(old(out)@)
            + all_clause_findings(lir::derefs(all@), views(numbers@), views(defined@)),
        views(used@) == used_terms(lir::derefs(all@)),
{
    let ghost wall = lir::derefs(all@);
    let ghost o2 = findings_view(out@);
    let mut used: Vec<String> = Vec::new();
    let mut i: usize = 0;
    while i < all.len()
        invariant
            i <= all.len(),
            lir::derefs(all@) == wall,
            findings_view(out@) == o2 + all_clause_findings(wall.take(i as int), views(numbers@), views(defined@)),
            views(used@) == used_terms(wall.take(i as int)),
        decreases all.len() - i,
    {
        assert(wall.take(i + 1).drop_last() == wall.take(i as int));
        assert(wall.take(i + 1).last() == *all@[i as int]);
        let c: &LirClause = all[i];
        check_clause(out, c, numbers, defined);
        let mut j: usize = 0;
        let ghost u0 = views(used@);
        while j < c.defined_terms_used.len()
            invariant
                j <= c.defined_terms_used.len(),
                views(used@) == u0 + views(c.defined_terms_used@).take(j as int),
            decreases c.defined_terms_used.len() - j,
        {
            let ghost u1 = views(used@);
            used.push(c.defined_terms_used[j].clone());
            assert(views(used@) =~= u1.push(c.defined_terms_used@[j as int]@));
            assert(views(c.defined_terms_used@).take(j + 1) =~= views(c.defined_terms_used@).take(j as int).push(c.defined_terms_used@[j as int]@));
            j += 1;
        }
        assert(views(c.defined_terms_used@).take(c.defined_terms_used.len() as int) == views(c.defined_terms_used@));
        i += 1;
    }
    assert(wall.take(all.len() as int) == wall);
    used
}

fn party_names(doc: &LirDocument) -> (r: Vec<Vec<char>>)
    ensures
        vecs_view(r@) == doc.parties@.map_values(|p: Party| chars::unicode_lower(p.name@)),
{
    let mut parties: Vec<Vec<char>> = Vec::new();
    let ghost pv = doc.parties@.map_values(|p: Party| chars::unicode_lower(p.name@));
    let mut i: usize = 0;
    while i < doc.parties.len()
        invariant
            i <= doc.parties.len(),
            pv == doc.parties@.map_values(|p: Party| chars::unicode_lower(p.name@)),
            vecs_view(parties@) == pv.take(i as int),
        decreases doc.parties.len() - i,
    {
        let ghost p0 = vecs_view(parties@);
        let l = lower_chars(chars_of(doc.parties[i].name.as_str()).as_slice());
        let ghost lv = l@;
        parties.push(l);
        assert(vecs_view(parties@) =~= p0.push(lv));
        assert(pv.take(i + 1) =~= pv.take(i as int).push(pv[i as int]));
        i += 1;
    }
    assert(pv.take(doc.parties.len() as int) == pv);
    parties
}

/// Names of companies that are not parties, each flagged once.
fn check_parties(out: &mut Vec<Finding>, doc: &LirDocument, all: &Vec<&LirClause>)
    requires
        lir::derefs(all@) == walk_all(doc.clauses@),
    ensures
        findings_view(final(out)@) == findings_view(old(out)@)
            + party_scan(document_texts(*doc), doc.parties@.map_values(|p: Party| chars::unicode_lower(p.name@))).0,
{
    let parties = party_names(doc);
    let ghost pv = vecs_view(parties@);
    let texts = document_texts_exec(doc, all);
    let ghost tv = texts@.map_values(|p: (String, String)| (p.0@, p.1@));
    let ghost o3 = findings_view(out@);
    let mut flagged: Vec<Vec<char>> = Vec::new();
    assert(vecs_view(flagged@) =~= Seq::<Seq<char>>::empty());
    assert(findings_view(out@).skip(o3.len() as int) =~= Seq::<FindingView>::empty());
    let mut i: usize = 0;
    while i < texts.len()
        invariant
            i <= texts.len(),
            tv == texts@.map_values(|p: (String, String)| (p.0@, p.1@)),
            vecs_view(parties@) == pv,
            (findings_view(out@).skip(o3.len() as int), vecs_view(flagged@)) == party_scan(tv.take(i as int), pv),
            findings_view(out@).take(o3.len() as int) == o3,
            findings_view(out@).len() >= o3.len(),
        decreases texts.len() - i,
    {
        assert(tv.take(i + 1).drop_last() == tv.take(i as int));
        assert(tv.take(i + 1).last() == (texts@[i as int].0@, texts@[i as int].1@));
        let names = entity_names_exec(chars_of(texts[i].1.as_str()).as_slice());
        let ghost nvs = vecs_view(names@);
        let ghost start = party_scan(tv.take(i as int), pv);
        let loc = &texts[i].0;
        let mut j: usize = 0;
        while j < names.len()
            invariant
                j <= names.len(),
                nvs == vecs_view(names@),
                vecs_view(parties@) == pv,
                (findings_view(out@).skip(o3.len() as int), vecs_view(flagged@)) == names_scan(start, nvs.take(j as int), loc@, pv),
                findings_view(out@).take(o3.len() as int) == o3,
                findings_view(out@).len() >= o3.len(),
            decreases names.len() - j,
        {
            assert(nvs.take(j + 1).drop_last() == nvs.take(j as int));
            assert(nvs.take(j + 1).last() == names@[j as int]@);
            let name = names[j].as_slice();
            let lc = lower_chars(name);
            if !is_party_exec(&parties, lc.as_slice()) && !contains_vec(&flagged, lc.as_slice()) {
                let ns = string_of(name);
                let msg = concat3("names \"", ns.as_str(),
                    "\", which is not a party to this agreement \u{2014} check it is not left over from the precedent");
                let ghost before = findings_view(out@);
                push_finding(out, finding(Severity::Warning, "foreign-party-name", loc.clone(), msg));
                assert(findings_view(out@).skip(o3.len() as int) =~= before.skip(o3.len() as int).push(findings_view(out@).last()));
                assert(findings_view(out@).take(o3.len() as int) =~= before.take(o3.len() as int));
                let ghost f0 = vecs_view(flagged@);
                let ghost lv = lc@;
                flagged.push(lc);
                assert(vecs_view(flagged@) =~= f0.push(lv));
            }
            j += 1;
        }
        assert(nvs.take(names.len() as int) == nvs);
        i += 1;
    }
    assert(tv.take(texts.len() as int) == tv);
    assert(findings_view(out@) =~= o3 + findings_view(out@).skip(o3.len() as int));
}

/// Definitions that no clause uses.
fn check_unused(out: &mut Vec<Finding>, doc: &LirDocument, used: &Vec<String>)
    ensures
        findings_view(final(out)@) == findings_view(old(out)@) + unused_findings(doc.definitions@, views(used@)),
{
    let ghost o4 = findings_view(out@);
    let mut i: usize = 0;
    while i < doc.definitions.len()
        invariant
            i <= doc.definitions.len(),
            findings_view(out@) == o4 + unused_findings(doc.definitions@.take(i as int), views(used@)),
        decreases doc.definitions.len() - i,
    {
        assert(doc.definitions@.take(i + 1).drop_last() == doc.definitions@.take(i as int));
        assert(doc.definitions@.take(i + 1).last() == doc.definitions@[i as int]);
        let d = &doc.definitions[i];
        if !contains_exact(used, d.term.as_str()) {
            let loc = concat3("definition \"", d.term.as_str(), "\"");
            push_finding(out, finding(Severity::Warning, "unused-definition", loc, owned("is defined but never used")));
        }
        i += 1;
    }
    assert(doc.definitions@.take(doc.definitions.len() as int) == doc.definitions@);
}

// ---------------------------------------------------------------------------
// Laws
// ---------------------------------------------------------------------------

proof fn lemma_concat_contains<A>(a: Seq<A>, b: Seq<A>, x: A)
    ensures
        a.contains(x) ==> (a + b).contains(x),
        b.contains(x) ==> (a + b).contains(x),
{
    if a.contains(x) {
        let i = choose|i: int| 0 <= i < a.len() && a[i] == x;
        assert((a + b)[i] == x);
    }
    if b.contains(x) {
        let i = choose|i: int| 0 <= i < b.len() && b[i] == x;
        assert((a + b)[a.len() + i] == x);
    }
}

proof fn lemma_all_clause_findings_has(cs: Seq<LirClause>, numbers: Seq<Seq<char>>, defined: Seq<Seq<char>>, k: int, x: FindingView)
    requires
        0 <= k < cs.len(),
        clause_findings(cs[k], numbers, defined).contains(x),
    ensures
        all_clause_findings(cs, numbers, defined).contains(x),
    decreases cs.len(),
{
    let front = all_clause_findings(cs.drop_last(), numbers, defined);
    let here = clause_findings(cs.last(), numbers, defined);
    if k == cs.len() - 1 {
        lemma_concat_contains(front, here, x);
    } else {
        assert(cs.drop_last()[k] == cs[k]);
        lemma_all_clause_findings_has(cs.drop_last(), numbers, defined, k, x);
        lemma_concat_contains(front, here, x);
    }
}

proof fn lemma_xref_findings_has(refs: Seq<Seq<char>>, numbers: Seq<Seq<char>>, loc: Seq<char>, j: int)
    requires
        0 <= j < refs.len(),
        !numbers.contains(refs[j]),
    ensures
        xref_findings(refs, numbers, loc).contains(err("dangling-cross-reference"@, loc, "references clause "@ + refs[j]
            + ", which does not exist in this document; the reference could not be remapped from the precedent's numbering"@)),
    decreases refs.len(),
{
    let x = err("dangling-cross-reference"@, loc, "references clause "@ + refs[j]
        + ", which does not exist in this document; the reference could not be remapped from the precedent's numbering"@);
    let front = xref_findings(refs.drop_last(), numbers, loc);
    if j == refs.len() - 1 {
        let here = seq![x];
        assert(here[0] == x);
        lemma_concat_contains(front, here, x);
        assert(xref_findings(refs, numbers, loc) == front + here);
    } else {
        assert(refs.drop_last()[j] == refs[j]);
        lemma_xref_findings_has(refs.drop_last(), numbers, loc, j);
        let here = if numbers.contains(refs.last()) { Seq::<FindingView>::empty() } else { seq![err("dangling-cross-reference"@, loc, "references clause "@ + refs.last()
            + ", which does not exist in this document; the reference could not be remapped from the precedent's numbering"@)] };
        lemma_concat_contains(front, here, x);
        assert(xref_findings(refs, numbers, loc) == front + here);
    }
}

/// Places a finding of one clause's own checks in the whole report.
proof fn lemma_clause_finding_in_validation(doc: LirDocument, k: int, x: FindingView)
    requires
        0 <= k < walk_all(doc.clauses@).len(),
        clause_findings(
            walk_all(doc.clauses@)[k],
            walk_all(doc.clauses@).map_values(|c: LirClause| c.number@),
            doc.definitions@.map_values(|d: Definition| d.term@),
        ).contains(x),
    ensures
        validation(doc).contains(x),
{
    let all = walk_all(doc.clauses@);
    let numbers = all.map_values(|c: LirClause| c.number@);
    let defined = doc.definitions@.map_values(|d: Definition| d.term@);
    let parties = doc.parties@.map_values(|p: Party| chars::unicode_lower(p.name@));
    lemma_all_clause_findings_has(all, numbers, defined, k, x);
    let front = document_findings(doc) + numbering_list(doc.clauses@, Seq::empty());
    let acf = all_clause_findings(all, numbers, defined);
    let ps = party_scan(document_texts(doc), parties).0;
    let un = unused_findings(doc.definitions@, used_terms(all));
    lemma_concat_contains(front, acf, x);
    lemma_concat_contains(front + acf, ps, x);
    lemma_concat_contains(front + acf + ps, un, x);
    assert(validation(doc) == front + acf + ps + un);
}

/// An unfilled placeholder is an error: for every clause of the document
/// (at any depth) and every `{{name}}` placeholder left in its text,
/// validation reports an `unresolved-variable` error at that clause. Since
/// errors block rendering, a draft with an unfilled placeholder is never
/// rendered without an override.
pub proof fn lemma_unresolved_placeholder_is_error(doc: LirDocument, k: int, j: int)
    requires
        0 <= k < walk_all(doc.clauses@).len(),
        0 <= j < vars_from(clause_text(walk_all(doc.clauses@)[k]), 0).len(),
    ensures
        validation(doc).contains(err(
            "unresolved-variable"@,
            clause_loc(walk_all(doc.clauses@)[k]),
            "unresolved variable placeholder: {{"@ + vars_from(clause_text(walk_all(doc.clauses@)[k]), 0)[j] + "}}"@,
        )),
{
    let all = walk_all(doc.clauses@);
    let numbers = all.map_values(|c: LirClause| c.number@);
    let defined = doc.definitions@.map_values(|d: Definition| d.term@);
    let c = all[k];
    let loc = clause_loc(c);
    let text = clause_text(c);
    let names = vars_from(text, 0);
    let x = err("unresolved-variable"@, loc, "unresolved variable placeholder: {{"@ + names[j] + "}}"@);
    let e = if chars::trim(text).len() == 0 && c.children@.len() == 0 {
        seq![err("empty-clause"@, loc, "clause body is empty"@)]
    } else {
        Seq::empty()
    };
    let v = var_findings(names, loc);
    let xr = xref_findings(views(c.cross_refs@), numbers, loc);
    let t = term_findings(views(c.defined_terms_used@), defined, loc);
    assert(v[j] == x);
    assert(v.contains(x));
    lemma_concat_contains(e, v, x);
    lemma_concat_contains(e + v, xr, x);
    lemma_concat_contains(e + v + xr, t, x);
    assert(clause_findings(c, numbers, defined) == e + v + xr + t);
    lemma_clause_finding_in_validation(doc, k, x);
}

/// A cross-reference must resolve: when a clause (at any depth) refers to a
/// clause number that no clause of the document carries, validation reports a
/// `dangling-cross-reference` error at the referring clause.
pub proof fn lemma_dangling_reference_is_error(doc: LirDocument, k: int, j: int)
    requires
        0 <= k < walk_all(doc.clauses@).len(),
        0 <= j < walk_all(doc.clauses@)[k].cross_refs@.len(),
        forall|i: int| 0 <= i < walk_all(doc.clauses@).len()
            ==> #[trigger] walk_all(doc.clauses@)[i].number@ != walk_all(doc.clauses@)[k].cross_refs@[j]@,
    ensures
        validation(doc).contains(err(
            "dangling-cross-reference"@,
            clause_loc(walk_all(doc.clauses@)[k]),
            "references clause "@ + walk_all(doc.clauses@)[k].cross_refs@[j]@
                + ", which does not exist in this document; the reference could not be remapped from the precedent's numbering"@,
        )),
{
    let all = walk_all(doc.clauses@);
    let numbers = all.map_values(|c: LirClause| c.number@);
    let defined = doc.definitions@.map_values(|d: Definition| d.term@);
    let c = all[k];
    let loc = clause_loc(c);
    let refs = views(c.cross_refs@);
    assert(refs[j] == c.cross_refs@[j]@);
    assert(!numbers.contains(refs[j])) by {
        if numbers.contains(refs[j]) {
            let i = choose|i: int| 0 <= i < numbers.len() && numbers[i] == refs[j];
            assert(all[i].number@ == numbers[i]);
        }
    }
    lemma_xref_findings_has(refs, numbers, loc, j);
    let x = err("dangling-cross-reference"@, loc, "references clause "@ + refs[j]
        + ", which does not exist in this document; the reference could not be remapped from the precedent's numbering"@);
    let text = clause_text(c);
    let e = if chars::trim(text).len() == 0 && c.children@.len() == 0 {
        seq![err("empty-clause"@, loc, "clause body is empty"@)]
    } else {
        Seq::empty()
    };
    let v = var_findings(vars_from(text, 0), loc);
    let xr = xref_findings(refs, numbers, loc);
    let t = term_findings(views(c.defined_terms_used@), defined, loc);
    lemma_concat_contains(e + v, xr, x);
    lemma_concat_contains(e + v + xr, t, x);
    assert(clause_findings(c, numbers, defined) == e + v + xr + t);
    lemma_clause_finding_in_validation(doc, k, x);
}

proof fn lemma_numbering_list_has(cs: Seq<LirClause>, prefix: Seq<char>, i: int)
    requires
        0 <= i < cs.len(),
        cs[i].number@ != expected_number(prefix, i),
    ensures
        numbering_list(cs, prefix).contains(err("numbering"@, clause_loc(cs[i]),
            "expected clause number "@ + expected_number(prefix, i) + ", found "@ + cs[i].number@)),
    decreases cs.len(),
{
    let x = err("numbering"@, clause_loc(cs[i]), "expected clause number "@ + expected_number(prefix, i) + ", found "@ + cs[i].number@);
    let front = numbering_list(cs.drop_last(), prefix);
    let here = numbering_one(cs.last(), expected_number(prefix, cs.len() - 1));
    if i == cs.len() - 1 {
        let head = seq![x];
        assert(head[0] == x);
        lemma_concat_contains(head, numbering_list(cs.last().children@, expected_number(prefix, i)), x);
        lemma_concat_contains(front, here, x);
    } else {
        assert(cs.drop_last()[i] == cs[i]);
        lemma_numbering_list_has(cs.drop_last(), prefix, i);
        lemma_concat_contains(front, here, x);
    }
}

/// Numbering is dense and ordered: when the clause at position `i` of the
/// document's top level is not numbered `i + 1`, validation reports a
/// `numbering` error at it.
pub proof fn lemma_misnumbered_clause_is_error(doc: LirDocument, i: int)
    requires
        0 <= i < doc.clauses@.len(),
        doc.clauses@[i].number@ != num::decimal((i + 1) as nat),
    ensures
        validation(doc).contains(err("numbering"@, clause_loc(doc.clauses@[i]),
            "expected clause number "@ + num::decimal((i + 1) as nat) + ", found "@ + doc.clauses@[i].number@)),
{
    let all = walk_all(doc.clauses@);
    let numbers = all.map_values(|c: LirClause| c.number@);
    let defined = doc.definitions@.map_values(|d: Definition| d.term@);
    let parties = doc.parties@.map_values(|p: Party| chars::unicode_lower(p.name@));
    assert(expected_number(Seq::empty(), i) == num::decimal((i + 1) as nat));
    lemma_numbering_list_has(doc.clauses@, Seq::empty(), i);
    let x = err("numbering"@, clause_loc(doc.clauses@[i]),
        "expected clause number "@ + num::decimal((i + 1) as nat) + ", found "@ + doc.clauses@[i].number@);
    let d = document_findings(doc);
    let nl = numbering_list(doc.clauses@, Seq::empty());
    let acf = all_clause_findings(all, numbers, defined);
    let ps = party_scan(document_texts(doc), parties).0;
    let un = unused_findings(doc.definitions@, used_terms(all));
    lemma_concat_contains(d, nl, x);
    lemma_concat_contains(d + nl, acf, x);
    lemma_concat_contains(d + nl + acf, ps, x);
    lemma_concat_contains(d + nl + acf + ps, un, x);
    assert(validation(doc) == d + nl + acf + ps + un);
}

/// An unfilled placeholder blocks rendering: when a clause of the document
/// (at any depth) still holds a `{{name}}` placeholder, the report that
/// validation gives for it lets the document be rendered only when forced.
pub proof fn lemma_unfilled_placeholder_blocks_rendering(doc: LirDocument, k: int, j: int, report: ValidationReport)
    requires
        0 <= k < walk_all(doc.clauses@).len(),
        0 <= j < vars_from(clause_text(walk_all(doc.clauses@)[k]), 0).len(),
        findings_view(report.findings@) == validation(doc),
    ensures
        !renders(report, false),
{
    lemma_unresolved_placeholder_is_error(doc, k, j);
    let x = err(
        "unresolved-variable"@,
        clause_loc(walk_all(doc.clauses@)[k]),
        "unresolved variable placeholder: {{"@ + vars_from(clause_text(walk_all(doc.clauses@)[k]), 0)[j] + "}}"@,
    );
    let fs = validation(doc);
    let i = choose|i: int| 0 <= i < fs.len() && fs[i] == x;
    assert(fs[i].severity == Severity::Error);
}

/// An empty clause is an error: every clause of the document, at any depth,
/// that has no sub-clauses and whose text is blank after trimming, is
/// reported as an `empty-clause` error at that clause; so the report blocks
/// rendering unless forced.
pub proof fn lemma_empty_clause_is_error(doc: LirDocument, k: int, report: ValidationReport)
    requires
        0 <= k < walk_all(doc.clauses@).len(),
        walk_all(doc.clauses@)[k].children@.len() == 0,
        chars::trim(strs::join(blocks_texts(walk_all(doc.clauses@)[k].body@), "\n"@)).len() == 0,
        findings_view(report.findings@) == validation(doc),
    ensures
        validation(doc).contains(FindingView {
            severity: Severity::Error,
            code: "empty-clause"@,
            location: clause_loc(walk_all(doc.clauses@)[k]),
            message: "clause body is empty"@,
        }),
        has_error(findings_view(report.findings@)),
        !renders(report, false),
{
    let all = walk_all(doc.clauses@);
    let numbers = all.map_values(|c: LirClause| c.number@);
    let defined = doc.definitions@.map_values(|d: Definition| d.term@);
    let c = all[k];
    let loc = clause_loc(c);
    let text = clause_text(c);
    let x = FindingView { severity: Severity::Error, code: "empty-clause"@, location: loc, message: "clause body is empty"@ };
    let first = clause_findings(c, numbers, defined);
    assert(first[0] == x);
    assert(first.contains(x));
    lemma_clause_finding_in_validation(doc, k, x);
    let fs = validation(doc);
    let i = choose|i: int| 0 <= i < fs.len() && fs[i] == x;
    assert(fs[i].severity == Severity::Error);
}

proof fn lemma_term_findings_has(terms: Seq<Seq<char>>, defined: Seq<Seq<char>>, loc: Seq<char>, j: int)
    requires
        0 <= j < terms.len(),
        !defined.contains(terms[j]),
    ensures
        term_findings(terms, defined, loc).contains(warn("undefined-term"@, loc,
            "uses \""@ + terms[j] + "\", which is not in the Definitions clause"@)),
    decreases terms.len(),
{
    let x = warn("undefined-term"@, loc, "uses \""@ + terms[j] + "\", which is not in the Definitions clause"@);
    let front = term_findings(terms.drop_last(), defined, loc);
    let here = if defined.contains(terms.last()) { Seq::<FindingView>::empty() } else {
        seq![warn("undefined-term"@, loc, "uses \""@ + terms.last() + "\", which is not in the Definitions clause"@)] };
    assert(term_findings(terms, defined, loc) == front + here);
    if j == terms.len() - 1 {
        assert(here[0] == x);
        lemma_concat_contains(front, here, x);
    } else {
        assert(terms.drop_last()[j] == terms[j]);
        lemma_term_findings_has(terms.drop_last(), defined, loc, j);
        lemma_concat_contains(front, here, x);
    }
}

/// A clause that says it uses a term no definition of the document defines
/// gets an `undefined-term` warning at that clause (at any depth).
pub proof fn lemma_undefined_term_is_warned(doc: LirDocument, k: int, j: int)
    requires
        0 <= k < walk_all(doc.clauses@).len(),
        0 <= j < walk_all(doc.clauses@)[k].defined_terms_used@.len(),
        forall|i: int| 0 <= i < doc.definitions@.len()
            ==> #[trigger] doc.definitions@[i].term@ != walk_all(doc.clauses@)[k].defined_terms_used@[j]@,
    ensures
        validation(doc).contains(FindingView {
            severity: Severity::Warning,
            code: "undefined-term"@,
            location: clause_loc(walk_all(doc.clauses@)[k]),
            message: "uses \""@ + walk_all(doc.clauses@)[k].defined_terms_used@[j]@ + "\", which is not in the Definitions clause"@,
        }),
{
    let all = walk_all(doc.clauses@);
    let numbers = all.map_values(|c: LirClause| c.number@);
    let defined = doc.definitions@.map_values(|d: Definition| d.term@);
    let c = all[k];
    let loc = clause_loc(c);
    let terms = views(c.defined_terms_used@);
    assert(terms[j] == c.defined_terms_used@[j]@);
    assert(!defined.contains(terms[j])) by {
        if defined.contains(terms[j]) {
            let i = choose|i: int| 0 <= i < defined.len() && defined[i] == terms[j];
            assert(doc.definitions@[i].term@ == defined[i]);
        }
    }
    lemma_term_findings_has(terms, defined, loc, j);
    let x = warn("undefined-term"@, loc, "uses \""@ + terms[j] + "\", which is not in the Definitions clause"@);
    let text = clause_text(c);
    let front = clause_findings(c, numbers, defined);
    let t = term_findings(terms, defined, loc);
    let e = if chars::trim(text).len() == 0 && c.children@.len() == 0 {
        seq![err("empty-clause"@, loc, "clause body is empty"@)]
    } else {
        Seq::empty()
    };
    let pre = e + var_findings(vars_from(text, 0), loc) + xref_findings(views(c.cross_refs@), numbers, loc);
    assert(front == pre + t);
    lemma_concat_contains(pre, t, x);
    lemma_clause_finding_in_validation(doc, k, x);
}

proof fn lemma_unused_findings_has(defs: Seq<Definition>, used: Seq<Seq<char>>, i: int)
    requires
        0 <= i < defs.len(),
        !used.contains(defs[i].term@),
    ensures
        unused_findings(defs, used).contains(warn("unused-definition"@, "definition \""@ + defs[i].term@ + "\""@,
            "is defined but never used"@)),
    decreases defs.len(),
{
    let x = warn("unused-definition"@, "definition \""@ + defs[i].term@ + "\""@, "is defined but never used"@);
    let front = unused_findings(defs.drop_last(), used);
    let here = if used.contains(defs.last().term@) { Seq::<FindingView>::empty() } else {
        seq![warn("unused-definition"@, "definition \""@ + defs.last().term@ + "\""@, "is defined but never used"@)] };
    assert(unused_findings(defs, used) == front + here);
    if i == defs.len() - 1 {
        assert(here[0] == x);
        lemma_concat_contains(front, here, x);
    } else {
        assert(defs.drop_last()[i] == defs[i]);
        lemma_unused_findings_has(defs.drop_last(), used, i);
        lemma_concat_contains(front, here, x);
    }
}

/// A definition whose term no clause says it uses gets an
/// `unused-definition` warning.
pub proof fn lemma_unused_definition_is_warned(doc: LirDocument, i: int)
    requires
        0 <= i < doc.definitions@.len(),
        !used_terms(walk_all(doc.clauses@)).contains(doc.definitions@[i].term@),
    ensures
        validation(doc).contains(FindingView {
            severity: Severity::Warning,
            code: "unused-definition"@,
            location: "definition \""@ + doc.definitions@[i].term@ + "\""@,
            message: "is defined but never used"@,
        }),
{
    let all = walk_all(doc.clauses@);
    let numbers = all.map_values(|c: LirClause| c.number@);
    let defined = doc.definitions@.map_values(|d: Definition| d.term@);
    let parties = doc.parties@.map_values(|p: Party| chars::unicode_lower(p.name@));
    let x = warn("unused-definition"@, "definition \""@ + doc.definitions@[i].term@ + "\""@, "is defined but never used"@);
    lemma_unused_findings_has(doc.definitions@, used_terms(all), i);
    let front = document_findings(doc) + numbering_list(doc.clauses@, Seq::empty())
        + all_clause_findings(all, numbers, defined) + party_scan(document_texts(doc), parties).0;
    let un = unused_findings(doc.definitions@, used_terms(all));
    assert(validation(doc) == front + un);
    lemma_concat_contains(front, un, x);
}

/// Whether a list of findings holds an error with the given code.
pub open spec fn has_error_code(fs: Seq<FindingView>, code: Seq<char>) -> bool {
    exists|i: int| 0 <= i < fs.len() && fs[i].severity == Severity::Error && #[trigger] fs[i].code == code
}

/// The codes of the document-level checks.
pub open spec fn document_code(code: Seq<char>) -> bool {
    code == "no-parties"@ || code == "no-clauses"@ || code == "no-execution"@
}

proof fn lemma_concat_codes(a: Seq<FindingView>, b: Seq<FindingView>)
    requires
        forall|i: int| 0 <= i < a.len() ==> !document_code(#[trigger] a[i].code),
        forall|i: int| 0 <= i < b.len() ==> !document_code(#[trigger] b[i].code),
    ensures
        forall|i: int| 0 <= i < (a + b).len() ==> !document_code(#[trigger] (a + b)[i].code),
{
    assert forall|i: int| 0 <= i < (a + b).len() implies !document_code(#[trigger] (a + b)[i].code) by {
        if i < a.len() {
            assert((a + b)[i] == a[i]);
        } else {
            assert((a + b)[i] == b[i - a.len()]);
        }
    }
}

proof fn lemma_code_literals()
    ensures
        !document_code("numbering"@),
        !document_code("empty-clause"@),
        !document_code("unresolved-variable"@),
        !document_code("dangling-cross-reference"@),
        !document_code("undefined-term"@),
        !document_code("foreign-party-name"@),
        !document_code("unused-definition"@),
        "no-parties"@ != "no-clauses"@,
        "no-parties"@ != "no-execution"@,
        "no-clauses"@ != "no-execution"@,
{
    reveal_strlit("numbering");
    reveal_strlit("empty-clause");
    reveal_strlit("unresolved-variable");
    reveal_strlit("dangling-cross-reference");
    reveal_strlit("undefined-term");
    reveal_strlit("foreign-party-name");
    reveal_strlit("unused-definition");
    reveal_strlit("no-parties");
    reveal_strlit("no-clauses");
    reveal_strlit("no-execution");
    assert("numbering"@.len() == 9);
    assert("empty-clause"@.len() == 12);
    assert("unresolved-variable"@.len() == 19);
    assert("dangling-cross-reference"@.len() == 24);
    assert("undefined-term"@.len() == 14);
    assert("foreign-party-name"@.len() == 18);
    assert("unused-definition"@.len() == 17);
    assert("no-parties"@.len() == 10);
    assert("no-clauses"@.len() == 10);
    assert("no-execution"@.len() == 12);
    assert("no-parties"@[3] != "no-clauses"@[3]);
    assert("empty-clause"@[0] != "no-execution"@[0]);
}

proof fn lemma_numbering_list_codes(cs: Seq<LirClause>, prefix: Seq<char>)
    ensures
        forall|i: int| 0 <= i < numbering_list(cs, prefix).len() ==> !document_code(#[trigger] numbering_list(cs, prefix)[i].code),
    decreases cs,
{
    if cs.len() > 0 {
        lemma_numbering_list_codes(cs.drop_last(), prefix);
        lemma_numbering_one_codes(cs.last(), expected_number(prefix, cs.len() - 1));
        lemma_concat_codes(numbering_list(cs.drop_last(), prefix), numbering_one(cs.last(), expected_number(prefix, cs.len() - 1)));
    }
}

proof fn lemma_numbering_one_codes(c: LirClause, expected: Seq<char>)
    ensures
        forall|i: int| 0 <= i < numbering_one(c, expected).len() ==> !document_code(#[trigger] numbering_one(c, expected)[i].code),
    decreases c,
{
    lemma_code_literals();
    lemma_numbering_list_codes(c.children@, expected);
    let head = if c.number@ != expected {
        seq![err("numbering"@, clause_loc(c), "expected clause number "@ + expected + ", found "@ + c.number@)]
    } else {
        Seq::empty()
    };
    assert forall|i: int| 0 <= i < head.len() implies !document_code(#[trigger] head[i].code) by {}
    lemma_concat_codes(head, numbering_list(c.children@, expected));
}

proof fn lemma_xref_codes(refs: Seq<Seq<char>>, numbers: Seq<Seq<char>>, loc: Seq<char>)
    ensures
        forall|i: int| 0 <= i < xref_findings(refs, numbers, loc).len() ==> !document_code(#[trigger] xref_findings(refs, numbers, loc)[i].code),
    decreases refs.len(),
{
    lemma_code_literals();
    if refs.len() > 0 {
        lemma_xref_codes(refs.drop_last(), numbers, loc);
        let t = if numbers.contains(refs.last()) { Seq::<FindingView>::empty() } else { seq![err("dangling-cross-reference"@, loc, "references clause "@ + refs.last()
            + ", which does not exist in this document; the reference could not be remapped from the precedent's numbering"@)] };
        assert forall|i: int| 0 <= i < t.len() implies !document_code(#[trigger] t[i].code) by {}
        lemma_concat_codes(xref_findings(refs.drop_last(), numbers, loc), t);
    }
}

proof fn lemma_term_codes(terms: Seq<Seq<char>>, defined: Seq<Seq<char>>, loc: Seq<char>)
    ensures
        forall|i: int| 0 <= i < term_findings(terms, defined, loc).len() ==> !document_code(#[trigger] term_findings(terms, defined, loc)[i].code),
    decreases terms.len(),
{
    lemma_code_literals();
    if terms.len() > 0 {
        lemma_term_codes(terms.drop_last(), defined, loc);
        let t = if defined.contains(terms.last()) { Seq::<FindingView>::empty() } else {
            seq![warn("undefined-term"@, loc, "uses \""@ + terms.last() + "\", which is not in the Definitions clause"@)] };
        assert forall|i: int| 0 <= i < t.len() implies !document_code(#[trigger] t[i].code) by {}
        lemma_concat_codes(term_findings(terms.drop_last(), defined, loc), t);
    }
}

proof fn lemma_all_clause_codes(cs: Seq<LirClause>, numbers: Seq<Seq<char>>, defined: Seq<Seq<char>>)
    ensures
        forall|i: int| 0 <= i < all_clause_findings(cs, numbers, defined).len()
            ==> !document_code(#[trigger] all_clause_findings(cs, numbers, defined)[i].code),
    decreases cs.len(),
{
    lemma_code_literals();
    if cs.len() > 0 {
        lemma_all_clause_codes(cs.drop_last(), numbers, defined);
        let c = cs.last();
        let loc = clause_loc(c);
        let text = clause_text(c);
        let e = if chars::trim(text).len() == 0 && c.children@.len() == 0 {
            seq![err("empty-clause"@, loc, "clause body is empty"@)]
        } else {
            Seq::empty()
        };
        let v = var_findings(vars_from(text, 0), loc);
        assert forall|i: int| 0 <= i < e.len() implies !document_code(#[trigger] e[i].code) by {}
        assert forall|i: int| 0 <= i < v.len() implies !document_code(#[trigger] v[i].code) by {}
        lemma_xref_codes(views(c.cross_refs@), numbers, loc);
        lemma_term_codes(views(c.defined_terms_used@), defined, loc);
        lemma_concat_codes(e, v);
        lemma_concat_codes(e + v, xref_findings(views(c.cross_refs@), numbers, loc));
        lemma_concat_codes(e + v + xref_findings(views(c.cross_refs@), numbers, loc), term_findings(views(c.defined_terms_used@), defined, loc));
        assert(clause_findings(c, numbers, defined) == e + v + xref_findings(views(c.cross_refs@), numbers, loc)
            + term_findings(views(c.defined_terms_used@), defined, loc));
        lemma_concat_codes(all_clause_findings(cs.drop_last(), numbers, defined), clause_findings(c, numbers, defined));
    }
}

proof fn lemma_names_scan_codes(st: (Seq<FindingView>, Seq<Seq<char>>), names: Seq<Seq<char>>, loc: Seq<char>, parties: Seq<Seq<char>>)
    requires
        forall|i: int| 0 <= i < st.0.len() ==> !document_code(#[trigger] st.0[i].code),
    ensures
        forall|i: int| 0 <= i < names_scan(st, names, loc, parties).0.len()
            ==> !document_code(#[trigger] names_scan(st, names, loc, parties).0[i].code),
    decreases names.len(),
{
    lemma_code_literals();
    if names.len() > 0 {
        lemma_names_scan_codes(st, names.drop_last(), loc, parties);
        let prev = names_scan(st, names.drop_last(), loc, parties);
        let name = names.last();
        let w = warn("foreign-party-name"@, loc, "names \""@ + name
            + "\", which is not a party to this agreement \u{2014} check it is not left over from the precedent"@);
        assert forall|i: int| 0 <= i < prev.0.push(w).len() implies !document_code(#[trigger] prev.0.push(w)[i].code) by {
            if i < prev.0.len() {
                assert(prev.0.push(w)[i] == prev.0[i]);
            }
        }
    }
}

proof fn lemma_party_scan_codes(texts: Seq<(Seq<char>, Seq<char>)>, parties: Seq<Seq<char>>)
    ensures
        forall|i: int| 0 <= i < party_scan(texts, parties).0.len() ==> !document_code(#[trigger] party_scan(texts, parties).0[i].code),
    decreases texts.len(),
{
    if texts.len() > 0 {
        lemma_party_scan_codes(texts.drop_last(), parties);
        lemma_names_scan_codes(party_scan(texts.drop_last(), parties), entity_names(texts.last().1), texts.last().0, parties);
    }
}

proof fn lemma_unused_codes(defs: Seq<Definition>, used: Seq<Seq<char>>)
    ensures
        forall|i: int| 0 <= i < unused_findings(defs, used).len() ==> !document_code(#[trigger] unused_findings(defs, used)[i].code),
    decreases defs.len(),
{
    lemma_code_literals();
    if defs.len() > 0 {
        lemma_unused_codes(defs.drop_last(), used);
        let t = if used.contains(defs.last().term@) { Seq::<FindingView>::empty() } else {
            seq![warn("unused-definition"@, "definition \""@ + defs.last().term@ + "\""@, "is defined but never used"@)] };
        assert forall|i: int| 0 <= i < t.len() implies !document_code(#[trigger] t[i].code) by {}
        lemma_concat_codes(unused_findings(defs.drop_last(), used), t);
    }
}

/// Everything validation reports after the document-level checks.
pub open spec fn later_findings(doc: LirDocument) -> Seq<FindingView> {
    let all = walk_all(doc.clauses@);
    let numbers = all.map_values(|c: LirClause| c.number@);
    let defined = doc.definitions@.map_values(|d: Definition| d.term@);
    let parties = doc.parties@.map_values(|p: Party| chars::unicode_lower(p.name@));
    numbering_list(doc.clauses@, Seq::empty())
        + all_clause_findings(all, numbers, defined)
        + party_scan(document_texts(doc), parties).0
        + unused_findings(doc.definitions@, used_terms(all))
}

proof fn lemma_later_codes(doc: LirDocument)
    ensures
        validation(doc) == document_findings(doc) + later_findings(doc),
        forall|i: int| 0 <= i < later_findings(doc).len() ==> !document_code(#[trigger] later_findings(doc)[i].code),
{
    let all = walk_all(doc.clauses@);
    let numbers = all.map_values(|c: LirClause| c.number@);
    let defined = doc.definitions@.map_values(|d: Definition| d.term@);
    let parties = doc.parties@.map_values(|p: Party| chars::unicode_lower(p.name@));
    let nl = numbering_list(doc.clauses@, Seq::empty());
    let acf = all_clause_findings(all, numbers, defined);
    let ps = party_scan(document_texts(doc), parties).0;
    let un = unused_findings(doc.definitions@, used_terms(all));
    lemma_numbering_list_codes(doc.clauses@, Seq::empty());
    lemma_all_clause_codes(all, numbers, defined);
    lemma_party_scan_codes(document_texts(doc), parties);
    lemma_unused_codes(doc.definitions@, used_terms(all));
    lemma_concat_codes(nl, acf);
    lemma_concat_codes(nl + acf, ps);
    lemma_concat_codes(nl + acf + ps, un);
    assert(validation(doc) =~= document_findings(doc) + later_findings(doc));
}

proof fn lemma_document_section(doc: LirDocument)
    ensures
        has_error_code(document_findings(doc), "no-parties"@) <==> doc.parties@.len() == 0,
        has_error_code(document_findings(doc), "no-clauses"@) <==> doc.clauses@.len() == 0,
        has_error_code(document_findings(doc), "no-execution"@) <==> doc.execution.blocks@.len() == 0,
{
    lemma_code_literals();
    let p1 = if doc.parties@.len() == 0 { seq![err("no-parties"@, "document"@, "the document has no parties"@)] } else { Seq::empty() };
    let p2 = if doc.clauses@.len() == 0 { seq![err("no-clauses"@, "document"@, "the document has no clauses"@)] } else { Seq::empty() };
    let p3 = if doc.execution.blocks@.len() == 0 { seq![err("no-execution"@, "document"@, "the document has no execution/signature block"@)] } else { Seq::empty() };
    let q = document_findings(doc);
    assert(q == p1 + p2 + p3);
    assert forall|i: int| 0 <= i < q.len() implies
        (#[trigger] q[i].code == "no-parties"@ ==> doc.parties@.len() == 0)
        && (q[i].code == "no-clauses"@ ==> doc.clauses@.len() == 0)
        && (q[i].code == "no-execution"@ ==> doc.execution.blocks@.len() == 0) by {
        if i < p1.len() {
            assert(q[i] == p1[i]);
        } else if i < p1.len() + p2.len() {
            assert(q[i] == p2[i - p1.len()]);
        } else {
            assert(q[i] == p3[i - p1.len() - p2.len()]);
        }
    }
    if doc.parties@.len() == 0 {
        assert(q[0] == p1[0]);
        assert(q[0].code == "no-parties"@);
    }
    if doc.clauses@.len() == 0 {
        assert(q[p1.len() as int] == p2[0]);
        assert(q[p1.len() as int].code == "no-clauses"@);
    }
    if doc.execution.blocks@.len() == 0 {
        assert(q[(p1.len() + p2.len()) as int] == p3[0]);
        assert(q[(p1.len() + p2.len()) as int].code == "no-execution"@);
    }
}

proof fn lemma_error_code_split(a: Seq<FindingView>, b: Seq<FindingView>, code: Seq<char>)
    requires
        document_code(code),
        forall|i: int| 0 <= i < b.len() ==> !document_code(#[trigger] b[i].code),
    ensures
        has_error_code(a + b, code) <==> has_error_code(a, code),
{
    if has_error_code(a + b, code) {
        let i = choose|i: int| 0 <= i < (a + b).len() && (a + b)[i].severity == Severity::Error && #[trigger] (a + b)[i].code == code;
        if i >= a.len() {
            assert((a + b)[i] == b[i - a.len()]);
        } else {
            assert((a + b)[i] == a[i]);
        }
    }
    if has_error_code(a, code) {
        let i = choose|i: int| 0 <= i < a.len() && a[i].severity == Severity::Error && #[trigger] a[i].code == code;
        assert((a + b)[i] == a[i]);
    }
}

/// The document-level errors come exactly from the document-level checks:
/// validation reports a `no-parties` error if and only if the document has
/// no parties, `no-clauses` if and only if it has no clauses, and
/// `no-execution` if and only if it has no signature blocks.
pub proof fn lemma_document_errors_exact(doc: LirDocument)
    ensures
        has_error_code(validation(doc), "no-parties"@) <==> doc.parties@.len() == 0,
        has_error_code(validation(doc), "no-clauses"@) <==> doc.clauses@.len() == 0,
        has_error_code(validation(doc), "no-execution"@) <==> doc.execution.blocks@.len() == 0,
{
    lemma_later_codes(doc);
    lemma_document_section(doc);
    lemma_error_code_split(document_findings(doc), later_findings(doc), "no-parties"@);
    lemma_error_code_split(document_findings(doc), later_findings(doc), "no-clauses"@);
    lemma_error_code_split(document_findings(doc), later_findings(doc), "no-execution"@);
}

} // verus!
