//! Deterministic assembly: a matter spec and the precedents in scope become
//! one LIR document.
//!
//! No model is involved. One precedent is the skeleton and supplies the
//! draft's structure: its clauses in their own order, renumbered, with their
//! sub-clauses, cross-references, definitions and schedules carried along.
//! The contract type's checklist only advises: a required clause type the
//! skeleton lacks is filled from another precedent and reported. Every
//! clause records provenance back to the precedent it came from.
//! Placeholders without a value are left in place for validation to flag,
//! never dropped.

use vstd::prelude::*;
use crate::chars::{self, chars_of, string_of, copy_opt, copy_string, push_str, is_alphabetic, is_uppercase,
    char_to_uppercase, to_lowercase, trim_chars, slice_of, byte_len_le};
use crate::strs::{self, views, opt_view, owned, has_ci, pos_ci, any_ci};
use crate::checklist::{self, required_of};
use crate::matter::{MatterSpec, PartyInput};
use crate::lir::{LirDocument, LirMeta, Party, Recital, Definition, LirClause, Execution, SignatureBlock,
    Provenance, Block, Run, RunStyle, block_text, Schedule};
use crate::patterns::{self, substitution, pairs_view, substitute, cross_refs, refs_from, strictly_sorted, renumbered, renumber_refs,
    number_prefix_exec, strip_number};
use crate::split::{self, lines, split_lines};
use crate::words::{self, words_of, split_words, vecs_view};
use crate::num::{self, decimal, decimal_string};
use crate::ids::{new_id, now_utc};
use crate::error::CoreError;
use crate::model::{ClauseKind, ExtractedClause, str_eq};

verus! {

// ---------------------------------------------------------------------------
// Headings
// ---------------------------------------------------------------------------

/// Every alphabetic character is upper case.
pub open spec fn all_caps_alpha(s: Seq<char>) -> bool {
    forall|i: int| 0 <= i < s.len() && chars::alphabetic(#[trigger] s[i]) ==> chars::uppercase(s[i])
}

/// A word with its first character upper-cased and the rest lower-cased.
pub open spec fn cap_word(w: Seq<char>) -> Seq<char> {
    if w.len() == 0 {
        Seq::empty()
    } else {
        chars::unicode_upper_char(w[0]) + chars::unicode_lower(w.drop_first())
    }
}

/// The index of the first `-` in `w` at or after `i`, if any.
pub open spec fn dash_from(w: Seq<char>, i: int) -> Option<int>
    decreases w.len() - i,
{
    if i < 0 || i >= w.len() {
        None
    } else if w[i] == '-' {
        Some(i)
    } else {
        dash_from(w, i + 1)
    }
}

/// A word capitalised part by part across its hyphens: "OFF-HIRE" reads
/// "Off-Hire".
pub open spec fn cap_hyphenated(w: Seq<char>) -> Seq<char>
    decreases w.len(),
{
    match dash_from(w, 0) {
        Some(k) => {
            if 0 <= k < w.len() {
                cap_word(w.take(k)) + "-"@ + cap_hyphenated(w.skip(k + 1))
            } else {
                cap_word(w)
            }
        },
        None => cap_word(w),
    }
}

/// The short words a title keeps in lower case unless they open it.
pub open spec fn minor_words() -> Seq<Seq<char>> {
    seq!["a"@, "an"@, "and"@, "as"@, "at"@, "but"@, "by"@, "for"@, "in"@, "nor"@, "of"@, "on"@, "or"@,
        "the"@, "to"@, "with"@]
}

/// The words a title keeps in lower case unless they open it.
pub proof fn lemma_minor_words_as_listed()
    ensures
        ({
            let m = minor_words();
            &&& m.len() == 16
            &&& m[0] == "a"@ && m[1] == "an"@ && m[2] == "and"@ && m[3] == "as"@ && m[4] == "at"@ && m[5] == "but"@
            &&& m[6] == "by"@ && m[7] == "for"@ && m[8] == "in"@ && m[9] == "nor"@ && m[10] == "of"@ && m[11] == "on"@
            &&& m[12] == "or"@ && m[13] == "the"@ && m[14] == "to"@ && m[15] == "with"@
        }),
{
}

/// One word of a title: a minor word after the first is lower case, any
/// other word is capitalised part by part.
pub open spec fn title_word(i: int, w: Seq<char>) -> Seq<char> {
    if i > 0 && minor_words().contains(chars::lower(w)) {
        chars::unicode_lower(w)
    } else {
        cap_hyphenated(w)
    }
}

/// Precedent headings are often ALL CAPS; those become Title Case, word by
/// word, single-spaced ("DESCRIPTION OF VESSEL" reads "Description of
/// Vessel"). Any other heading is kept as written.
pub open spec fn title_case_of(s: Seq<char>) -> Seq<char> {
    if all_caps_alpha(s) {
        strs::join(words_of(s).map(|i: int, w: Seq<char>| title_word(i, w)), " "@)
    } else {
        s
    }
}

/// A clause's heading: the precedent's own (title-cased) when it has a
/// non-blank one, else the clause type.
pub open spec fn heading_text(clause_type: Seq<char>, heading: Option<String>) -> Seq<char> {
    match heading {
        Some(h) => if chars::trim(h@).len() > 0 { title_case_of(h@) } else { clause_type },
        None => clause_type,
    }
}

fn all_caps_exec(s: &[char]) -> (r: bool)
    ensures
        r == all_caps_alpha(s@),
{
    let mut i: usize = 0;
    while i < s.len()
        invariant
            i <= s.len(),
            forall|k: int| 0 <= k < i && chars::alphabetic(#[trigger] s@[k]) ==> chars::uppercase(s@[k]),
        decreases s.len() - i,
    {
        if is_alphabetic(s[i]) && !is_uppercase(s[i]) {
            return false;
        }
        i += 1;
    }
    true
}

fn cap_word_exec(w: &[char]) -> (r: String)
    ensures
        r@ == cap_word(w@),
{
    if w.len() == 0 {
        return String::new();
    }
    let mut out = char_to_uppercase(w[0]);
    let rest = string_of(slice_of(w, 1, w.len()).as_slice());
    let low = to_lowercase(rest.as_str());
    assert(w@.subrange(1, w@.len() as int) == w@.drop_first());
    push_str(&mut out, low.as_str());
    out
}

fn cap_hyphenated_exec(w: &[char]) -> (r: String)
    ensures
        r@ == cap_hyphenated(w@),
    decreases w.len(),
{
    let mut k: usize = 0;
    while k < w.len()
        invariant
            k <= w.len(),
            dash_from(w@, 0) == dash_from(w@, k as int),
        decreases w.len() - k,
    {
        if w[k] == '-' {
            let head = cap_word_exec(slice_of(w, 0, k).as_slice());
            let tail = cap_hyphenated_exec(slice_of(w, k + 1, w.len()).as_slice());
            let mut out = head;
            push_str(&mut out, "-");
            push_str(&mut out, tail.as_str());
            proof {
                assert(w@.subrange(0, k as int) == w@.take(k as int));
                assert(w@.subrange(k + 1, w@.len() as int) == w@.skip(k + 1));
                reveal_strlit("-");
            }
            return out;
        }
        k += 1;
    }
    cap_word_exec(w)
}

fn is_minor_word(w: &[char]) -> (r: bool)
    ensures
        r == minor_words().contains(chars::lower(w@)),
{
    let l = string_of(chars::to_lower(w).as_slice());
    let t = l.as_str();
    let r = str_eq(t, "a") || str_eq(t, "an") || str_eq(t, "and") || str_eq(t, "as") || str_eq(t, "at")
        || str_eq(t, "but") || str_eq(t, "by") || str_eq(t, "for") || str_eq(t, "in") || str_eq(t, "nor")
        || str_eq(t, "of") || str_eq(t, "on") || str_eq(t, "or") || str_eq(t, "the") || str_eq(t, "to")
        || str_eq(t, "with");
    proof {
        let m = minor_words();
        if r {
            assert(m[0] == "a"@ && m[1] == "an"@ && m[2] == "and"@ && m[3] == "as"@ && m[4] == "at"@
                && m[5] == "but"@ && m[6] == "by"@ && m[7] == "for"@ && m[8] == "in"@ && m[9] == "nor"@
                && m[10] == "of"@ && m[11] == "on"@ && m[12] == "or"@ && m[13] == "the"@ && m[14] == "to"@
                && m[15] == "with"@);
        } else {
            assert forall|k: int| 0 <= k < m.len() implies m[k] != l@ by {}
        }
    }
    r
}

fn title_case(s: &str) -> (r: String)
    ensures
        r@ == title_case_of(s@),
{
    let v = chars_of(s);
    if !all_caps_exec(v.as_slice()) {
        return owned(s);
    }
    let ws = split_words(v.as_slice());
    let ghost target = words_of(s@).map(|i: int, w: Seq<char>| title_word(i, w));
    let mut parts: Vec<String> = Vec::new();
    let mut i: usize = 0;
    while i < ws.len()
        invariant
            i <= ws.len(),
            vecs_view(ws@) == words_of(s@),
            target == words_of(s@).map(|i: int, w: Seq<char>| title_word(i, w)),
            views(parts@) == target.take(i as int),
        decreases ws.len() - i,
    {
        let ghost p0 = views(parts@);
        assert(vecs_view(ws@)[i as int] == ws@[i as int]@);
        let c = if i > 0 && is_minor_word(ws[i].as_slice()) {
            to_lowercase(string_of(ws[i].as_slice()).as_str())
        } else {
            cap_hyphenated_exec(ws[i].as_slice())
        };
        parts.push(c);
        i += 1;
        assert(views(parts@) =~= p0.push(target[i - 1]));
        assert(target.take(i as int) =~= target.take(i - 1).push(target[i - 1]));
    }
    assert(target.take(ws.len() as int) =~= target);
    strs::join_strings(&parts, " ")
}

// ---------------------------------------------------------------------------
// Bodies
// ---------------------------------------------------------------------------

/// A body line as a paragraph's text: trimmed, without a leading clause
/// number (fresh numbering is the assembler's), trimmed again.
pub open spec fn block_line(l: Seq<char>) -> Seq<char> {
    chars::trim(strip_number(chars::trim(l)))
}

/// The non-empty paragraph texts of a sequence of lines.
pub open spec fn kept_lines(ls: Seq<Seq<char>>) -> Seq<Seq<char>>
    decreases ls.len(),
{
    if ls.len() == 0 {
        Seq::empty()
    } else {
        let r = kept_lines(ls.drop_last());
        if block_line(ls.last()).len() > 0 { r.push(block_line(ls.last())) } else { r }
    }
}

/// The paragraph texts a precedent body becomes, one per non-blank line.
pub open spec fn body_paragraphs(text: Seq<char>) -> Seq<Seq<char>> {
    kept_lines(lines(text))
}

/// `b` is a plain paragraph of one normal run reading `t`.
pub open spec fn is_para(b: Block, t: Seq<char>) -> bool {
    b matches Block::Paragraph { runs } && runs@.len() == 1 && runs@[0].text@ == t
        && runs@[0].style == RunStyle::Normal
}

/// `bs` are plain paragraphs reading `ts`, one each.
pub open spec fn paras(bs: Seq<Block>, ts: Seq<Seq<char>>) -> bool {
    bs.len() == ts.len() && forall|i: int| 0 <= i < bs.len() ==> is_para(#[trigger] bs[i], ts[i])
}

fn para_block(t: &[char]) -> (r: Block)
    ensures
        is_para(r, t@),
{
    let s = string_of(t);
    Block::para(s.as_str())
}

/// Split a precedent body into paragraph blocks, one per non-blank line,
/// without the leading clause numbers the precedent carried.
pub fn text_to_blocks(text: &str) -> (r: Vec<Block>)
    ensures
        paras(r@, body_paragraphs(text@)),
{
    let v = chars_of(text);
    let ls = split_lines(v.as_slice());
    let ghost lv = ls@.map_values(|l: Vec<char>| l@);
    let mut out: Vec<Block> = Vec::new();
    let mut i: usize = 0;
    while i < ls.len()
        invariant
            i <= ls.len(),
            lv == ls@.map_values(|l: Vec<char>| l@),
            lv == lines(text@),
            paras(out@, kept_lines(lv.take(i as int))),
        decreases ls.len() - i,
    {
        assert(lv.take(i + 1).drop_last() == lv.take(i as int));
        assert(lv.take(i + 1).last() == ls@[i as int]@);
        let t = trim_chars(ls[i].as_slice());
        let p = number_prefix_exec(t.as_slice());
        let rest = slice_of(t.as_slice(), p, t.len());
        let b = trim_chars(rest.as_slice());
        let ghost before = kept_lines(lv.take(i as int));
        if b.len() > 0 {
            let blk = para_block(b.as_slice());
            let ghost o0 = out@;
            out.push(blk);
            assert(paras(out@, before.push(b@))) by {
                assert forall|k: int| 0 <= k < out@.len() implies is_para(#[trigger] out@[k], before.push(b@)[k]) by {
                    if k < before.len() {
                        assert(out@[k] == o0[k]);
                    }
                }
            }
        }
        i += 1;
    }
    assert(lv.take(ls.len() as int) == lv);
    out
}

/// The defined terms (three bytes or longer) that a clause body mentions, in
/// the order given.
pub open spec fn terms_in(body: Seq<char>, terms: Seq<Seq<char>>) -> Seq<Seq<char>>
    decreases terms.len(),
{
    if terms.len() == 0 {
        Seq::empty()
    } else {
        let r = terms_in(body, terms.drop_last());
        let t = terms.last();
        if chars::byte_len(t) >= 3 && chars::contains(body, t) { r.push(t) } else { r }
    }
}

/// Which defined terms a clause body actually mentions, so tools that rewrite
/// a clause can keep `defined_terms_used` honest.
pub fn terms_used(body: &str, terms: &[String]) -> (r: Vec<String>)
    ensures
        views(r@) == terms_in(body@, views(terms@)),
{
    let b = chars_of(body);
    let mut out: Vec<String> = Vec::new();
    let mut i: usize = 0;
    while i < terms.len()
        invariant
            i <= terms.len(),
            b@ == body@,
            views(out@) == terms_in(body@, views(terms@).take(i as int)),
        decreases terms.len() - i,
    {
        assert(views(terms@).take(i + 1).drop_last() == views(terms@).take(i as int));
        assert(views(terms@).take(i + 1).last() == terms@[i as int]@);
        let t = chars_of(terms[i].as_str());
        if !byte_len_le(t.as_slice(), 2) && chars::contains_chars(b.as_slice(), t.as_slice()) {
            let ghost o0 = views(out@);
            out.push(terms[i].clone());
            assert(views(out@) =~= o0.push(terms@[i as int]@));
        }
        i += 1;
    }
    assert(views(terms@).take(terms.len() as int) == views(terms@));
    out
}

// ---------------------------------------------------------------------------
// Parties, recital, execution
// ---------------------------------------------------------------------------

/// `party` carries the intake's details unchanged.
pub open spec fn party_from(party: Party, p: PartyInput) -> bool {
    &&& party.id@ == p.id@
    &&& party.name@ == p.name@
    &&& party.role@ == p.role@
    &&& party.entity_type == p.entity_type
    &&& party.reg_no == p.reg_no
    &&& party.address == p.address
}

fn to_party(p: &PartyInput) -> (r: Party)
    ensures
        party_from(r, *p),
{
    Party {
        id: p.id.clone(),
        name: p.name.clone(),
        role: p.role.clone(),
        entity_type: copy_opt(&p.entity_type),
        reg_no: copy_opt(&p.reg_no),
        address: copy_opt(&p.address),
    }
}

pub open spec fn runs_view(rs: Seq<Run>) -> Seq<(Seq<char>, RunStyle)> {
    rs.map_values(|r: Run| (r.text@, r.style))
}

/// The runs naming the first `n` parties: each bold name followed by its
/// defined role, the names separated by ", " and the last by " and ".
pub open spec fn party_runs(ps: Seq<PartyInput>, n: int) -> Seq<(Seq<char>, RunStyle)>
    decreases n,
{
    if n <= 0 {
        Seq::empty()
    } else {
        let p = ps[n - 1];
        let sep: Seq<(Seq<char>, RunStyle)> = if n - 1 > 0 {
            seq![(if n == ps.len() { " and "@ } else { ", "@ }, RunStyle::Normal)]
        } else {
            Seq::empty()
        };
        party_runs(ps, n - 1) + sep + seq![(p.name@, RunStyle::Bold),
            (" (the \""@ + p.role@ + "\")"@, RunStyle::Normal)]
    }
}

/// The framing recital: who enters into the agreement, and why.
pub open spec fn recital_runs(contract_type: Seq<char>, ps: Seq<PartyInput>) -> Seq<(Seq<char>, RunStyle)> {
    seq![("This "@ + contract_type + " is entered into between "@, RunStyle::Normal)]
        + party_runs(ps, ps.len() as int)
        + seq![(". The parties wish to record the terms and conditions set out below."@, RunStyle::Normal)]
}

fn push_run(runs: &mut Vec<Run>, text: String, style: RunStyle)
    ensures
        runs_view(final(runs)@) == runs_view(old(runs)@).push((text@, style)),
{
    let ghost r0 = runs_view(runs@);
    runs.push(Run { text, style });
    assert(runs_view(runs@) =~= r0.push((text@, style)));
}

fn build_recitals(spec: &MatterSpec) -> (r: Vec<Recital>)
    ensures
        r@.len() == 1,
        r@[0].body@.len() == 1,
        r@[0].body@[0] matches Block::Paragraph { runs }
            && runs_view(runs@) == recital_runs(spec.contract_type@, spec.parties@),
        r@[0].source_ooxml@.len() == 0,
        r@[0].provenance.source is None,
{
    let mut runs: Vec<Run> = Vec::new();
    let mut first = owned("This ");
    push_str(&mut first, spec.contract_type.as_str());
    push_str(&mut first, " is entered into between ");
    push_run(&mut runs, first, RunStyle::Normal);
    let ghost head = runs_view(runs@);
    let n = spec.parties.len();
    let mut i: usize = 0;
    while i < n
        invariant
            i <= n == spec.parties@.len(),
            runs_view(runs@) == head + party_runs(spec.parties@, i as int),
        decreases n - i,
    {
        let p = &spec.parties[i];
        let ghost before = runs_view(runs@);
        if i > 0 {
            let sep = if i + 1 == n { owned(" and ") } else { owned(", ") };
            push_run(&mut runs, sep, RunStyle::Normal);
        }
        push_run(&mut runs, p.name.clone(), RunStyle::Bold);
        let mut role = owned(" (the \"");
        push_str(&mut role, p.role.as_str());
        push_str(&mut role, "\")");
        push_run(&mut runs, role, RunStyle::Normal);
        i += 1;
        assert(runs_view(runs@) =~= head + party_runs(spec.parties@, i as int));
    }
    push_run(&mut runs, owned(". The parties wish to record the terms and conditions set out below."), RunStyle::Normal);
    assert(runs_view(runs@) =~= recital_runs(spec.contract_type@, spec.parties@));
    let mut body: Vec<Block> = Vec::new();
    body.push(Block::Paragraph { runs });
    let mut out: Vec<Recital> = Vec::new();
    out.push(Recital { id: new_id(), body, provenance: Provenance::default(), source_ooxml: Vec::new() });
    out
}

/// A signature block for `p`, signed on its behalf.
pub open spec fn signature_for(b: SignatureBlock, p: PartyInput) -> bool {
    &&& b.party_id@ == p.id@
    &&& b.party_name@ == p.name@
    &&& b.signatory_line@ == "for and on behalf of "@ + p.name@
}

fn build_execution(spec: &MatterSpec) -> (r: Execution)
    ensures
        r.blocks@.len() == spec.parties@.len(),
        forall|i: int| 0 <= i < r.blocks@.len() ==> signature_for(#[trigger] r.blocks@[i], spec.parties@[i]),
{
    let mut blocks: Vec<SignatureBlock> = Vec::new();
    let mut i: usize = 0;
    while i < spec.parties.len()
        invariant
            i <= spec.parties@.len(),
            blocks@.len() == i,
            forall|k: int| 0 <= k < i ==> signature_for(#[trigger] blocks@[k], spec.parties@[k]),
        decreases spec.parties.len() - i,
    {
        let p = &spec.parties[i];
        let mut line = owned("for and on behalf of ");
        push_str(&mut line, p.name.as_str());
        blocks.push(SignatureBlock { party_id: p.id.clone(), party_name: p.name.clone(), signatory_line: line });
        i += 1;
    }
    Execution { blocks }
}

// ---------------------------------------------------------------------------
// Which clause types to assemble
// ---------------------------------------------------------------------------

/// `base` followed by each extra type not already present (ignoring ASCII
/// case).
pub open spec fn with_includes(base: Seq<Seq<char>>, extra: Seq<Seq<char>>) -> Seq<Seq<char>>
    decreases extra.len(),
{
    if extra.len() == 0 {
        base
    } else {
        let acc = with_includes(base, extra.drop_last());
        if has_ci(acc, extra.last()) { acc } else { acc.push(extra.last()) }
    }
}

/// The clause types a matter asks for: the checklist's required types, then
/// each type the matter includes that is not already listed.
pub open spec fn wanted_of(spec: MatterSpec) -> Seq<Seq<char>> {
    with_includes(required_of(spec.contract_type@), views(spec.include_clause_types@))
}

fn wanted_types(spec: &MatterSpec) -> (r: Vec<String>)
    ensures
        views(r@) == wanted_of(*spec),
{
    let mut types = checklist::required_clause_types(spec.contract_type.as_str());
    let mut i: usize = 0;
    while i < spec.include_clause_types.len()
        invariant
            i <= spec.include_clause_types@.len(),
            views(types@) == with_includes(required_of(spec.contract_type@),
                views(spec.include_clause_types@).take(i as int)),
        decreases spec.include_clause_types.len() - i,
    {
        let ghost inc = views(spec.include_clause_types@);
        assert(inc.take(i + 1).drop_last() == inc.take(i as int));
        assert(inc.take(i + 1).last() == spec.include_clause_types@[i as int]@);
        let extra = &spec.include_clause_types[i];
        if !any_ci(&types, extra.as_str()) {
            let ghost t0 = views(types@);
            types.push(extra.clone());
            assert(views(types@) =~= t0.push(extra@));
        }
        i += 1;
    }
    assert(views(spec.include_clause_types@).take(spec.include_clause_types.len() as int)
        == views(spec.include_clause_types@));
    types
}

// ---------------------------------------------------------------------------
// The assembled document
// ---------------------------------------------------------------------------

/// Result of assembly: the document plus a report of what was and was not
/// found.
pub struct AssembledDraft {
    pub document: LirDocument,
    pub report: AssemblyReport,
}

/// The precedent a draft's structure was taken from.
#[derive(Debug, Clone)]
pub struct SkeletonInfo {
    pub source_name: String,
    pub file: String,
    /// Whether it is of the matter's contract type.
    pub exact_type_match: bool,
}

#[derive(Debug)]
pub struct AssemblyReport {
    /// The skeleton precedent.
    pub skeleton: Option<SkeletonInfo>,
    /// (clause type, source name, file) for each clause type the matter asks
    /// for that the skeleton lacked and another precedent supplied.
    pub gap_filled: Vec<(String, String, String)>,
    /// Clause types the matter asks for that no precedent supplied.
    pub missing: Vec<String>,
    /// Headings of the skeleton's clauses the matter excluded.
    pub excluded: Vec<String>,
    /// Anything else the drafter should know.
    pub notes: Vec<String>,
    /// The defined terms carried over from the skeleton.
    pub definitions: Vec<String>,
}

fn build_parties(spec: &MatterSpec) -> (r: Vec<Party>)
    ensures
        r@.len() == spec.parties@.len(),
        forall|i: int| 0 <= i < r@.len() ==> party_from(#[trigger] r@[i], spec.parties@[i]),
{
    let mut out: Vec<Party> = Vec::new();
    let mut i: usize = 0;
    while i < spec.parties.len()
        invariant
            i <= spec.parties@.len(),
            out@.len() == i,
            forall|k: int| 0 <= k < i ==> party_from(#[trigger] out@[k], spec.parties@[k]),
        decreases spec.parties.len() - i,
    {
        out.push(to_party(&spec.parties[i]));
        i += 1;
    }
    out
}

/// What an empty-corpus error says.
pub open spec fn no_precedent_message() -> Seq<char> {
    "no precedent found to draft this matter from; attach a source with precedents of this kind"@
}

// Laws
// ---------------------------------------------------------------------------

proof fn lemma_subst_from_no_vars(s: Seq<char>, i: int)
    requires
        0 <= i <= s.len(),
    ensures
        patterns::subst_from(s, i, Seq::empty()) == s.skip(i),
    decreases s.len() - i,
{
    if i < s.len() {
        match patterns::placeholder_at(s, i) {
            Some((name, e)) => {
                lemma_subst_from_no_vars(s, e);
                assert(s.subrange(i, e) + s.skip(e) =~= s.skip(i));
            },
            None => {
                lemma_subst_from_no_vars(s, i + 1);
                assert(seq![s[i]] + s.skip(i + 1) =~= s.skip(i));
            },
        }
    } else {
        assert(s.skip(i) =~= Seq::<char>::empty());
    }
}

proof fn lemma_subst_from_unknown(s: Seq<char>, i: int, vars: Seq<(Seq<char>, Seq<char>)>)
    requires
        0 <= i <= s.len(),
        forall|k: int| #![trigger patterns::placeholder_at(s, k)] i <= k < s.len() ==>
            (patterns::placeholder_at(s, k) matches Some((n, e)) ==> patterns::var_lookup(vars, n) is None),
    ensures
        patterns::subst_from(s, i, vars) == s.skip(i),
    decreases s.len() - i,
{
    if i < s.len() {
        match patterns::placeholder_at(s, i) {
            Some((name, e)) => {
                lemma_subst_from_unknown(s, e, vars);
                assert(s.subrange(i, e) + s.skip(e) =~= s.skip(i));
            },
            None => {
                lemma_subst_from_unknown(s, i + 1, vars);
                assert(seq![s[i]] + s.skip(i + 1) =~= s.skip(i));
            },
        }
    } else {
        assert(s.skip(i) =~= Seq::<char>::empty());
    }
}

/// Substitution leaves a text exactly as written when none of its
/// placeholders names a variable that has a value: placeholders without a
/// value stay in place for validation to flag, and all other text is
/// verbatim.
pub proof fn lemma_substitution_keeps_unknown(s: Seq<char>, vars: Seq<(Seq<char>, Seq<char>)>)
    requires
        forall|k: int| #![trigger patterns::placeholder_at(s, k)] 0 <= k < s.len() ==>
            (patterns::placeholder_at(s, k) matches Some((n, e)) ==> patterns::var_lookup(vars, n) is None),
    ensures
        substitution(s, vars) == s,
{
    lemma_subst_from_unknown(s, 0, vars);
    assert(s.skip(0) =~= s);
}

proof fn lemma_lookup_first(vars: Seq<(Seq<char>, Seq<char>)>, name: Seq<char>, i: int)
    requires
        0 <= i < vars.len(),
        vars[i].0 == name,
        forall|j: int| 0 <= j < i ==> (#[trigger] vars[j]).0 != name,
    ensures
        patterns::var_lookup(vars, name) == Some(vars[i].1),
    decreases i,
{
    if i > 0 {
        assert forall|j: int| 0 <= j < i - 1 implies (#[trigger] vars.drop_first()[j]).0 != name by {
            assert(vars.drop_first()[j] == vars[j + 1]);
        }
        assert(vars.drop_first()[i - 1] == vars[i]);
        lemma_lookup_first(vars.drop_first(), name, i - 1);
    }
}

proof fn lemma_subst_copies(s: Seq<char>, i: int, e: int, vars: Seq<(Seq<char>, Seq<char>)>)
    requires
        0 <= i <= e <= s.len(),
        forall|k: int| i <= k < e ==> s[k] != '{',
    ensures
        patterns::subst_from(s, i, vars) == s.subrange(i, e) + patterns::subst_from(s, e, vars),
    decreases e - i,
{
    if i == e {
        assert(s.subrange(i, e) + patterns::subst_from(s, e, vars) =~= patterns::subst_from(s, e, vars));
    } else {
        assert(patterns::placeholder_at(s, i) is None);
        lemma_subst_copies(s, i + 1, e, vars);
        assert(seq![s[i]] + (s.subrange(i + 1, e) + patterns::subst_from(s, e, vars))
            =~= s.subrange(i, e) + patterns::subst_from(s, e, vars));
    }
}

/// A placeholder `{{name}}` whose name the matter gives a value (the first
/// pair with that name) is replaced by exactly that value; the text around
/// it (here without other placeholders) stays as written.
pub proof fn lemma_substitution_fills_value(a: Seq<char>, name: Seq<char>, b: Seq<char>,
    vars: Seq<(Seq<char>, Seq<char>)>, i: int)
    requires
        forall|k: int| 0 <= k < a.len() ==> a[k] != '{',
        forall|k: int| 0 <= k < b.len() ==> b[k] != '{',
        name.len() > 0,
        forall|k: int| 0 <= k < name.len() ==> ('A' <= #[trigger] name[k] <= 'Z') || ('a' <= name[k] <= 'z')
            || ('0' <= name[k] <= '9') || name[k] == '_',
        0 <= i < vars.len(),
        vars[i].0 == name,
        forall|j: int| 0 <= j < i ==> (#[trigger] vars[j]).0 != name,
    ensures
        substitution(a + seq!['{', '{'] + name + seq!['}', '}'] + b, vars) == a + vars[i].1 + b,
{
    let o = seq!['{', '{'];
    let c = seq!['}', '}'];
    let s = a + o + name + c + b;
    let ia = a.len() as int;
    let k = ia + 2 + name.len();
    let e = k + 2;
    let n = s.len() as int;
    assert forall|q: int| 0 <= q < ia implies s[q] != '{' by { assert(s[q] == a[q]); }
    assert forall|q: int| e <= q < n implies s[q] != '{' by { assert(s[q] == b[q - e]); }
    assert forall|q: int| ia + 2 <= q < k implies s[q] == name[q - ia - 2] by {}
    assert(s[ia] == '{' && s[ia + 1] == '{') by { assert(s[ia] == o[0]); assert(s[ia + 1] == o[1]); }
    assert(s[k] == '}' && s[k + 1] == '}') by { assert(s[k] == c[0]); assert(s[k + 1] == c[1]); }
    // The placeholder at `ia` is exactly `{{name}}`.
    assert(!chars::is_ws(s[ia + 2])) by { assert(s[ia + 2] == name[0]); }
    assert(crate::grammar::run_while(s, ia + 2, crate::grammar::spaces()) == 0);
    assert forall|q: int| ia + 2 <= q < k implies (patterns::name_chars())(s[q]) by {
        assert(s[q] == name[q - ia - 2]);
    }
    lemma_run_exact(s, ia + 2, k, patterns::name_chars());
    assert(!chars::is_ws(s[k]));
    assert(crate::grammar::run_while(s, k, crate::grammar::spaces()) == 0);
    assert(s.subrange(ia + 2, k) =~= name);
    assert(patterns::placeholder_at(s, ia) == Some((name, e)));
    lemma_lookup_first(vars, name, i);
    lemma_subst_copies(s, 0, ia, vars);
    lemma_subst_from_unknown(s, e, vars);
    assert(patterns::subst_from(s, ia, vars) == vars[i].1 + patterns::subst_from(s, e, vars));
    assert(s.subrange(0, ia) =~= a);
    assert(s.skip(e) =~= b);
}

proof fn lemma_run_exact(s: Seq<char>, i: int, e: int, p: spec_fn(char) -> bool)
    requires
        0 <= i <= e < s.len(),
        forall|q: int| i <= q < e ==> p(s[q]),
        !p(s[e]),
    ensures
        crate::grammar::run_while(s, i, p) == e - i,
    decreases e - i,
{
    if i < e {
        lemma_run_exact(s, i + 1, e, p);
    }
}

/// Substitution never drops a placeholder it has no value for: with no
/// variables a text is left exactly as written.
pub proof fn lemma_substitution_without_values(s: Seq<char>)
    ensures
        substitution(s, Seq::empty()) == s,
{
    lemma_subst_from_no_vars(s, 0);
    assert(s.skip(0) =~= s);
}

// ---------------------------------------------------------------------------
// Precedent-led assembly: the draft's structure is the skeleton precedent's
// ---------------------------------------------------------------------------

/// A precedent document as extraction segmented it, with where it came from.
#[derive(Debug, Clone)]
pub struct Precedent {
    pub source_name: String,
    pub file: String,
    /// The document's title, where it has one.
    pub title: Option<String>,
    /// The objects extraction segmented the document into, in order.
    pub clauses: Vec<ExtractedClause>,
}

/// A numbered clause at the top level of the precedent.
pub open spec fn is_top(e: ExtractedClause) -> bool {
    e.kind == ClauseKind::Clause && e.depth == 0
}

/// A sub-clause ("5.1", "5.1.2") of the clause before it.
pub open spec fn is_sub(e: ExtractedClause) -> bool {
    e.kind == ClauseKind::Clause && e.depth > 0
}

/// An object's clause type, or nothing.
pub open spec fn type_or_empty(e: ExtractedClause) -> Seq<char> {
    match e.metadata.clause_type {
        Some(t) => t@,
        None => Seq::empty(),
    }
}

/// A top-level clause's heading: its own, title-cased, when it has a
/// non-blank one, else its clause type.
pub open spec fn top_heading(e: ExtractedClause) -> Seq<char> {
    heading_text(type_or_empty(e), e.heading)
}

/// A sub-clause's heading: its own, title-cased, when it has one.
pub open spec fn sub_heading(e: ExtractedClause) -> Seq<char> {
    heading_text(Seq::empty(), e.heading)
}

/// The matter excludes a clause whose type or heading it names (ASCII case
/// ignored).
pub open spec fn excluded_by(spec: MatterSpec, e: ExtractedClause) -> bool {
    has_ci(views(spec.exclude_clause_types@), type_or_empty(e)) || has_ci(views(spec.exclude_clause_types@), top_heading(e))
}

/// The clause tree of the first `n` objects of a precedent, by position:
/// each top-level clause the matter does not exclude, with the sub-clauses
/// that follow it; whether the last top-level clause was excluded (its
/// sub-clauses go with it); and the headings of the excluded clauses.
pub open spec fn tree_upto(spec: MatterSpec, es: Seq<ExtractedClause>, n: int) -> (Seq<(int, Seq<int>)>, bool, Seq<Seq<char>>)
    decreases n,
{
    if n <= 0 {
        (Seq::empty(), false, Seq::empty())
    } else {
        let prev = tree_upto(spec, es, n - 1);
        let t = prev.0;
        let e = es[n - 1];
        if is_top(e) {
            if excluded_by(spec, e) {
                (t, true, prev.2.push(top_heading(e)))
            } else {
                (t.push((n - 1, Seq::empty())), false, prev.2)
            }
        } else if is_sub(e) && !prev.1 && t.len() > 0 {
            (t.update(t.len() - 1, (t.last().0, t.last().1.push(n - 1))), prev.1, prev.2)
        } else {
            prev
        }
    }
}

/// The clause tree of a whole precedent.
pub open spec fn tree_of(spec: MatterSpec, es: Seq<ExtractedClause>) -> Seq<(int, Seq<int>)> {
    tree_upto(spec, es, es.len() as int).0
}

pub open spec fn tree_view(v: Seq<(usize, Vec<usize>)>) -> Seq<(int, Seq<int>)> {
    v.map_values(|x: (usize, Vec<usize>)| (x.0 as int, x.1@.map_values(|u: usize| u as int)))
}

/// Every position in a tree is below `n`.
pub open spec fn tree_below(t: Seq<(int, Seq<int>)>, n: int) -> bool {
    forall|q: int| 0 <= q < t.len() ==> 0 <= (#[trigger] t[q]).0 < n
        && forall|m: int| 0 <= m < t[q].1.len() ==> 0 <= #[trigger] t[q].1[m] < n
}

fn heading_of(clause_type: &str, heading: &Option<String>) -> (r: String)
    ensures
        r@ == heading_text(clause_type@, *heading),
{
    match heading {
        Some(h) => {
            let t = chars::trim_str(h.as_str());
            if t.len() > 0 { title_case(h.as_str()) } else { owned(clause_type) }
        },
        None => owned(clause_type),
    }
}

fn type_text(e: &ExtractedClause) -> (r: String)
    ensures
        r@ == type_or_empty(*e),
{
    match &e.metadata.clause_type {
        Some(t) => t.clone(),
        None => String::new(),
    }
}

fn build_tree(spec: &MatterSpec, es: &Vec<ExtractedClause>) -> (r: (Vec<(usize, Vec<usize>)>, Vec<String>))
    ensures
        tree_view(r.0@) == tree_upto(*spec, es@, es@.len() as int).0,
        views(r.1@) == tree_upto(*spec, es@, es@.len() as int).2,
        tree_below(tree_view(r.0@), es@.len() as int),
{
    let mut tops: Vec<(usize, Vec<usize>)> = Vec::new();
    let mut excluded: Vec<String> = Vec::new();
    let mut skip = false;
    let mut i: usize = 0;
    while i < es.len()
        invariant
            i <= es.len(),
            tree_view(tops@) == tree_upto(*spec, es@, i as int).0,
            skip == tree_upto(*spec, es@, i as int).1,
            views(excluded@) == tree_upto(*spec, es@, i as int).2,
            tree_below(tree_view(tops@), i as int),
        decreases es.len() - i,
    {
        let e = &es[i];
        let ghost t0 = tree_view(tops@);
        if e.kind == ClauseKind::Clause && e.depth == 0 {
            let ty = type_text(e);
            let h = heading_of(ty.as_str(), &e.heading);
            if any_ci(&spec.exclude_clause_types, ty.as_str()) || any_ci(&spec.exclude_clause_types, h.as_str()) {
                let ghost x0 = views(excluded@);
                excluded.push(h);
                assert(views(excluded@) =~= x0.push(top_heading(*e)));
                skip = true;
            } else {
                let fresh: Vec<usize> = Vec::new();
                assert(fresh@.map_values(|u: usize| u as int) =~= Seq::<int>::empty());
                tops.push((i, fresh));
                assert(tree_view(tops@) =~= t0.push((i as int, Seq::empty())));
                skip = false;
            }
        } else if e.kind == ClauseKind::Clause && e.depth > 0 && !skip && tops.len() > 0 {
            let last = tops.pop().unwrap();
            let (ti, mut subs) = last;
            let ghost s0 = subs@.map_values(|u: usize| u as int);
            subs.push(i);
            assert(subs@.map_values(|u: usize| u as int) =~= s0.push(i as int));
            tops.push((ti, subs));
            assert(tree_view(tops@) =~= t0.update(t0.len() - 1, (t0.last().0, t0.last().1.push(i as int))));
        }
        i += 1;
        proof {
            let t1 = tree_view(tops@);
            assert forall|q: int| 0 <= q < t1.len() implies 0 <= (#[trigger] t1[q]).0 < i
                && forall|m: int| 0 <= m < t1[q].1.len() ==> 0 <= #[trigger] t1[q].1[m] < i by {
                if q < t0.len() - 1 || (q < t0.len() && t1.len() == t0.len() && !(e.kind == ClauseKind::Clause && e.depth > 0)) {
                    assert(t1[q] == t0[q]);
                }
            }
        }
    }
    (tops, excluded)
}

/// A precedent's contract type (what extraction detected for it), or
/// nothing.
pub open spec fn doc_type(p: Precedent) -> Seq<char> {
    if p.clauses@.len() > 0 {
        match p.clauses@[0].metadata.contract_type {
            Some(t) => t@,
            None => Seq::empty(),
        }
    } else {
        Seq::empty()
    }
}

/// A precedent of the matter's contract type (ASCII case ignored).
pub open spec fn type_matches(spec: MatterSpec, p: Precedent) -> bool {
    doc_type(p).len() > 0 && chars::lower(doc_type(p)) == chars::lower(spec.contract_type@)
}

/// The precedent the matter names: its file path or its title holds the
/// matter's non-blank `skeleton_precedent`.
pub open spec fn named_by(spec: MatterSpec, p: Precedent) -> bool {
    spec.skeleton_precedent matches Some(n) && chars::trim(n@).len() > 0
        && (chars::contains(p.file@, n@) || (p.title matches Some(t) && chars::contains(t@, n@)))
}

/// Every object of the precedent is explicitly marked approved.
pub open spec fn approved_doc(p: Precedent) -> bool {
    forall|i: int| 0 <= i < p.clauses@.len() ==> (#[trigger] p.clauses@[i]).metadata.approved == Some(true)
}

/// A precedent the matter may draw on: any, unless it asks for approved
/// precedent only.
pub open spec fn eligible(spec: MatterSpec, p: Precedent) -> bool {
    !spec.approved_only || approved_doc(p)
}

pub open spec fn first_named(spec: MatterSpec, ps: Seq<Precedent>, i: int) -> Option<int>
    decreases ps.len() - i,
{
    if i < 0 || i >= ps.len() { None } else if named_by(spec, ps[i]) && eligible(spec, ps[i]) { Some(i) } else { first_named(spec, ps, i + 1) }
}

pub open spec fn first_typed(spec: MatterSpec, ps: Seq<Precedent>, i: int) -> Option<int>
    decreases ps.len() - i,
{
    if i < 0 || i >= ps.len() { None } else if type_matches(spec, ps[i]) && eligible(spec, ps[i]) { Some(i) } else { first_typed(spec, ps, i + 1) }
}

pub open spec fn first_nonempty(spec: MatterSpec, ps: Seq<Precedent>, i: int) -> Option<int>
    decreases ps.len() - i,
{
    if i < 0 || i >= ps.len() { None } else if ps[i].clauses@.len() > 0 && eligible(spec, ps[i]) { Some(i) } else { first_nonempty(spec, ps, i + 1) }
}

/// The skeleton precedent and whether it is of the matter's contract type,
/// among the precedents the matter may draw on: the first the matter names;
/// else the first of its contract type; else the first with any content.
/// `None` when there is none.
pub open spec fn skeleton_choice(spec: MatterSpec, ps: Seq<Precedent>) -> Option<(int, bool)> {
    match first_named(spec, ps, 0) {
        Some(k) => Some((k, type_matches(spec, ps[k]))),
        None => match first_typed(spec, ps, 0) {
            Some(k) => Some((k, true)),
            None => match first_nonempty(spec, ps, 0) {
                Some(k) => Some((k, false)),
                None => None,
            },
        },
    }
}

fn is_named(spec: &MatterSpec, p: &Precedent) -> (r: bool)
    ensures
        r == named_by(*spec, *p),
{
    match &spec.skeleton_precedent {
        Some(n) => {
            let nt = chars::trim_str(n.as_str());
            if nt.len() == 0 {
                return false;
            }
            let f = chars_of(p.file.as_str());
            let nv = chars_of(n.as_str());
            if chars::contains_chars(f.as_slice(), nv.as_slice()) {
                return true;
            }
            match &p.title {
                Some(t) => {
                    let tv = chars_of(t.as_str());
                    chars::contains_chars(tv.as_slice(), nv.as_slice())
                },
                None => false,
            }
        },
        None => false,
    }
}

fn is_typed(spec: &MatterSpec, p: &Precedent) -> (r: bool)
    ensures
        r == type_matches(*spec, *p),
{
    if p.clauses.len() == 0 {
        return false;
    }
    match &p.clauses[0].metadata.contract_type {
        Some(t) => chars_of(t.as_str()).len() > 0 && chars::eq_ignore_case(t.as_str(), spec.contract_type.as_str()),
        None => false,
    }
}

fn is_eligible(spec: &MatterSpec, p: &Precedent) -> (r: bool)
    ensures
        r == eligible(*spec, *p),
{
    if !spec.approved_only {
        return true;
    }
    let mut i: usize = 0;
    while i < p.clauses.len()
        invariant
            i <= p.clauses@.len(),
            spec.approved_only,
            forall|q: int| 0 <= q < i ==> (#[trigger] p.clauses@[q]).metadata.approved == Some(true),
        decreases p.clauses.len() - i,
    {
        match p.clauses[i].metadata.approved {
            Some(true) => {},
            _ => {
                assert(p.clauses@[i as int].metadata.approved != Some(true));
                return false;
            },
        }
        i += 1;
    }
    true
}

fn choose_skeleton(spec: &MatterSpec, ps: &Vec<Precedent>) -> (r: Option<(usize, bool)>)
    ensures
        match r {
            Some((k, exact)) => skeleton_choice(*spec, ps@) == Some((k as int, exact)) && k < ps@.len(),
            None => skeleton_choice(*spec, ps@) is None,
        },
{
    let mut i: usize = 0;
    while i < ps.len()
        invariant
            i <= ps.len(),
            first_named(*spec, ps@, 0) == first_named(*spec, ps@, i as int),
        decreases ps.len() - i,
    {
        if is_named(spec, &ps[i]) && is_eligible(spec, &ps[i]) {
            return Some((i, is_typed(spec, &ps[i])));
        }
        i += 1;
    }
    let mut i: usize = 0;
    while i < ps.len()
        invariant
            i <= ps.len(),
            first_named(*spec, ps@, 0) is None,
            first_typed(*spec, ps@, 0) == first_typed(*spec, ps@, i as int),
        decreases ps.len() - i,
    {
        if is_typed(spec, &ps[i]) && is_eligible(spec, &ps[i]) {
            return Some((i, true));
        }
        i += 1;
    }
    let mut i: usize = 0;
    while i < ps.len()
        invariant
            i <= ps.len(),
            first_named(*spec, ps@, 0) is None,
            first_typed(*spec, ps@, 0) is None,
            first_nonempty(*spec, ps@, 0) == first_nonempty(*spec, ps@, i as int),
        decreases ps.len() - i,
    {
        if ps[i].clauses.len() > 0 && is_eligible(spec, &ps[i]) {
            return Some((i, false));
        }
        i += 1;
    }
    None
}

/// The number of the `j`-th sub-clause (0-based) of the `k`-th top-level
/// clause (0-based): "k+1.j+1".
pub open spec fn sub_number(k: int, j: int) -> Seq<char> {
    decimal((k + 1) as nat) + "."@ + decimal((j + 1) as nat)
}

/// A clause's entry in a renumbering: its precedent number, when it had
/// one, and its new number.
pub open spec fn number_entry(e: ExtractedClause, new: Seq<char>) -> Seq<(Seq<char>, Seq<char>)> {
    match e.number {
        Some(x) => seq![(x@, new)],
        None => Seq::empty(),
    }
}

pub open spec fn subs_map(es: Seq<ExtractedClause>, subs: Seq<int>, k: int, m: int) -> Seq<(Seq<char>, Seq<char>)>
    decreases m,
{
    if m <= 0 { Seq::empty() } else { subs_map(es, subs, k, m - 1) + number_entry(es[subs[m - 1]], sub_number(k, m - 1)) }
}

/// The renumbering of the first `n` top-level clauses of a tree and their
/// sub-clauses: precedent number to draft number, in order.
pub open spec fn tree_map(es: Seq<ExtractedClause>, t: Seq<(int, Seq<int>)>, n: int) -> Seq<(Seq<char>, Seq<char>)>
    decreases n,
{
    if n <= 0 {
        Seq::empty()
    } else {
        tree_map(es, t, n - 1) + number_entry(es[t[n - 1].0], decimal(n as nat))
            + subs_map(es, t[n - 1].1, n - 1, t[n - 1].1.len() as int)
    }
}

fn push_entry(map: &mut Vec<(String, String)>, e: &ExtractedClause, new: &String)
    ensures
        pairs_view(final(map)@) == pairs_view(old(map)@) + number_entry(*e, new@),
{
    let ghost m0 = pairs_view(map@);
    match &e.number {
        Some(x) => {
            map.push((x.clone(), new.clone()));
            assert(pairs_view(map@) =~= m0 + seq![(x@, new@)]);
        },
        None => {
            assert(m0 + Seq::<(Seq<char>, Seq<char>)>::empty() =~= m0);
        },
    }
}

fn sub_number_exec(k: usize, j: usize) -> (r: String)
    requires
        k < usize::MAX,
        j < usize::MAX,
    ensures
        r@ == sub_number(k as int, j as int),
{
    let mut s = decimal_string(k + 1);
    push_str(&mut s, ".");
    let t = decimal_string(j + 1);
    push_str(&mut s, t.as_str());
    s
}

fn build_map(es: &Vec<ExtractedClause>, t: &Vec<(usize, Vec<usize>)>) -> (r: Vec<(String, String)>)
    requires
        tree_below(tree_view(t@), es@.len() as int),
        t@.len() < usize::MAX,
    ensures
        pairs_view(r@) == tree_map(es@, tree_view(t@), t@.len() as int),
{
    let ghost tv = tree_view(t@);
    let mut map: Vec<(String, String)> = Vec::new();
    let mut k: usize = 0;
    while k < t.len()
        invariant
            k <= t@.len() < usize::MAX,
            tv == tree_view(t@),
            tree_below(tv, es@.len() as int),
            pairs_view(map@) == tree_map(es@, tv, k as int),
        decreases t.len() - k,
    {
        assert(tv[k as int].0 == t@[k as int].0 as int);
        let top = decimal_string(k + 1);
        push_entry(&mut map, &es[t[k].0], &top);
        let ghost m1 = pairs_view(map@);
        let subs = &t[k].1;
        assert(tv[k as int].1 == subs@.map_values(|u: usize| u as int));
        let mut j: usize = 0;
        while j < subs.len()
            invariant
                j <= subs@.len(),
                k < t@.len() < usize::MAX,
                tv == tree_view(t@),
                tree_below(tv, es@.len() as int),
                *subs == t@[k as int].1,
                tv[k as int].1 == subs@.map_values(|u: usize| u as int),
                pairs_view(map@) == m1 + subs_map(es@, tv[k as int].1, k as int, j as int),
            decreases subs.len() - j,
        {
            assert(tv[k as int].1[j as int] == subs@[j as int] as int);
            assert(0 <= tv[k as int].1[j as int] < es@.len());
            let sn = sub_number_exec(k, j);
            push_entry(&mut map, &es[subs[j]], &sn);
            j += 1;
        }
        k += 1;
    }
    map
}

/// The clause types of a tree's top-level clauses.
pub open spec fn tree_types(es: Seq<ExtractedClause>, t: Seq<(int, Seq<int>)>) -> Seq<Seq<char>> {
    t.map_values(|x: (int, Seq<int>)| type_or_empty(es[x.0]))
}

/// The checklist types among the first `n` that are neither present nor
/// excluded.
pub open spec fn gaps_of(req: Seq<Seq<char>>, present: Seq<Seq<char>>, excl: Seq<Seq<char>>, n: int) -> Seq<Seq<char>>
    decreases n,
{
    if n <= 0 {
        Seq::empty()
    } else {
        let r = gaps_of(req, present, excl, n - 1);
        if !has_ci(present, req[n - 1]) && !has_ci(excl, req[n - 1]) { r.push(req[n - 1]) } else { r }
    }
}

/// The clause types the matter asks for that the skeleton lacks and the
/// matter does not exclude, in the order asked.
pub open spec fn gap_types(spec: MatterSpec, es: Seq<ExtractedClause>) -> Seq<Seq<char>> {
    gaps_of(wanted_of(spec), tree_types(es, tree_of(spec, es)),
        views(spec.exclude_clause_types@), wanted_of(spec).len() as int)
}

/// The first top-level clause of a (non-empty) clause type in a tree, from
/// position `j` on.
pub open spec fn node_of_type(es: Seq<ExtractedClause>, t: Seq<(int, Seq<int>)>, ty: Seq<char>, j: int) -> Option<int>
    decreases t.len() - j,
{
    if j < 0 || j >= t.len() {
        None
    } else if type_or_empty(es[t[j].0]).len() > 0 && chars::lower(type_or_empty(es[t[j].0])) == chars::lower(ty) {
        Some(j)
    } else {
        node_of_type(es, t, ty, j + 1)
    }
}

/// Where a missing clause type is filled from: the first precedent after
/// position `k`-1, other than the skeleton, with a top-level clause of that
/// type, and that clause's position in its tree.
pub open spec fn gap_source(spec: MatterSpec, ps: Seq<Precedent>, sk: int, ty: Seq<char>, k: int) -> Option<(int, int)>
    decreases ps.len() - k,
{
    if k < 0 || k >= ps.len() {
        None
    } else if k != sk && eligible(spec, ps[k]) && node_of_type(ps[k].clauses@, tree_of(spec, ps[k].clauses@), ty, 0) is Some {
        Some((k, node_of_type(ps[k].clauses@, tree_of(spec, ps[k].clauses@), ty, 0)->0))
    } else {
        gap_source(spec, ps, sk, ty, k + 1)
    }
}

/// For the first `n` gaps: those filled (type, precedent, node) and those
/// left missing.
pub open spec fn fills_of(spec: MatterSpec, ps: Seq<Precedent>, sk: int, gaps: Seq<Seq<char>>, n: int)
    -> (Seq<(Seq<char>, int, int)>, Seq<Seq<char>>)
    decreases n,
{
    if n <= 0 {
        (Seq::empty(), Seq::empty())
    } else {
        let r = fills_of(spec, ps, sk, gaps, n - 1);
        match gap_source(spec, ps, sk, gaps[n - 1], 0) {
            Some((k, j)) => (r.0.push((gaps[n - 1], k, j)), r.1),
            None => (r.0, r.1.push(gaps[n - 1])),
        }
    }
}

/// An object's defined term, or nothing.
pub open spec fn term_of(e: ExtractedClause) -> Seq<char> {
    match e.term {
        Some(t) => t@,
        None => Seq::empty(),
    }
}

/// The positions of the first `n` objects' definitions: each with a
/// non-empty term not defined before.
pub open spec fn defs_upto(es: Seq<ExtractedClause>, n: int) -> Seq<int>
    decreases n,
{
    if n <= 0 {
        Seq::empty()
    } else {
        let r = defs_upto(es, n - 1);
        let e = es[n - 1];
        if e.kind == ClauseKind::Definition && term_of(e).len() > 0
            && !r.map_values(|i: int| term_of(es[i])).contains(term_of(e)) {
            r.push(n - 1)
        } else {
            r
        }
    }
}

/// The positions of the first `n` objects' schedules.
pub open spec fn scheds_upto(es: Seq<ExtractedClause>, n: int) -> Seq<int>
    decreases n,
{
    if n <= 0 {
        Seq::empty()
    } else if es[n - 1].kind == ClauseKind::Schedule {
        scheds_upto(es, n - 1).push(n - 1)
    } else {
        scheds_upto(es, n - 1)
    }
}

fn find_gaps(spec: &MatterSpec, es: &Vec<ExtractedClause>, t: &Vec<(usize, Vec<usize>)>) -> (r: Vec<String>)
    requires
        tree_view(t@) == tree_of(*spec, es@),
        tree_below(tree_view(t@), es@.len() as int),
    ensures
        views(r@) == gap_types(*spec, es@),
{
    let ghost tv = tree_view(t@);
    let mut present: Vec<String> = Vec::new();
    let mut q: usize = 0;
    while q < t.len()
        invariant
            q <= t@.len(),
            tv == tree_view(t@),
            tree_below(tv, es@.len() as int),
            views(present@) == tree_types(es@, tv).take(q as int),
        decreases t.len() - q,
    {
        assert(tv[q as int].0 == t@[q as int].0 as int);
        let ghost p0 = views(present@);
        present.push(type_text(&es[t[q].0]));
        assert(views(present@) =~= p0.push(tree_types(es@, tv)[q as int]));
        assert(tree_types(es@, tv).take(q + 1) =~= tree_types(es@, tv).take(q as int).push(tree_types(es@, tv)[q as int]));
        q += 1;
    }
    assert(tree_types(es@, tv).take(t@.len() as int) =~= tree_types(es@, tv));
    let req = wanted_types(spec);
    let ghost rv = views(req@);
    let mut out: Vec<String> = Vec::new();
    let mut i: usize = 0;
    while i < req.len()
        invariant
            i <= req@.len(),
            rv == views(req@),
            rv == wanted_of(*spec),
            views(present@) == tree_types(es@, tv),
            tv == tree_of(*spec, es@),
            views(out@) == gaps_of(rv, views(present@), views(spec.exclude_clause_types@), i as int),
        decreases req.len() - i,
    {
        assert(rv[i as int] == req@[i as int]@);
        let x = &req[i];
        if !any_ci(&present, x.as_str()) && !any_ci(&spec.exclude_clause_types, x.as_str()) {
            let ghost o0 = views(out@);
            out.push(x.clone());
            assert(views(out@) =~= o0.push(x@));
        }
        i += 1;
    }
    out
}

fn node_of_type_exec(es: &Vec<ExtractedClause>, t: &Vec<(usize, Vec<usize>)>, ty: &str) -> (r: Option<usize>)
    requires
        tree_below(tree_view(t@), es@.len() as int),
    ensures
        match r {
            Some(j) => node_of_type(es@, tree_view(t@), ty@, 0) == Some(j as int) && j < t@.len(),
            None => node_of_type(es@, tree_view(t@), ty@, 0) is None,
        },
{
    let ghost tv = tree_view(t@);
    let mut j: usize = 0;
    while j < t.len()
        invariant
            j <= t@.len(),
            tv == tree_view(t@),
            tree_below(tv, es@.len() as int),
            node_of_type(es@, tv, ty@, 0) == node_of_type(es@, tv, ty@, j as int),
        decreases t.len() - j,
    {
        assert(tv[j as int].0 == t@[j as int].0 as int);
        let x = type_text(&es[t[j].0]);
        if chars_of(x.as_str()).len() > 0 && chars::eq_ignore_case(x.as_str(), ty) {
            return Some(j);
        }
        j += 1;
    }
    None
}

fn gap_source_exec(spec: &MatterSpec, ps: &Vec<Precedent>, sk: usize, ty: &str) -> (r: Option<(usize, usize)>)
    ensures
        match r {
            Some((k, j)) => gap_source(*spec, ps@, sk as int, ty@, 0) == Some((k as int, j as int)) && k < ps@.len(),
            None => gap_source(*spec, ps@, sk as int, ty@, 0) is None,
        },
{
    let mut k: usize = 0;
    while k < ps.len()
        invariant
            k <= ps@.len(),
            gap_source(*spec, ps@, sk as int, ty@, 0) == gap_source(*spec, ps@, sk as int, ty@, k as int),
        decreases ps.len() - k,
    {
        if k != sk && is_eligible(spec, &ps[k]) {
            let (t, _ex) = build_tree(spec, &ps[k].clauses);
            match node_of_type_exec(&ps[k].clauses, &t, ty) {
                Some(j) => {
                    return Some((k, j));
                },
                None => {},
            }
        }
        k += 1;
    }
    None
}

pub open spec fn fills_view(v: Seq<(String, usize, usize)>) -> Seq<(Seq<char>, int, int)> {
    v.map_values(|x: (String, usize, usize)| (x.0@, x.1 as int, x.2 as int))
}

fn find_fills(spec: &MatterSpec, ps: &Vec<Precedent>, sk: usize, gaps: &Vec<String>) -> (r: (Vec<(String, usize, usize)>, Vec<String>))
    ensures
        fills_view(r.0@) == fills_of(*spec, ps@, sk as int, views(gaps@), gaps@.len() as int).0,
        views(r.1@) == fills_of(*spec, ps@, sk as int, views(gaps@), gaps@.len() as int).1,
        forall|q: int| 0 <= q < r.0@.len() ==> (#[trigger] r.0@[q]).1 < ps@.len(),
{
    let ghost gv = views(gaps@);
    let mut fills: Vec<(String, usize, usize)> = Vec::new();
    let mut missing: Vec<String> = Vec::new();
    let mut i: usize = 0;
    while i < gaps.len()
        invariant
            i <= gaps@.len(),
            gv == views(gaps@),
            fills_view(fills@) == fills_of(*spec, ps@, sk as int, gv, i as int).0,
            views(missing@) == fills_of(*spec, ps@, sk as int, gv, i as int).1,
            forall|q: int| 0 <= q < fills@.len() ==> (#[trigger] fills@[q]).1 < ps@.len(),
        decreases gaps.len() - i,
    {
        assert(gv[i as int] == gaps@[i as int]@);
        match gap_source_exec(spec, ps, sk, gaps[i].as_str()) {
            Some((k, j)) => {
                let ghost f0 = fills_view(fills@);
                fills.push((gaps[i].clone(), k, j));
                assert(fills_view(fills@) =~= f0.push((gv[i as int], k as int, j as int)));
            },
            None => {
                let ghost m0 = views(missing@);
                missing.push(gaps[i].clone());
                assert(views(missing@) =~= m0.push(gv[i as int]));
            },
        }
        i += 1;
    }
    (fills, missing)
}

fn find_defs(es: &Vec<ExtractedClause>) -> (r: Vec<usize>)
    ensures
        r@.map_values(|u: usize| u as int) == defs_upto(es@, es@.len() as int),
        forall|q: int| 0 <= q < r@.len() ==> (#[trigger] r@[q]) < es@.len(),
{
    let mut out: Vec<usize> = Vec::new();
    let mut terms: Vec<String> = Vec::new();
    let mut i: usize = 0;
    while i < es.len()
        invariant
            i <= es@.len(),
            out@.map_values(|u: usize| u as int) == defs_upto(es@, i as int),
            views(terms@) == defs_upto(es@, i as int).map_values(|k: int| term_of(es@[k])),
            forall|q: int| 0 <= q < out@.len() ==> (#[trigger] out@[q]) < i,
        decreases es.len() - i,
    {
        let e = &es[i];
        if e.kind == ClauseKind::Definition {
            match &e.term {
                Some(t) => {
                    if chars_of(t.as_str()).len() > 0 && !strs::contains_exact(&terms, t.as_str()) {
                        let ghost o0 = out@.map_values(|u: usize| u as int);
                        let ghost t0 = views(terms@);
                        out.push(i);
                        terms.push(t.clone());
                        assert(out@.map_values(|u: usize| u as int) =~= o0.push(i as int));
                        assert(views(terms@) =~= t0.push(term_of(*e)));
                        assert(defs_upto(es@, i + 1) == o0.push(i as int));
                        assert(defs_upto(es@, i + 1).map_values(|k: int| term_of(es@[k])) =~= t0.push(term_of(*e)));
                    }
                },
                None => {},
            }
        }
        i += 1;
    }
    out
}

fn find_scheds(es: &Vec<ExtractedClause>) -> (r: Vec<usize>)
    ensures
        r@.map_values(|u: usize| u as int) == scheds_upto(es@, es@.len() as int),
        forall|q: int| 0 <= q < r@.len() ==> (#[trigger] r@[q]) < es@.len(),
{
    let mut out: Vec<usize> = Vec::new();
    let mut i: usize = 0;
    while i < es.len()
        invariant
            i <= es@.len(),
            out@.map_values(|u: usize| u as int) == scheds_upto(es@, i as int),
            forall|q: int| 0 <= q < out@.len() ==> (#[trigger] out@[q]) < i,
        decreases es.len() - i,
    {
        if es[i].kind == ClauseKind::Schedule {
            let ghost o0 = out@.map_values(|u: usize| u as int);
            out.push(i);
            assert(out@.map_values(|u: usize| u as int) =~= o0.push(i as int));
        }
        i += 1;
    }
    out
}

/// A clause's text in the draft: its precedent body with the matter's
/// variables substituted, and, for the skeleton's own clauses, its
/// cross-references renumbered.
pub open spec fn redraft(s: Seq<char>, vars: Seq<(Seq<char>, Seq<char>)>, map: Seq<(Seq<char>, Seq<char>)>, remap: bool) -> Seq<char> {
    if remap { renumbered(substitution(s, vars), map) } else { substitution(s, vars) }
}

pub open spec fn draft_text(e: ExtractedClause, vars: Seq<(Seq<char>, Seq<char>)>, map: Seq<(Seq<char>, Seq<char>)>, remap: bool) -> Seq<char> {
    redraft(e.body@, vars, map, remap)
}

/// The original XML of an object's body paragraphs, with the same
/// substitution and renumbering as its text.
pub open spec fn draft_xml(e: ExtractedClause, vars: Seq<(Seq<char>, Seq<char>)>, map: Seq<(Seq<char>, Seq<char>)>, remap: bool) -> Seq<Seq<char>> {
    views(e.ooxml@).map_values(|x: Seq<char>| redraft(x, vars, map, remap))
}

/// A drafted clause: its number and heading, its text as paragraphs, the
/// defined terms and cross-references its text holds, its precedent's
/// original XML, and provenance back to its precedent.
pub open spec fn drafted(c: LirClause, number: Seq<char>, heading: Seq<char>, text: Seq<char>, p: Precedent,
    terms: Seq<Seq<char>>, xml: Seq<Seq<char>>, heading_xml: Option<Seq<char>>) -> bool
{
    &&& c.number@ == number
    &&& c.heading@ == heading
    &&& paras(c.body@, body_paragraphs(text))
    &&& views(c.defined_terms_used@) == terms_in(text, terms)
    &&& strictly_sorted(views(c.cross_refs@))
    &&& views(c.cross_refs@).to_set() == refs_from(text, 0).to_set()
    &&& opt_view(c.provenance.source) == Some(p.source_name@)
    &&& opt_view(c.provenance.file) == Some(p.file@)
    &&& c.provenance.original_clause_id is None
    &&& !c.provenance.adapted_by_model
    &&& views(c.source_ooxml@) == xml
    &&& opt_view(c.heading_ooxml) == heading_xml
}

/// The `k`-th (0-based) top-level clause of a draft, built from a node of a
/// precedent's tree: numbered `k+1`, its sub-clauses numbered under it.
pub open spec fn node_clause(c: LirClause, k: int, p: Precedent, node: (int, Seq<int>), vars: Seq<(Seq<char>, Seq<char>)>,
    map: Seq<(Seq<char>, Seq<char>)>, remap: bool, terms: Seq<Seq<char>>) -> bool
{
    let es = p.clauses@;
    &&& drafted(c, decimal((k + 1) as nat), top_heading(es[node.0]), draft_text(es[node.0], vars, map, remap), p, terms,
            draft_xml(es[node.0], vars, map, remap), opt_view(es[node.0].heading_ooxml))
    &&& c.children@.len() == node.1.len()
    &&& forall|j: int| 0 <= j < node.1.len() ==> drafted(#[trigger] c.children@[j], sub_number(k, j), sub_heading(es[node.1[j]]),
            draft_text(es[node.1[j]], vars, map, remap), p, terms,
            draft_xml(es[node.1[j]], vars, map, remap), opt_view(es[node.1[j]].heading_ooxml))
        && c.children@[j].children@.len() == 0
}

/// A definition carried over from the skeleton.
pub open spec fn definition_of(d: Definition, e: ExtractedClause, p: Precedent, vars: Seq<(Seq<char>, Seq<char>)>) -> bool {
    &&& d.term@ == term_of(e)
    &&& paras(d.body@, body_paragraphs(substitution(e.body@, vars)))
    &&& opt_view(d.provenance.source) == Some(p.source_name@)
    &&& opt_view(d.provenance.file) == Some(p.file@)
    &&& d.provenance.original_clause_id is None
    &&& !d.provenance.adapted_by_model
    &&& d.ooxml@.len() == 0
}

/// A schedule carried over from the skeleton, under its own title as
/// written ("Schedule" when it has none).
pub open spec fn schedule_of(sc: Schedule, e: ExtractedClause, p: Precedent, vars: Seq<(Seq<char>, Seq<char>)>) -> bool {
    &&& sc.title@ == (match e.heading {
        Some(h) => if chars::trim(h@).len() > 0 { h@ } else { "Schedule"@ },
        None => "Schedule"@,
    })
    &&& paras(sc.body@, body_paragraphs(substitution(e.body@, vars)))
    &&& opt_view(sc.provenance.source) == Some(p.source_name@)
    &&& opt_view(sc.provenance.file) == Some(p.file@)
    &&& sc.provenance.original_clause_id is None
    &&& !sc.provenance.adapted_by_model
    &&& views(sc.source_ooxml@) == draft_xml(e, vars, Seq::empty(), false)
    &&& opt_view(sc.heading_ooxml) == opt_view(e.heading_ooxml)
}

/// The note a draft carries when its skeleton is not of the matter's
/// contract type.
pub open spec fn mismatch_note() -> Seq<char> {
    "the skeleton precedent is not of the matter's contract type; its structure was used as it stands"@
}

fn provenance_of(p: &Precedent) -> (r: Provenance)
    ensures
        opt_view(r.source) == Some(p.source_name@),
        opt_view(r.file) == Some(p.file@),
        r.original_clause_id is None,
        !r.adapted_by_model,
{
    Provenance { source: Some(p.source_name.clone()), file: Some(p.file.clone()), original_clause_id: None, adapted_by_model: false }
}

fn draft_clause(p: &Precedent, e: &ExtractedClause, number: String, heading: String, vars: &Vec<(String, String)>,
    map: &Vec<(String, String)>, remap: bool, terms: &Vec<String>) -> (c: LirClause)
    ensures
        drafted(c, number@, heading@, draft_text(*e, pairs_view(vars@), pairs_view(map@), remap), *p, views(terms@),
            draft_xml(*e, pairs_view(vars@), pairs_view(map@), remap), opt_view(e.heading_ooxml)),
        c.children@.len() == 0,
{
    let text = redraft_exec(e.body.as_str(), vars, map, remap);
    LirClause {
        id: new_id(),
        number,
        heading,
        body: text_to_blocks(text.as_str()),
        children: Vec::new(),
        cross_refs: cross_refs(text.as_str()),
        defined_terms_used: terms_used(text.as_str(), terms.as_slice()),
        provenance: provenance_of(p),
        source_ooxml: redraft_all(&e.ooxml, vars, map, remap),
        heading_ooxml: copy_opt(&e.heading_ooxml),
    }
}

fn redraft_exec(s: &str, vars: &Vec<(String, String)>, map: &Vec<(String, String)>, remap: bool) -> (r: String)
    ensures
        r@ == redraft(s@, pairs_view(vars@), pairs_view(map@), remap),
{
    let sub = substitute(s, vars);
    if remap { renumber_refs(sub.as_str(), map) } else { sub }
}

fn redraft_all(xs: &Vec<String>, vars: &Vec<(String, String)>, map: &Vec<(String, String)>, remap: bool) -> (r: Vec<String>)
    ensures
        views(r@) == views(xs@).map_values(|x: Seq<char>| redraft(x, pairs_view(vars@), pairs_view(map@), remap)),
{
    let ghost target = views(xs@).map_values(|x: Seq<char>| redraft(x, pairs_view(vars@), pairs_view(map@), remap));
    let mut out: Vec<String> = Vec::new();
    let mut i: usize = 0;
    while i < xs.len()
        invariant
            i <= xs@.len(),
            target == views(xs@).map_values(|x: Seq<char>| redraft(x, pairs_view(vars@), pairs_view(map@), remap)),
            views(out@) == target.take(i as int),
        decreases xs.len() - i,
    {
        let ghost o0 = views(out@);
        out.push(redraft_exec(xs[i].as_str(), vars, map, remap));
        i += 1;
        assert(views(out@) =~= o0.push(target[i - 1]));
        assert(target.take(i as int) =~= target.take(i - 1).push(target[i - 1]));
    }
    assert(target.take(xs@.len() as int) =~= target);
    out
}

fn draft_node(p: &Precedent, t: &Vec<(usize, Vec<usize>)>, q: usize, k: usize, vars: &Vec<(String, String)>,
    map: &Vec<(String, String)>, remap: bool, terms: &Vec<String>) -> (c: LirClause)
    requires
        q < t@.len(),
        k + 1 < usize::MAX,
        tree_below(tree_view(t@), p.clauses@.len() as int),
    ensures
        node_clause(c, k as int, *p, tree_view(t@)[q as int], pairs_view(vars@), pairs_view(map@), remap, views(terms@)),
{
    let ghost tv = tree_view(t@);
    let ghost es = p.clauses@;
    assert(tv[q as int].0 == t@[q as int].0 as int);
    let e = &p.clauses[t[q].0];
    let ty = type_text(e);
    let h = heading_of(ty.as_str(), &e.heading);
    let mut c = draft_clause(p, e, decimal_string(k + 1), h, vars, map, remap, terms);
    let subs = &t[q].1;
    assert(tv[q as int].1 == subs@.map_values(|u: usize| u as int));
    let mut kids: Vec<LirClause> = Vec::new();
    let mut j: usize = 0;
    while j < subs.len()
        invariant
            j <= subs@.len(),
            q < t@.len(),
            k + 1 < usize::MAX,
            tv == tree_view(t@),
            es == p.clauses@,
            tree_below(tv, es.len() as int),
            *subs == t@[q as int].1,
            tv[q as int].1 == subs@.map_values(|u: usize| u as int),
            kids@.len() == j,
            forall|m: int| 0 <= m < j ==> drafted(#[trigger] kids@[m], sub_number(k as int, m), sub_heading(es[tv[q as int].1[m]]),
                draft_text(es[tv[q as int].1[m]], pairs_view(vars@), pairs_view(map@), remap), *p, views(terms@),
                draft_xml(es[tv[q as int].1[m]], pairs_view(vars@), pairs_view(map@), remap), opt_view(es[tv[q as int].1[m]].heading_ooxml))
                && kids@[m].children@.len() == 0,
        decreases subs.len() - j,
    {
        assert(tv[q as int].1[j as int] == subs@[j as int] as int);
        assert(0 <= tv[q as int].1[j as int] < es.len());
        let se = &p.clauses[subs[j]];
        let sh = heading_of("", &se.heading);
        proof {
            reveal_strlit("");
            assert(""@ =~= Seq::<char>::empty());
        }
        let sn = sub_number_exec(k, j);
        let kid = draft_clause(p, se, sn, sh, vars, map, remap, terms);
        kids.push(kid);
        j += 1;
    }
    c.children = kids;
    c
}

fn draft_definition(p: &Precedent, e: &ExtractedClause, vars: &Vec<(String, String)>) -> (d: Definition)
    ensures
        definition_of(d, *e, *p, pairs_view(vars@)),
{
    let text = substitute(e.body.as_str(), vars);
    let term = match &e.term {
        Some(t) => t.clone(),
        None => String::new(),
    };
    Definition { term, body: text_to_blocks(text.as_str()), provenance: provenance_of(p), ooxml: Vec::new() }
}

fn draft_schedule(p: &Precedent, e: &ExtractedClause, vars: &Vec<(String, String)>) -> (sc: Schedule)
    ensures
        schedule_of(sc, *e, *p, pairs_view(vars@)),
{
    let text = substitute(e.body.as_str(), vars);
    let no_map: Vec<(String, String)> = Vec::new();
    assert(pairs_view(no_map@) =~= Seq::<(Seq<char>, Seq<char>)>::empty());
    let title = match &e.heading {
        Some(h) => if chars::trim_str(h.as_str()).len() > 0 { h.clone() } else { owned("Schedule") },
        None => owned("Schedule"),
    };
    Schedule {
        id: new_id(),
        title,
        body: text_to_blocks(text.as_str()),
        provenance: provenance_of(p),
        source_ooxml: redraft_all(&e.ooxml, vars, &no_map, false),
        heading_ooxml: copy_opt(&e.heading_ooxml),
    }
}

proof fn lemma_required_short(ct: Seq<char>)
    ensures
        required_of(ct).len() <= 16,
{
    let t = checklist::rule_table();
    assert(t.len() == 6);
    assert(t[0].1.len() == 6 && t[1].1.len() == 9 && t[2].1.len() == 6);
    assert(t[3].1.len() == 7 && t[4].1.len() == 8 && t[5].1.len() == 6);
    if pos_ci(checklist::rule_types(), ct) >= 0 {
        strs::lemma_pos_ci(checklist::rule_types(), ct);
    }
}

proof fn lemma_with_includes_len(base: Seq<Seq<char>>, extra: Seq<Seq<char>>)
    ensures
        with_includes(base, extra).len() <= base.len() + extra.len(),
    decreases extra.len(),
{
    if extra.len() > 0 {
        lemma_with_includes_len(base, extra.drop_last());
    }
}

proof fn lemma_tree_len(spec: MatterSpec, es: Seq<ExtractedClause>, n: int)
    requires
        0 <= n,
    ensures
        tree_upto(spec, es, n).0.len() <= n,
    decreases n,
{
    if n > 0 {
        lemma_tree_len(spec, es, n - 1);
    }
}

proof fn lemma_gaps_len(req: Seq<Seq<char>>, present: Seq<Seq<char>>, excl: Seq<Seq<char>>, n: int)
    requires
        0 <= n,
    ensures
        gaps_of(req, present, excl, n).len() <= n,
    decreases n,
{
    if n > 0 {
        lemma_gaps_len(req, present, excl, n - 1);
    }
}

proof fn lemma_node_bound(es: Seq<ExtractedClause>, t: Seq<(int, Seq<int>)>, ty: Seq<char>, j: int)
    requires
        0 <= j,
    ensures
        node_of_type(es, t, ty, j) matches Some(b) ==> j <= b < t.len(),
    decreases t.len() - j,
{
    if j < t.len() {
        lemma_node_bound(es, t, ty, j + 1);
    }
}

proof fn lemma_gap_source_bound(spec: MatterSpec, ps: Seq<Precedent>, sk: int, ty: Seq<char>, k: int)
    requires
        0 <= k,
    ensures
        gap_source(spec, ps, sk, ty, k) matches Some((a, b)) ==> 0 <= a < ps.len()
            && 0 <= b < tree_of(spec, ps[a].clauses@).len(),
    decreases ps.len() - k,
{
    if k < ps.len() {
        lemma_node_bound(ps[k].clauses@, tree_of(spec, ps[k].clauses@), ty, 0);
        lemma_gap_source_bound(spec, ps, sk, ty, k + 1);
    }
}

proof fn lemma_fills(spec: MatterSpec, ps: Seq<Precedent>, sk: int, gaps: Seq<Seq<char>>, n: int)
    requires
        0 <= n <= gaps.len(),
    ensures
        fills_of(spec, ps, sk, gaps, n).0.len() <= n,
        forall|g: int| 0 <= g < fills_of(spec, ps, sk, gaps, n).0.len() ==>
            0 <= (#[trigger] fills_of(spec, ps, sk, gaps, n).0[g]).1 < ps.len()
            && 0 <= fills_of(spec, ps, sk, gaps, n).0[g].2 < tree_of(spec, ps[fills_of(spec, ps, sk, gaps, n).0[g].1].clauses@).len(),
    decreases n,
{
    if n > 0 {
        lemma_fills(spec, ps, sk, gaps, n - 1);
        lemma_gap_source_bound(spec, ps, sk, gaps[n - 1], 0);
        let r = fills_of(spec, ps, sk, gaps, n - 1);
        let f = fills_of(spec, ps, sk, gaps, n);
        assert forall|g: int| 0 <= g < f.0.len() implies 0 <= (#[trigger] f.0[g]).1 < ps.len()
            && 0 <= f.0[g].2 < tree_of(spec, ps[f.0[g].1].clauses@).len() by {
            if g < r.0.len() {
                assert(f.0[g] == r.0[g]);
            }
        }
    }
}

/// What assembling a matter from its precedents gives, with the skeleton
/// at position `sk` of the precedents.
pub open spec fn drafted_from(spec: MatterSpec, ps: Seq<Precedent>, sk: int, exact: bool, d: AssembledDraft) -> bool {
    let p = ps[sk];
    let es = p.clauses@;
    let vars = pairs_view(spec.variables@);
    let tr = tree_upto(spec, es, es.len() as int);
    let t = tr.0;
    let map = tree_map(es, t, t.len() as int);
    let defs = defs_upto(es, es.len() as int);
    let terms = defs.map_values(|i: int| term_of(es[i]));
    let scheds = scheds_upto(es, es.len() as int);
    let gaps = gap_types(spec, es);
    let fl = fills_of(spec, ps, sk, gaps, gaps.len() as int);
    let doc = d.document;
    let rep = d.report;
    &&& doc.lir_version@ == crate::lir::lir_version()
    &&& doc.meta.title@ == (if chars::trim(spec.title@).len() == 0 { spec.contract_type@ } else { spec.title@ })
    &&& doc.meta.contract_type@ == spec.contract_type@
    &&& doc.meta.jurisdiction == spec.jurisdiction
    &&& doc.meta.language@ == spec.language@
    &&& opt_view(doc.meta.matter_id) == Some(spec.matter_id@)
    &&& doc.parties@.len() == spec.parties@.len()
    &&& forall|i: int| 0 <= i < doc.parties@.len() ==> party_from(#[trigger] doc.parties@[i], spec.parties@[i])
    &&& doc.recitals@.len() == 1
    &&& doc.recitals@[0].body@.len() == 1
    &&& doc.recitals@[0].body@[0] matches Block::Paragraph { runs }
        && runs_view(runs@) == recital_runs(spec.contract_type@, spec.parties@)
    &&& doc.execution.blocks@.len() == spec.parties@.len()
    &&& forall|i: int| 0 <= i < doc.execution.blocks@.len() ==> signature_for(#[trigger] doc.execution.blocks@[i], spec.parties@[i])
    &&& doc.clauses@.len() == t.len() + fl.0.len()
    &&& forall|q: int| 0 <= q < t.len() ==> node_clause(#[trigger] doc.clauses@[q], q, p, t[q], vars, map, true, terms)
    &&& forall|g: int| 0 <= g < fl.0.len() ==> node_clause(#[trigger] doc.clauses@[t.len() + g], t.len() + g,
            ps[fl.0[g].1], tree_of(spec, ps[fl.0[g].1].clauses@)[fl.0[g].2], vars, Seq::empty(), false, terms)
    &&& doc.definitions@.len() == defs.len()
    &&& forall|i: int| 0 <= i < defs.len() ==> definition_of(#[trigger] doc.definitions@[i], es[defs[i]], p, vars)
    &&& doc.schedules@.len() == scheds.len()
    &&& forall|i: int| 0 <= i < scheds.len() ==> schedule_of(#[trigger] doc.schedules@[i], es[scheds[i]], p, vars)
    &&& rep.skeleton matches Some(si) && si.source_name@ == p.source_name@ && si.file@ == p.file@ && si.exact_type_match == exact
    &&& rep.gap_filled@.len() == fl.0.len()
    &&& forall|g: int| 0 <= g < fl.0.len() ==> (#[trigger] rep.gap_filled@[g]).0@ == fl.0[g].0
        && rep.gap_filled@[g].1@ == ps[fl.0[g].1].source_name@ && rep.gap_filled@[g].2@ == ps[fl.0[g].1].file@
    &&& views(rep.missing@) == fl.1
    &&& views(rep.excluded@) == tr.2
    &&& views(rep.notes@) == (if exact { Seq::<Seq<char>>::empty() } else { seq![mismatch_note()] })
    &&& views(rep.definitions@) == terms
}

/// Assemble a draft of the matter from its precedents. The skeleton is the
/// precedent the matter names, else the first of its contract type, else the
/// first with any content; the draft takes the skeleton's structure: every
/// top-level clause the matter does not exclude, in order and numbered from
/// 1, with its sub-clauses numbered under it, every cross-reference mapped
/// through that renumbering, the matter's `{{variables}}` substituted, and
/// the skeleton's definitions and schedules carried over. A clause type the
/// matter asks for (its checklist's required types and its own inclusions)
/// that the skeleton lacks is filled from the first other precedent that has
/// one, after the skeleton's clauses, and reported; one that none has is
/// reported missing. With `approved_only`, only precedents whose every
/// object is marked approved are drawn on. Drafting with no precedent at all
/// is an error.
pub fn assemble(spec: &MatterSpec, precedents: &Vec<Precedent>) -> (r: Result<AssembledDraft, CoreError>)
    requires
        forall|i: int| 0 <= i < precedents@.len() ==> (#[trigger] precedents@[i]).clauses@.len() < usize::MAX / 4,
        spec.include_clause_types@.len() < usize::MAX / 4,
    ensures
        r is Err <==> skeleton_choice(*spec, precedents@) is None,
        r matches Err(e) ==> e matches CoreError::Assembly(m) && m@ == no_precedent_message(),
        r matches Ok(d) ==> skeleton_choice(*spec, precedents@) matches Some((sk, exact))
            && drafted_from(*spec, precedents@, sk, exact, d),
{
    let (sk, exact) = match choose_skeleton(spec, precedents) {
        Some(x) => x,
        None => {
            return Err(CoreError::Assembly(owned("no precedent found to draft this matter from; attach a source with precedents of this kind")));
        },
    };
    let p = &precedents[sk];
    let ghost es = p.clauses@;
    let ghost vars = pairs_view(spec.variables@);
    assert(precedents@[sk as int].clauses@.len() < usize::MAX / 4);
    let (t, excluded) = build_tree(spec, &p.clauses);
    proof {
        lemma_tree_len(*spec, es, es.len() as int);
    }
    let map = build_map(&p.clauses, &t);
    let defs_idx = find_defs(&p.clauses);
    let mut terms: Vec<String> = Vec::new();
    let mut definitions: Vec<Definition> = Vec::new();
    let ghost defs = defs_upto(es, es.len() as int);
    let mut i: usize = 0;
    while i < defs_idx.len()
        invariant
            i <= defs_idx@.len(),
            defs_idx@.map_values(|u: usize| u as int) == defs,
            forall|q: int| 0 <= q < defs_idx@.len() ==> (#[trigger] defs_idx@[q]) < es.len(),
            es == p.clauses@,
            vars == pairs_view(spec.variables@),
            views(terms@) == defs.map_values(|k: int| term_of(es[k])).take(i as int),
            definitions@.len() == i,
            forall|q: int| 0 <= q < i ==> definition_of(#[trigger] definitions@[q], es[defs[q]], *p, vars),
        decreases defs_idx.len() - i,
    {
        assert(defs[i as int] == defs_idx@[i as int] as int);
        let e = &p.clauses[defs_idx[i]];
        let ghost t0 = views(terms@);
        let tt = match &e.term {
            Some(x) => x.clone(),
            None => String::new(),
        };
        terms.push(tt);
        assert(views(terms@) =~= t0.push(term_of(*e)));
        assert(defs.map_values(|k: int| term_of(es[k])).take(i + 1)
            =~= defs.map_values(|k: int| term_of(es[k])).take(i as int).push(term_of(es[defs[i as int]])));
        definitions.push(draft_definition(p, e, &spec.variables));
        i += 1;
    }
    assert(defs.map_values(|k: int| term_of(es[k])).take(defs_idx@.len() as int) =~= defs.map_values(|k: int| term_of(es[k])));
    let sched_idx = find_scheds(&p.clauses);
    let ghost scheds = scheds_upto(es, es.len() as int);
    let mut schedules: Vec<Schedule> = Vec::new();
    let mut i: usize = 0;
    while i < sched_idx.len()
        invariant
            i <= sched_idx@.len(),
            sched_idx@.map_values(|u: usize| u as int) == scheds,
            forall|q: int| 0 <= q < sched_idx@.len() ==> (#[trigger] sched_idx@[q]) < es.len(),
            es == p.clauses@,
            vars == pairs_view(spec.variables@),
            schedules@.len() == i,
            forall|q: int| 0 <= q < i ==> schedule_of(#[trigger] schedules@[q], es[scheds[q]], *p, vars),
        decreases sched_idx.len() - i,
    {
        assert(scheds[i as int] == sched_idx@[i as int] as int);
        schedules.push(draft_schedule(p, &p.clauses[sched_idx[i]], &spec.variables));
        i += 1;
    }
    let gaps = find_gaps(spec, &p.clauses, &t);
    proof {
        lemma_required_short(spec.contract_type@);
        lemma_with_includes_len(required_of(spec.contract_type@), views(spec.include_clause_types@));
        lemma_gaps_len(wanted_of(*spec), tree_types(es, tree_of(*spec, es)),
            views(spec.exclude_clause_types@), wanted_of(*spec).len() as int);
    }
    let (fills, missing) = find_fills(spec, precedents, sk, &gaps);
    let ghost fl = fills_of(*spec, precedents@, sk as int, views(gaps@), gaps@.len() as int);
    proof {
        lemma_fills(*spec, precedents@, sk as int, views(gaps@), gaps@.len() as int);
    }

    let title = if chars::trim_str(spec.title.as_str()).len() == 0 {
        spec.contract_type.clone()
    } else {
        spec.title.clone()
    };
    let meta = LirMeta {
        title,
        contract_type: spec.contract_type.clone(),
        jurisdiction: copy_opt(&spec.jurisdiction),
        language: spec.language.clone(),
        matter_id: Some(spec.matter_id.clone()),
        created_at: now_utc(),
    };
    let mut doc = LirDocument::new(meta);
    doc.parties = build_parties(spec);
    doc.recitals = build_recitals(spec);
    doc.execution = build_execution(spec);

    let ghost tv = tree_view(t@);
    let ghost mv = pairs_view(map@);
    let ghost tm = defs.map_values(|k: int| term_of(es[k]));
    let mut clauses: Vec<LirClause> = Vec::new();
    let mut q: usize = 0;
    while q < t.len()
        invariant
            q <= t@.len(),
            t@.len() <= es.len() < usize::MAX / 4,
            tv == tree_view(t@),
            tv == tree_upto(*spec, es, es.len() as int).0,
            tree_below(tv, es.len() as int),
            es == p.clauses@,
            mv == tree_map(es, tv, tv.len() as int),
            mv == pairs_view(map@),
            vars == pairs_view(spec.variables@),
            views(terms@) == tm,
            clauses@.len() == q,
            forall|m: int| 0 <= m < q ==> node_clause(#[trigger] clauses@[m], m, *p, tv[m], vars, mv, true, tm),
        decreases t.len() - q,
    {
        let ghost before = clauses@;
        clauses.push(draft_node(p, &t, q, q, &spec.variables, &map, true, &terms));
        assert forall|m: int| 0 <= m < q + 1 implies node_clause(#[trigger] clauses@[m], m, *p, tv[m], vars, mv, true, tm) by {
            if m < q {
                assert(clauses@[m] == before[m]);
            }
        }
        q += 1;
    }
    let no_map: Vec<(String, String)> = Vec::new();
    assert(pairs_view(no_map@) =~= Seq::<(Seq<char>, Seq<char>)>::empty());
    let mut gap_filled: Vec<(String, String, String)> = Vec::new();
    let mut g: usize = 0;
    while g < fills.len()
        invariant
            g <= fills@.len(),
            fills_view(fills@) == fl.0,
            fl.0.len() <= 16 + spec.include_clause_types@.len(),
            spec.include_clause_types@.len() < usize::MAX / 4,
            forall|x: int| 0 <= x < fl.0.len() ==> 0 <= (#[trigger] fl.0[x]).1 < precedents@.len()
                && 0 <= fl.0[x].2 < tree_of(*spec, precedents@[fl.0[x].1].clauses@).len(),
            forall|i: int| 0 <= i < precedents@.len() ==> (#[trigger] precedents@[i]).clauses@.len() < usize::MAX / 4,
            t@.len() <= es.len() < usize::MAX / 4,
            tv == tree_view(t@),
            vars == pairs_view(spec.variables@),
            views(terms@) == tm,
            pairs_view(no_map@) == Seq::<(Seq<char>, Seq<char>)>::empty(),
            clauses@.len() == t@.len() + g,
            forall|m: int| 0 <= m < t@.len() ==> node_clause(#[trigger] clauses@[m], m, *p, tv[m], vars, mv, true, tm),
            forall|x: int| 0 <= x < g ==> node_clause(#[trigger] clauses@[t@.len() + x], t@.len() + x,
                precedents@[fl.0[x].1], tree_of(*spec, precedents@[fl.0[x].1].clauses@)[fl.0[x].2], vars, Seq::empty(), false, tm),
            gap_filled@.len() == g,
            forall|x: int| 0 <= x < g ==> (#[trigger] gap_filled@[x]).0@ == fl.0[x].0
                && gap_filled@[x].1@ == precedents@[fl.0[x].1].source_name@ && gap_filled@[x].2@ == precedents@[fl.0[x].1].file@,
        decreases fills.len() - g,
    {
        let k = fills[g].1;
        let j = fills[g].2;
        assert(fl.0[g as int] == (fills@[g as int].0@, k as int, j as int));
        let src = &precedents[k];
        let (tk, _ex) = build_tree(spec, &src.clauses);
        let ghost before = clauses@;
        let c = draft_node(src, &tk, j, t.len() + g, &spec.variables, &no_map, false, &terms);
        clauses.push(c);
        assert forall|m: int| 0 <= m < t@.len() implies node_clause(#[trigger] clauses@[m], m, *p, tv[m], vars, mv, true, tm) by {
            assert(clauses@[m] == before[m]);
        }
        assert forall|x: int| 0 <= x < g + 1 implies node_clause(#[trigger] clauses@[t@.len() + x], t@.len() + x,
            precedents@[fl.0[x].1], tree_of(*spec, precedents@[fl.0[x].1].clauses@)[fl.0[x].2], vars, Seq::empty(), false, tm) by {
            if x < g {
                assert(clauses@[t@.len() + x] == before[t@.len() + x]);
            }
        }
        gap_filled.push((fills[g].0.clone(), src.source_name.clone(), src.file.clone()));
        g += 1;
    }
    doc.clauses = clauses;
    doc.definitions = definitions;
    doc.schedules = schedules;
    let mut notes: Vec<String> = Vec::new();
    if !exact {
        notes.push(owned("the skeleton precedent is not of the matter's contract type; its structure was used as it stands"));
        assert(views(notes@) =~= seq![mismatch_note()]);
    } else {
        assert(views(notes@) =~= Seq::<Seq<char>>::empty());
    }
    let report = AssemblyReport {
        skeleton: Some(SkeletonInfo { source_name: p.source_name.clone(), file: p.file.clone(), exact_type_match: exact }),
        gap_filled,
        missing,
        excluded,
        notes,
        definitions: terms,
    };
    Ok(AssembledDraft { document: doc, report })
}

/// The shape of the clause tree of the first `n` objects: its parents are
/// the top-level clauses not excluded, each exactly once and in the
/// precedent's order, and each child is a sub-clause after its parent.
proof fn lemma_tree_shape(spec: MatterSpec, es: Seq<ExtractedClause>, n: int)
    requires
        0 <= n <= es.len(),
    ensures
        forall|q: int| 0 <= q < tree_upto(spec, es, n).0.len() ==> 0 <= (#[trigger] tree_upto(spec, es, n).0[q]).0 < n
            && is_top(es[tree_upto(spec, es, n).0[q].0]) && !excluded_by(spec, es[tree_upto(spec, es, n).0[q].0]),
        forall|q1: int, q2: int| 0 <= q1 < q2 < tree_upto(spec, es, n).0.len() ==>
            (#[trigger] tree_upto(spec, es, n).0[q1]).0 < (#[trigger] tree_upto(spec, es, n).0[q2]).0,
        forall|i: int| 0 <= i < n && is_top(#[trigger] es[i]) && !excluded_by(spec, es[i]) ==>
            exists|q: int| 0 <= q < tree_upto(spec, es, n).0.len() && (#[trigger] tree_upto(spec, es, n).0[q]).0 == i,
        forall|q: int, m: int| 0 <= q < tree_upto(spec, es, n).0.len() && 0 <= m < (#[trigger] tree_upto(spec, es, n).0[q]).1.len() ==>
            tree_upto(spec, es, n).0[q].0 < #[trigger] tree_upto(spec, es, n).0[q].1[m] < n
            && is_sub(es[tree_upto(spec, es, n).0[q].1[m]]),
    decreases n,
{
    if n > 0 {
        lemma_tree_shape(spec, es, n - 1);
        let prev = tree_upto(spec, es, n - 1);
        let t0 = prev.0;
        let t = tree_upto(spec, es, n).0;
        let e = es[n - 1];
        if is_top(e) && !excluded_by(spec, e) {
            assert(t == t0.push((n - 1, Seq::<int>::empty())));
            assert forall|i: int| 0 <= i < n && is_top(#[trigger] es[i]) && !excluded_by(spec, es[i]) implies
                exists|q: int| 0 <= q < t.len() && (#[trigger] t[q]).0 == i by {
                if i < n - 1 {
                    let q = choose|q: int| 0 <= q < t0.len() && (#[trigger] t0[q]).0 == i;
                    assert(t[q] == t0[q]);
                } else {
                    assert(t[t0.len() as int].0 == i);
                }
            }
            assert forall|q: int, m: int| 0 <= q < t.len() && 0 <= m < (#[trigger] t[q]).1.len() implies
                t[q].0 < #[trigger] t[q].1[m] < n && is_sub(es[t[q].1[m]]) by {
                if q < t0.len() {
                    assert(t[q] == t0[q]);
                }
            }
        } else if !is_top(e) && is_sub(e) && !prev.1 && t0.len() > 0 {
            let l = t0.len() - 1;
            assert(t == t0.update(l, (t0[l].0, t0[l].1.push(n - 1))));
            assert forall|i: int| 0 <= i < n && is_top(#[trigger] es[i]) && !excluded_by(spec, es[i]) implies
                exists|q: int| 0 <= q < t.len() && (#[trigger] t[q]).0 == i by {
                let q = choose|q: int| 0 <= q < t0.len() && (#[trigger] t0[q]).0 == i;
                assert(t[q].0 == t0[q].0);
            }
            assert forall|q: int, m: int| 0 <= q < t.len() && 0 <= m < (#[trigger] t[q]).1.len() implies
                t[q].0 < #[trigger] t[q].1[m] < n && is_sub(es[t[q].1[m]]) by {
                if q < l {
                    assert(t[q] == t0[q]);
                } else if m < t0[l].1.len() {
                    assert(t[q].1[m] == t0[l].1[m]);
                }
            }
            assert forall|q1: int, q2: int| 0 <= q1 < q2 < t.len() implies
                (#[trigger] t[q1]).0 < (#[trigger] t[q2]).0 by {
                assert(t0[q1].0 < t0[q2].0);
            }
        } else {
            assert(t == t0);
        }
    }
}

/// The order of a clause tree: sub-clauses of one clause come in the
/// precedent's order, and all of them before the next top-level clause.
proof fn lemma_tree_order(spec: MatterSpec, es: Seq<ExtractedClause>, n: int)
    requires
        0 <= n <= es.len(),
    ensures
        forall|q: int, m1: int, m2: int| 0 <= q < tree_upto(spec, es, n).0.len()
            && 0 <= m1 < m2 < tree_upto(spec, es, n).0[q].1.len() ==>
            #[trigger] tree_upto(spec, es, n).0[q].1[m1] < #[trigger] tree_upto(spec, es, n).0[q].1[m2],
        forall|q1: int, q2: int, m: int| 0 <= q1 < q2 < tree_upto(spec, es, n).0.len()
            && 0 <= m < tree_upto(spec, es, n).0[q1].1.len() ==>
            #[trigger] tree_upto(spec, es, n).0[q1].1[m] < (#[trigger] tree_upto(spec, es, n).0[q2]).0,
    decreases n,
{
    if n > 0 {
        lemma_tree_order(spec, es, n - 1);
        lemma_tree_shape(spec, es, n - 1);
        let prev = tree_upto(spec, es, n - 1);
        let t0 = prev.0;
        let t = tree_upto(spec, es, n).0;
        let e = es[n - 1];
        if is_top(e) && !excluded_by(spec, e) {
            assert(t == t0.push((n - 1, Seq::<int>::empty())));
            assert forall|q: int, m1: int, m2: int| 0 <= q < t.len() && 0 <= m1 < m2 < t[q].1.len() implies
                #[trigger] t[q].1[m1] < #[trigger] t[q].1[m2] by {
                assert(t[q] == t0[q]);
            }
            assert forall|q1: int, q2: int, m: int| 0 <= q1 < q2 < t.len() && 0 <= m < t[q1].1.len() implies
                #[trigger] t[q1].1[m] < (#[trigger] t[q2]).0 by {
                assert(t[q1] == t0[q1]);
                if q2 < t0.len() {
                    assert(t[q2] == t0[q2]);
                } else {
                    assert(t0[q1].1[m] < n - 1);
                }
            }
        } else if !is_top(e) && is_sub(e) && !prev.1 && t0.len() > 0 {
            let l = t0.len() - 1;
            assert(t == t0.update(l, (t0[l].0, t0[l].1.push(n - 1))));
            assert forall|q: int, m1: int, m2: int| 0 <= q < t.len() && 0 <= m1 < m2 < t[q].1.len() implies
                #[trigger] t[q].1[m1] < #[trigger] t[q].1[m2] by {
                if q < l {
                    assert(t[q] == t0[q]);
                } else {
                    if m2 < t0[l].1.len() {
                        assert(t[q].1[m1] == t0[l].1[m1]);
                        assert(t[q].1[m2] == t0[l].1[m2]);
                    } else {
                        assert(t[q].1[m1] == t0[l].1[m1]);
                        assert(t0[l].1[m1] < n - 1);
                    }
                }
            }
            assert forall|q1: int, q2: int, m: int| 0 <= q1 < q2 < t.len() && 0 <= m < t[q1].1.len() implies
                #[trigger] t[q1].1[m] < (#[trigger] t[q2]).0 by {
                assert(q1 < l);
                assert(t[q1] == t0[q1]);
                assert(t[q2].0 == t0[q2].0);
            }
        } else {
            assert(t == t0);
        }
    }
}

/// A successful draft keeps its skeleton's structure: every top-level clause
/// of the skeleton that the matter does not exclude becomes a clause of the
/// draft, numbered by its position, under its own heading, with provenance
/// to the skeleton; those clauses keep the skeleton's order; and none of
/// them is one the matter excludes.
pub proof fn lemma_draft_keeps_skeleton(spec: MatterSpec, ps: Seq<Precedent>, sk: int, exact: bool, d: AssembledDraft)
    requires
        0 <= sk < ps.len(),
        drafted_from(spec, ps, sk, exact, d),
    ensures
        forall|i: int| 0 <= i < ps[sk].clauses@.len() && is_top(#[trigger] ps[sk].clauses@[i])
            && !excluded_by(spec, ps[sk].clauses@[i]) ==>
            exists|q: int| 0 <= q < d.document.clauses@.len()
                && (#[trigger] d.document.clauses@[q]).number@ == decimal((q + 1) as nat)
                && d.document.clauses@[q].heading@ == top_heading(ps[sk].clauses@[i])
                && opt_view(d.document.clauses@[q].provenance.file) == Some(ps[sk].file@),
        forall|q: int| 0 <= q < tree_of(spec, ps[sk].clauses@).len() ==>
            !excluded_by(spec, ps[sk].clauses@[(#[trigger] tree_of(spec, ps[sk].clauses@)[q]).0])
            && d.document.clauses@[q].heading@ == top_heading(ps[sk].clauses@[tree_of(spec, ps[sk].clauses@)[q].0]),
        forall|q1: int, q2: int| 0 <= q1 < q2 < tree_of(spec, ps[sk].clauses@).len() ==>
            (#[trigger] tree_of(spec, ps[sk].clauses@)[q1]).0 < (#[trigger] tree_of(spec, ps[sk].clauses@)[q2]).0,
{
    let es = ps[sk].clauses@;
    let t = tree_of(spec, es);
    lemma_tree_shape(spec, es, es.len() as int);
    assert forall|i: int| 0 <= i < es.len() && is_top(#[trigger] es[i]) && !excluded_by(spec, es[i]) implies
        exists|q: int| 0 <= q < d.document.clauses@.len()
            && (#[trigger] d.document.clauses@[q]).number@ == decimal((q + 1) as nat)
            && d.document.clauses@[q].heading@ == top_heading(es[i])
            && opt_view(d.document.clauses@[q].provenance.file) == Some(ps[sk].file@) by {
        let q = choose|q: int| 0 <= q < t.len() && (#[trigger] t[q]).0 == i;
        assert(node_clause(d.document.clauses@[q], q, ps[sk], t[q], pairs_view(spec.variables@),
            tree_map(es, t, t.len() as int), true, defs_upto(es, es.len() as int).map_values(|k: int| term_of(es[k]))));
    }
    assert forall|q: int| 0 <= q < t.len() implies
        !excluded_by(spec, es[(#[trigger] t[q]).0]) && d.document.clauses@[q].heading@ == top_heading(es[t[q].0]) by {
        assert(node_clause(d.document.clauses@[q], q, ps[sk], t[q], pairs_view(spec.variables@),
            tree_map(es, t, t.len() as int), true, defs_upto(es, es.len() as int).map_values(|k: int| term_of(es[k]))));
    }
}

/// Sub-clauses survive as children: each drafted skeleton clause has one
/// child per sub-clause that follows it in the precedent, numbered under the
/// clause's own number ("k.1", "k.2", ...), each holding its own text.
pub proof fn lemma_draft_keeps_sub_clauses(spec: MatterSpec, ps: Seq<Precedent>, sk: int, exact: bool, d: AssembledDraft, q: int, j: int)
    requires
        0 <= sk < ps.len(),
        drafted_from(spec, ps, sk, exact, d),
        0 <= q < tree_of(spec, ps[sk].clauses@).len(),
        0 <= j < tree_of(spec, ps[sk].clauses@)[q].1.len(),
    ensures
        is_sub(ps[sk].clauses@[tree_of(spec, ps[sk].clauses@)[q].1[j]]),
        tree_of(spec, ps[sk].clauses@)[q].0 < tree_of(spec, ps[sk].clauses@)[q].1[j],
        d.document.clauses@[q].children@.len() == tree_of(spec, ps[sk].clauses@)[q].1.len(),
        d.document.clauses@[q].children@[j].number@ == d.document.clauses@[q].number@ + "."@ + decimal((j + 1) as nat),
        paras(d.document.clauses@[q].children@[j].body@, body_paragraphs(
            draft_text(ps[sk].clauses@[tree_of(spec, ps[sk].clauses@)[q].1[j]], pairs_view(spec.variables@),
                tree_map(ps[sk].clauses@, tree_of(spec, ps[sk].clauses@), tree_of(spec, ps[sk].clauses@).len() as int), true))),
{
    let es = ps[sk].clauses@;
    let t = tree_of(spec, es);
    lemma_tree_shape(spec, es, es.len() as int);
    assert(node_clause(d.document.clauses@[q], q, ps[sk], t[q], pairs_view(spec.variables@),
        tree_map(es, t, t.len() as int), true, defs_upto(es, es.len() as int).map_values(|k: int| term_of(es[k]))));
    assert(t[q].0 < t[q].1[j]);
}

/// Every clause of a successful draft, and every sub-clause, comes from one
/// of the precedents and says so in its provenance; each top-level clause is
/// numbered by its position from 1, and each sub-clause by its position
/// under its parent's number.
pub proof fn lemma_draft_provenance_and_numbering(spec: MatterSpec, ps: Seq<Precedent>, sk: int, exact: bool,
    d: AssembledDraft, q: int)
    requires
        0 <= sk < ps.len(),
        drafted_from(spec, ps, sk, exact, d),
        0 <= q < d.document.clauses@.len(),
        forall|i: int| 0 <= i < ps.len() ==> (#[trigger] ps[i]).clauses@.len() < usize::MAX / 4,
    ensures
        d.document.clauses@[q].number@ == decimal((q + 1) as nat),
        exists|k: int| 0 <= k < ps.len()
            && opt_view(d.document.clauses@[q].provenance.source) == Some(ps[k].source_name@)
            && opt_view(d.document.clauses@[q].provenance.file) == Some(ps[k].file@)
            && forall|j: int| 0 <= j < d.document.clauses@[q].children@.len() ==>
                opt_view((#[trigger] d.document.clauses@[q].children@[j]).provenance.source) == Some(ps[k].source_name@)
                && opt_view(d.document.clauses@[q].children@[j].provenance.file) == Some(ps[k].file@)
                && d.document.clauses@[q].children@[j].number@ == d.document.clauses@[q].number@ + "."@ + decimal((j + 1) as nat),
{
    let es = ps[sk].clauses@;
    let t = tree_of(spec, es);
    let vars = pairs_view(spec.variables@);
    let terms = defs_upto(es, es.len() as int).map_values(|k: int| term_of(es[k]));
    let gaps = gap_types(spec, es);
    let fl = fills_of(spec, ps, sk, gaps, gaps.len() as int);
    let c = d.document.clauses@[q];
    if q < t.len() {
        assert(node_clause(c, q, ps[sk], t[q], vars, tree_map(es, t, t.len() as int), true, terms));
        assert(0 <= sk < ps.len());
    } else {
        let g = q - t.len();
        lemma_fills(spec, ps, sk, gaps, gaps.len() as int);
        assert(node_clause(c, t.len() + g, ps[fl.0[g].1], tree_of(spec, ps[fl.0[g].1].clauses@)[fl.0[g].2], vars,
            Seq::empty(), false, terms));
        let k = fl.0[g].1;
        assert(0 <= k < ps.len());
    }
}

pub open spec fn has_key(m: Seq<(Seq<char>, Seq<char>)>, x: Seq<char>) -> bool {
    exists|i: int| 0 <= i < m.len() && (#[trigger] m[i]).0 == x
}

proof fn lemma_renumber_concat(a: Seq<(Seq<char>, Seq<char>)>, b: Seq<(Seq<char>, Seq<char>)>, x: Seq<char>)
    ensures
        patterns::renumber_of(a + b, x) == if has_key(a, x) { patterns::renumber_of(a, x) } else { patterns::renumber_of(b, x) },
    decreases a.len(),
{
    if a.len() == 0 {
        assert(a + b =~= b);
        assert(!has_key(a, x));
    } else {
        assert((a + b)[0] == a[0]);
        assert((a + b).drop_first() =~= a.drop_first() + b);
        lemma_renumber_concat(a.drop_first(), b, x);
        if a[0].0 != x {
            if has_key(a, x) {
                let i = choose|i: int| 0 <= i < a.len() && (#[trigger] a[i]).0 == x;
                assert(a.drop_first()[i - 1] == a[i]);
            }
            if has_key(a.drop_first(), x) {
                let i = choose|i: int| 0 <= i < a.drop_first().len() && (#[trigger] a.drop_first()[i]).0 == x;
                assert(a[i + 1] == a.drop_first()[i]);
            }
        } else {
            assert(a[0].0 == x);
        }
    }
}

/// The precedent objects a key of a renumbering came from.
proof fn lemma_subs_keys(es: Seq<ExtractedClause>, subs: Seq<int>, k: int, m: int, x: Seq<char>)
    requires
        0 <= m <= subs.len(),
        has_key(subs_map(es, subs, k, m), x),
    ensures
        exists|z: int| 0 <= z < m && opt_view(es[#[trigger] subs[z]].number) == Some(x),
    decreases m,
{
    let prev = subs_map(es, subs, k, m - 1);
    let ent = number_entry(es[subs[m - 1]], sub_number(k, m - 1));
    lemma_renumber_keys_split(prev, ent, x);
    if has_key(prev, x) {
        lemma_subs_keys(es, subs, k, m - 1, x);
        let z = choose|z: int| 0 <= z < m - 1 && opt_view(es[#[trigger] subs[z]].number) == Some(x);
        assert(opt_view(es[subs[z]].number) == Some(x));
    } else {
        assert(has_key(ent, x));
        assert(opt_view(es[subs[m - 1]].number) == Some(x));
    }
}

proof fn lemma_renumber_keys_split(a: Seq<(Seq<char>, Seq<char>)>, b: Seq<(Seq<char>, Seq<char>)>, x: Seq<char>)
    requires
        has_key(a + b, x),
    ensures
        has_key(a, x) || has_key(b, x),
{
    let i = choose|i: int| 0 <= i < (a + b).len() && (#[trigger] (a + b)[i]).0 == x;
    if i < a.len() {
        assert(a[i] == (a + b)[i]);
    } else {
        assert(b[i - a.len()] == (a + b)[i]);
    }
}

proof fn lemma_tree_keys(es: Seq<ExtractedClause>, t: Seq<(int, Seq<int>)>, n: int, x: Seq<char>)
    requires
        0 <= n <= t.len(),
        has_key(tree_map(es, t, n), x),
    ensures
        exists|r: int| 0 <= r < n && (opt_view(es[(#[trigger] t[r]).0].number) == Some(x)
            || exists|z: int| 0 <= z < t[r].1.len() && opt_view(es[#[trigger] t[r].1[z]].number) == Some(x)),
    decreases n,
{
    let a = tree_map(es, t, n - 1);
    let b = number_entry(es[t[n - 1].0], decimal(n as nat));
    let c = subs_map(es, t[n - 1].1, n - 1, t[n - 1].1.len() as int);
    lemma_renumber_keys_split(a + b, c, x);
    if has_key(a + b, x) {
        lemma_renumber_keys_split(a, b, x);
        if has_key(a, x) {
            lemma_tree_keys(es, t, n - 1, x);
            let r = choose|r: int| 0 <= r < n - 1 && (opt_view(es[(#[trigger] t[r]).0].number) == Some(x)
                || exists|z: int| 0 <= z < t[r].1.len() && opt_view(es[#[trigger] t[r].1[z]].number) == Some(x));
            assert(0 <= r < n);
        } else {
            assert(opt_view(es[t[n - 1].0].number) == Some(x));
        }
    } else {
        lemma_subs_keys(es, t[n - 1].1, n - 1, t[n - 1].1.len() as int, x);
    }
}

/// Cross-references follow the new numbering: where the skeleton's objects
/// carry distinct numbers, the renumbering a draft applies to every
/// reference maps each drafted top-level clause's precedent number to the
/// number it has in the draft.
pub proof fn lemma_references_follow_numbering(spec: MatterSpec, es: Seq<ExtractedClause>, q: int)
    requires
        0 <= q < tree_of(spec, es).len(),
        forall|i: int, j: int| 0 <= i < j < es.len() && (#[trigger] es[i]).number is Some && (#[trigger] es[j]).number is Some
            ==> es[i].number->0@ != es[j].number->0@,
        es[tree_of(spec, es)[q].0].number is Some,
    ensures
        patterns::renumber_of(tree_map(es, tree_of(spec, es), tree_of(spec, es).len() as int),
            es[tree_of(spec, es)[q].0].number->0@) == decimal((q + 1) as nat),
{
    let t = tree_of(spec, es);
    lemma_tree_shape(spec, es, es.len() as int);
    let x = es[t[q].0].number->0@;
    let n = t.len() as int;
    lemma_map_prefix(es, t, q, n, x);
}

proof fn lemma_map_prefix(es: Seq<ExtractedClause>, t: Seq<(int, Seq<int>)>, q: int, m: int, x: Seq<char>)
    requires
        0 <= q < m <= t.len(),
        opt_view(es[t[q].0].number) == Some(x),
        forall|r: int| 0 <= r < t.len() ==> 0 <= (#[trigger] t[r]).0 < es.len() && is_top(es[t[r].0]),
        forall|q1: int, q2: int| 0 <= q1 < q2 < t.len() ==> (#[trigger] t[q1]).0 < (#[trigger] t[q2]).0,
        forall|r: int, z: int| 0 <= r < t.len() && 0 <= z < (#[trigger] t[r]).1.len() ==>
            0 <= #[trigger] t[r].1[z] < es.len() && is_sub(es[t[r].1[z]]),
        forall|i: int, j: int| 0 <= i < j < es.len() && (#[trigger] es[i]).number is Some && (#[trigger] es[j]).number is Some
            ==> es[i].number->0@ != es[j].number->0@,
    ensures
        patterns::renumber_of(tree_map(es, t, m), x) == decimal((q + 1) as nat),
    decreases m,
{
    let a = tree_map(es, t, m - 1);
    let b = number_entry(es[t[m - 1].0], decimal(m as nat));
    let c = subs_map(es, t[m - 1].1, m - 1, t[m - 1].1.len() as int);
    assert(tree_map(es, t, m) == a + b + c);
    lemma_renumber_concat(a + b, c, x);
    lemma_renumber_concat(a, b, x);
    if m - 1 == q {
        // No earlier entry has this number.
        if has_key(a, x) {
            lemma_tree_keys(es, t, m - 1, x);
            let r = choose|r: int| 0 <= r < m - 1 && (opt_view(es[(#[trigger] t[r]).0].number) == Some(x)
                || exists|z: int| 0 <= z < t[r].1.len() && opt_view(es[#[trigger] t[r].1[z]].number) == Some(x));
            if opt_view(es[t[r].0].number) == Some(x) {
                assert(t[r].0 < t[q].0);
                assert(es[t[r].0].number->0@ != es[t[q].0].number->0@);
            } else {
                let z = choose|z: int| 0 <= z < t[r].1.len() && opt_view(es[#[trigger] t[r].1[z]].number) == Some(x);
                let y = t[r].1[z];
                assert(is_sub(es[y]) && is_top(es[t[q].0]));
                if y < t[q].0 {
                    assert(es[y].number->0@ != es[t[q].0].number->0@);
                } else {
                    assert(es[t[q].0].number->0@ != es[y].number->0@);
                }
            }
        }
        assert(!has_key(a, x));
        assert(has_key(b, x)) by {
            assert(b[0].0 == x);
        }
        assert(has_key(a + b, x)) by {
            assert((a + b)[a.len() as int] == b[0]);
        }
        assert(patterns::renumber_of(b, x) == decimal(m as nat));
    } else {
        lemma_map_prefix(es, t, q, m - 1, x);
        assert(has_key(a, x)) by {
            lemma_key_present(es, t, q, m - 1, x);
        }
        let i = choose|i: int| 0 <= i < a.len() && (#[trigger] a[i]).0 == x;
        assert((a + b)[i] == a[i]);
        assert(has_key(a + b, x));
    }
}

proof fn lemma_key_present(es: Seq<ExtractedClause>, t: Seq<(int, Seq<int>)>, q: int, n: int, x: Seq<char>)
    requires
        0 <= q < n <= t.len(),
        opt_view(es[t[q].0].number) == Some(x),
    ensures
        has_key(tree_map(es, t, n), x),
    decreases n,
{
    let a = tree_map(es, t, n - 1);
    let b = number_entry(es[t[n - 1].0], decimal(n as nat));
    let c = subs_map(es, t[n - 1].1, n - 1, t[n - 1].1.len() as int);
    if n - 1 == q {
        assert((a + b + c)[a.len() as int] == b[0]);
    } else {
        lemma_key_present(es, t, q, n - 1, x);
        let i = choose|i: int| 0 <= i < a.len() && (#[trigger] a[i]).0 == x;
        assert((a + b + c)[i] == a[i]);
    }
}

proof fn lemma_subs_renumber(es: Seq<ExtractedClause>, subs: Seq<int>, k: int, m: int, j: int, x: Seq<char>)
    requires
        0 <= j < m <= subs.len(),
        forall|z: int| 0 <= z < subs.len() ==> 0 <= #[trigger] subs[z] < es.len(),
        forall|z1: int, z2: int| 0 <= z1 < z2 < subs.len() ==> #[trigger] subs[z1] < #[trigger] subs[z2],
        opt_view(es[subs[j]].number) == Some(x),
        forall|i: int, i2: int| 0 <= i < i2 < es.len() && (#[trigger] es[i]).number is Some && (#[trigger] es[i2]).number is Some
            ==> es[i].number->0@ != es[i2].number->0@,
    ensures
        has_key(subs_map(es, subs, k, m), x),
        patterns::renumber_of(subs_map(es, subs, k, m), x) == sub_number(k, j),
    decreases m,
{
    let a = subs_map(es, subs, k, m - 1);
    let b = number_entry(es[subs[m - 1]], sub_number(k, m - 1));
    lemma_renumber_concat(a, b, x);
    if m - 1 == j {
        if has_key(a, x) {
            lemma_subs_keys(es, subs, k, m - 1, x);
            let z = choose|z: int| 0 <= z < m - 1 && opt_view(es[#[trigger] subs[z]].number) == Some(x);
            assert(subs[z] < subs[j]);
            assert(es[subs[z]].number->0@ != es[subs[j]].number->0@);
        }
        assert(b[0].0 == x);
        assert((a + b)[a.len() as int] == b[0]);
    } else {
        lemma_subs_renumber(es, subs, k, m - 1, j, x);
        let i = choose|i: int| 0 <= i < a.len() && (#[trigger] a[i]).0 == x;
        assert((a + b)[i] == a[i]);
    }
}

proof fn lemma_sub_map_prefix(es: Seq<ExtractedClause>, t: Seq<(int, Seq<int>)>, q: int, j: int, m: int, x: Seq<char>)
    requires
        0 <= q < m <= t.len(),
        0 <= j < t[q].1.len(),
        opt_view(es[t[q].1[j]].number) == Some(x),
        forall|r: int| 0 <= r < t.len() ==> 0 <= (#[trigger] t[r]).0 < es.len(),
        forall|q1: int, q2: int| 0 <= q1 < q2 < t.len() ==> (#[trigger] t[q1]).0 < (#[trigger] t[q2]).0,
        forall|r: int, z: int| 0 <= r < t.len() && 0 <= z < (#[trigger] t[r]).1.len() ==>
            t[r].0 < #[trigger] t[r].1[z] < es.len(),
        forall|r: int, z1: int, z2: int| 0 <= r < t.len() && 0 <= z1 < z2 < t[r].1.len() ==>
            #[trigger] t[r].1[z1] < #[trigger] t[r].1[z2],
        forall|q1: int, q2: int, z: int| 0 <= q1 < q2 < t.len() && 0 <= z < t[q1].1.len() ==>
            #[trigger] t[q1].1[z] < (#[trigger] t[q2]).0,
        forall|i: int, i2: int| 0 <= i < i2 < es.len() && (#[trigger] es[i]).number is Some && (#[trigger] es[i2]).number is Some
            ==> es[i].number->0@ != es[i2].number->0@,
    ensures
        has_key(tree_map(es, t, m), x),
        patterns::renumber_of(tree_map(es, t, m), x) == sub_number(q, j),
    decreases m,
{
    let a = tree_map(es, t, m - 1);
    let b = number_entry(es[t[m - 1].0], decimal(m as nat));
    let c = subs_map(es, t[m - 1].1, m - 1, t[m - 1].1.len() as int);
    assert(tree_map(es, t, m) == a + b + c);
    lemma_renumber_concat(a + b, c, x);
    lemma_renumber_concat(a, b, x);
    let y = t[q].1[j];
    if m - 1 == q {
        if has_key(a, x) {
            lemma_tree_keys(es, t, m - 1, x);
            let r = choose|r: int| 0 <= r < m - 1 && (opt_view(es[(#[trigger] t[r]).0].number) == Some(x)
                || exists|z: int| 0 <= z < t[r].1.len() && opt_view(es[#[trigger] t[r].1[z]].number) == Some(x));
            if opt_view(es[t[r].0].number) == Some(x) {
                assert(t[r].0 < t[q].0);
                assert(es[t[r].0].number->0@ != es[y].number->0@);
            } else {
                let z = choose|z: int| 0 <= z < t[r].1.len() && opt_view(es[#[trigger] t[r].1[z]].number) == Some(x);
                assert(t[r].1[z] < t[q].0);
                assert(es[t[r].1[z]].number->0@ != es[y].number->0@);
            }
        }
        if has_key(b, x) {
            assert(b[0].0 == x);
            assert(es[t[q].0].number->0@ != es[y].number->0@);
        }
        lemma_renumber_keys_split_neg(a, b, x);
        assert forall|z: int| 0 <= z < t[q].1.len() implies 0 <= #[trigger] t[q].1[z] < es.len() by {}
        assert forall|z1: int, z2: int| 0 <= z1 < z2 < t[q].1.len() implies #[trigger] t[q].1[z1] < #[trigger] t[q].1[z2] by {}
        lemma_subs_renumber(es, t[q].1, q, t[q].1.len() as int, j, x);
        let i = choose|i: int| 0 <= i < c.len() && (#[trigger] c[i]).0 == x;
        assert((a + b + c)[(a + b).len() + i] == c[i]);
    } else {
        lemma_sub_map_prefix(es, t, q, j, m - 1, x);
        let i = choose|i: int| 0 <= i < a.len() && (#[trigger] a[i]).0 == x;
        assert((a + b)[i] == a[i]);
        assert((a + b + c)[i] == a[i]);
    }
}

proof fn lemma_renumber_keys_split_neg(a: Seq<(Seq<char>, Seq<char>)>, b: Seq<(Seq<char>, Seq<char>)>, x: Seq<char>)
    requires
        !has_key(a, x),
        !has_key(b, x),
    ensures
        !has_key(a + b, x),
{
    if has_key(a + b, x) {
        lemma_renumber_keys_split(a, b, x);
    }
}

/// Cross-references to sub-clauses follow the new numbering too: where the
/// skeleton's objects carry distinct numbers, the renumbering maps the
/// precedent number of the `j`-th sub-clause of the `q`-th drafted clause to
/// its draft number "q+1.j+1".
pub proof fn lemma_sub_references_follow_numbering(spec: MatterSpec, es: Seq<ExtractedClause>, q: int, j: int)
    requires
        0 <= q < tree_of(spec, es).len(),
        0 <= j < tree_of(spec, es)[q].1.len(),
        forall|i: int, i2: int| 0 <= i < i2 < es.len() && (#[trigger] es[i]).number is Some && (#[trigger] es[i2]).number is Some
            ==> es[i].number->0@ != es[i2].number->0@,
        es[tree_of(spec, es)[q].1[j]].number is Some,
    ensures
        patterns::renumber_of(tree_map(es, tree_of(spec, es), tree_of(spec, es).len() as int),
            es[tree_of(spec, es)[q].1[j]].number->0@) == sub_number(q, j),
{
    let t = tree_of(spec, es);
    lemma_tree_shape(spec, es, es.len() as int);
    lemma_tree_order(spec, es, es.len() as int);
    let x = es[t[q].1[j]].number->0@;
    lemma_sub_map_prefix(es, t, q, j, t.len() as int, x);
}

} // verus!
