//! LIR to WordprocessingML. A minimal hand-written `document.xml` holding
//! text, headings, bold and italic runs, bulleted lists and simple tables.
//!
//! Two modes:
//! - plain: references Word's built-in style ids (`Title`, `Heading1`,
//!   `ListParagraph`) and ships no styles, so Word applies its defaults;
//! - styled: a [`StyleDonor`]'s parts style the draft; headings use direct
//!   bold formatting (so the assembler's numbering cannot collide with a donor
//!   style's own numbering), and a clause that carries its precedent's own
//!   paragraphs is rendered from them, stripped of their source numbering.

use vstd::prelude::*;
use crate::chars::{self, chars_of, string_of, push_str, push_all};
use crate::strs::{self, opt_view, owned};
use crate::lir::{LirDocument, LirClause, Block, Run, RunStyle, Party, Recital, Schedule, SignatureBlock,
    block_text, blocks_texts, variable_text, descend};
use crate::xml::{self, strip_el, unwrap_el, strip_element, unwrap_element};
use crate::error::CoreError;

verus! {

// ---------------------------------------------------------------------------
// The style donor
// ---------------------------------------------------------------------------

/// The reusable formatting parts extracted from a donor DOCX. Any part may be
/// absent; `styles_xml` present is what makes a donor useful.
#[derive(Debug, Clone)]
pub struct StyleDonor {
    pub styles_xml: Option<String>,
    pub theme_xml: Option<String>,
    pub font_table_xml: Option<String>,
    pub numbering_xml: Option<String>,
    pub settings_xml: Option<String>,
    /// The body-level `<w:sectPr>` (page size and margins), with header and
    /// footer references stripped.
    pub sect_pr: Option<String>,
    /// The attributes of the donor's `<w:document …>` root (namespace
    /// declarations), so lifted paragraphs stay namespace-valid.
    pub document_attrs: Option<String>,
    /// The distinct `w:numId`s defined in the donor's numbering part.
    pub num_ids: Vec<String>,
    /// The donor's dominant top-level numId.
    pub main_num_id: Option<String>,
}

impl Default for StyleDonor {
    fn default() -> (r: StyleDonor)
        ensures
            r.styles_xml is None && r.theme_xml is None && r.font_table_xml is None,
            r.numbering_xml is None && r.settings_xml is None && r.sect_pr is None,
            r.document_attrs is None && r.num_ids@.len() == 0 && r.main_num_id is None,
    {
        StyleDonor {
            styles_xml: None,
            theme_xml: None,
            font_table_xml: None,
            numbering_xml: None,
            settings_xml: None,
            sect_pr: None,
            document_attrs: None,
            num_ids: Vec::new(),
            main_num_id: None,
        }
    }
}

impl StyleDonor {
    /// A donor is only worth applying if it carries style definitions.
    pub fn is_usable(&self) -> (r: bool)
        ensures
            r == (self.styles_xml is Some),
    {
        self.styles_xml.is_some()
    }
}

// ---------------------------------------------------------------------------
// Specification
// ---------------------------------------------------------------------------

pub open spec fn concat(parts: Seq<Seq<char>>) -> Seq<char>
    decreases parts.len(),
{
    if parts.len() == 0 {
        Seq::empty()
    } else {
        concat(parts.drop_last()) + parts.last()
    }
}

pub open spec fn esc_char(c: char) -> Seq<char> {
    if c == '&' {
        "&amp;"@
    } else if c == '<' {
        "&lt;"@
    } else if c == '>' {
        "&gt;"@
    } else if c == '"' {
        "&quot;"@
    } else {
        seq![c]
    }
}

/// XML text escaping of `&`, `<`, `>` and `"`.
pub open spec fn esc(s: Seq<char>) -> Seq<char>
    decreases s.len(),
{
    if s.len() == 0 {
        Seq::empty()
    } else {
        esc(s.drop_last()) + esc_char(s.last())
    }
}

/// A run with optional bold and italic.
pub open spec fn run_xml(text: Seq<char>, bold: bool, italic: bool) -> Seq<char> {
    let rpr = if bold || italic {
        "<w:rPr>"@ + (if bold { "<w:b/>"@ } else { Seq::empty() }) + (if italic { "<w:i/>"@ } else { Seq::empty() })
            + "</w:rPr>"@
    } else {
        Seq::empty()
    };
    "<w:r>"@ + rpr + "<w:t xml:space=\"preserve\">"@ + esc(text) + "</w:t></w:r>"@
}

/// A paragraph of runs with an optional paragraph style.
pub open spec fn para_xml(runs: Seq<Seq<char>>, style: Option<Seq<char>>) -> Seq<char> {
    let ppr = match style {
        Some(s) => "<w:pPr><w:pStyle w:val=\""@ + s + "\"/></w:pPr>"@,
        None => Seq::empty(),
    };
    "<w:p>"@ + ppr + concat(runs) + "</w:p>"@
}

/// A paragraph of one plain run.
pub open spec fn text_para(text: Seq<char>, italic: bool) -> Seq<char> {
    para_xml(seq![run_xml(text, false, italic)], None)
}

/// A heading paragraph: the document title or a section heading.
pub open spec fn heading_xml(text: Seq<char>, title: bool, styled: bool) -> Seq<char> {
    if styled {
        if title {
            "<w:p><w:pPr><w:jc w:val=\"center\"/><w:spacing w:after=\"240\"/></w:pPr><w:r><w:rPr><w:b/><w:sz w:val=\"32\"/><w:szCs w:val=\"32\"/></w:rPr><w:t xml:space=\"preserve\">"@
                + esc(text) + "</w:t></w:r></w:p>"@
        } else {
            "<w:p><w:pPr><w:spacing w:before=\"200\" w:after=\"80\"/><w:keepNext/></w:pPr><w:r><w:rPr><w:b/></w:rPr><w:t xml:space=\"preserve\">"@
                + esc(text) + "</w:t></w:r></w:p>"@
        }
    } else {
        "<w:p><w:pPr><w:pStyle w:val=\""@ + (if title { "Title"@ } else { "Heading1"@ })
            + "\"/></w:pPr><w:r><w:t xml:space=\"preserve\">"@ + esc(text) + "</w:t></w:r></w:p>"@
    }
}

pub open spec fn runs_xml(runs: Seq<Run>) -> Seq<Seq<char>>
    decreases runs.len(),
{
    if runs.len() == 0 {
        Seq::empty()
    } else {
        runs_xml(runs.drop_last()).push(run_xml(runs.last().text@, runs.last().style == RunStyle::Bold,
            runs.last().style == RunStyle::Italic))
    }
}

/// One list item: a paragraph per block, the first bulleted.
pub open spec fn item_xml(item: Seq<Block>, style: Option<Seq<char>>) -> Seq<char>
    decreases item.len(),
{
    if item.len() == 0 {
        Seq::empty()
    } else {
        let t = block_text(item.last());
        item_xml(item.drop_last(), style)
            + para_xml(seq![run_xml(if item.len() == 1 { "\u{2022}  "@ + t } else { t }, false, false)], style)
    }
}

pub open spec fn items_xml(items: Seq<Vec<Block>>, style: Option<Seq<char>>) -> Seq<char>
    decreases items.len(),
{
    if items.len() == 0 {
        Seq::empty()
    } else {
        items_xml(items.drop_last(), style) + item_xml(items.last()@, style)
    }
}

/// A table cell's text: its blocks' texts joined by spaces.
pub open spec fn cell_text(cell: Seq<Block>) -> Seq<char> {
    strs::join(blocks_texts(cell), " "@)
}

pub open spec fn cells_text(cells: Seq<Vec<Block>>) -> Seq<Seq<char>>
    decreases cells.len(),
{
    if cells.len() == 0 {
        Seq::empty()
    } else {
        cells_text(cells.drop_last()).push(cell_text(cells.last()@))
    }
}

/// Each table row as a paragraph of its tab-separated cell texts.
pub open spec fn rows_xml(rows: Seq<Vec<Vec<Block>>>) -> Seq<char>
    decreases rows.len(),
{
    if rows.len() == 0 {
        Seq::empty()
    } else {
        rows_xml(rows.drop_last()) + text_para(strs::join(cells_text(rows.last()@), "\t"@), false)
    }
}

pub open spec fn list_style(styled: bool) -> Option<Seq<char>> {
    if styled { None } else { Some("ListParagraph"@) }
}

pub open spec fn block_xml(b: Block, styled: bool) -> Seq<char> {
    match b {
        Block::Paragraph { runs } => para_xml(runs_xml(runs@), None),
        Block::List { items, .. } => items_xml(items@, list_style(styled)),
        Block::Table { rows } => rows_xml(rows@),
        Block::Variable { label, value, .. } => text_para(variable_text(label@, opt_view(value)), false),
    }
}

pub open spec fn blocks_xml(bs: Seq<Block>, styled: bool) -> Seq<char>
    decreases bs.len(),
{
    if bs.len() == 0 {
        Seq::empty()
    } else {
        blocks_xml(bs.drop_last(), styled) + block_xml(bs.last(), styled)
    }
}

/// A precedent paragraph made fit for a new document: its own numbering,
/// drawings, pictures and embedded objects cut out, its hyperlinks dissolved
/// into their text. Style, fonts, indentation and spacing are kept.
pub open spec fn prepared(p: Seq<char>) -> Seq<char> {
    unwrap_el(
        strip_el(strip_el(strip_el(strip_el(p, "<w:numPr"@, "</w:numPr>"@), "<w:drawing"@, "</w:drawing>"@),
            "<w:pict"@, "</w:pict>"@), "<w:object"@, "</w:object>"@),
        "w:hyperlink"@,
    )
}

pub open spec fn prepared_all(ps: Seq<String>) -> Seq<char>
    decreases ps.len(),
{
    if ps.len() == 0 {
        Seq::empty()
    } else {
        prepared_all(ps.drop_last()) + prepared(ps.last()@)
    }
}

pub open spec fn party_xml(p: Party) -> Seq<char> {
    let tail = " (the \""@ + p.role@ + "\")"@
        + (match p.reg_no { Some(r) => ", registration number "@ + r@, None => Seq::empty() })
        + (match p.entity_type { Some(t) => ", a "@ + t@, None => Seq::empty() });
    para_xml(seq![run_xml(p.name@, true, false), run_xml(tail, false, false)], None)
}

pub open spec fn parties_xml(ps: Seq<Party>) -> Seq<char>
    decreases ps.len(),
{
    if ps.len() == 0 { Seq::empty() } else { parties_xml(ps.drop_last()) + party_xml(ps.last()) }
}

pub open spec fn recitals_xml(rs: Seq<Recital>, styled: bool) -> Seq<char>
    decreases rs.len(),
{
    if rs.len() == 0 { Seq::empty() } else { recitals_xml(rs.drop_last(), styled) + blocks_xml(rs.last().body@, styled) }
}

/// A clause's heading line: its number and heading, or its number alone
/// when it has no heading of its own.
pub open spec fn clause_head(c: LirClause) -> Seq<char> {
    if chars::trim(c.heading@).len() == 0 { c.number@ } else { c.number@ + ". "@ + c.heading@ }
}

/// A clause at any depth: its numbered heading, then its precedent's own
/// paragraphs when styled and it carries them, else its blocks; then each of
/// its sub-clauses the same way, in order.
pub open spec fn clause_xml(c: LirClause, styled: bool) -> Seq<char>
    decreases c,
{
    heading_xml(clause_head(c), false, styled)
        + (if styled && c.source_ooxml@.len() > 0 { prepared_all(c.source_ooxml@) } else { blocks_xml(c.body@, styled) })
        + clauses_xml(c.children@, styled)
}

pub open spec fn clauses_xml(cs: Seq<LirClause>, styled: bool) -> Seq<char>
    decreases cs,
{
    if cs.len() == 0 { Seq::empty() } else { clauses_xml(cs.drop_last(), styled) + clause_xml(cs.last(), styled) }
}

pub open spec fn schedules_xml(ss: Seq<Schedule>, styled: bool) -> Seq<char>
    decreases ss.len(),
{
    if ss.len() == 0 {
        Seq::empty()
    } else {
        schedules_xml(ss.drop_last(), styled) + heading_xml(ss.last().title@, false, styled)
            + blocks_xml(ss.last().body@, styled)
    }
}

pub open spec fn signatures_xml(bs: Seq<SignatureBlock>) -> Seq<char>
    decreases bs.len(),
{
    if bs.len() == 0 {
        Seq::empty()
    } else {
        signatures_xml(bs.drop_last()) + text_para("Signed "@ + bs.last().signatory_line@, false)
            + text_para("_____________________________"@, false) + text_para("Name / Capacity / Date"@, true)
    }
}

pub open spec fn default_attrs() -> Seq<char> {
    "xmlns:w=\"http://schemas.openxmlformats.org/wordprocessingml/2006/main\" xmlns:r=\"http://schemas.openxmlformats.org/officeDocument/2006/relationships\""@
}

pub open spec fn parties_part(doc: LirDocument) -> Seq<char> {
    if doc.parties@.len() > 0 {
        para_xml(seq![run_xml("Between:"@, true, false)], None) + parties_xml(doc.parties@)
    } else {
        Seq::empty()
    }
}

pub open spec fn execution_part(doc: LirDocument, styled: bool) -> Seq<char> {
    if doc.execution.blocks@.len() > 0 {
        heading_xml("Execution"@, false, styled) + signatures_xml(doc.execution.blocks@)
    } else {
        Seq::empty()
    }
}

pub open spec fn law_part(doc: LirDocument) -> Seq<char> {
    match doc.meta.jurisdiction {
        Some(j) => text_para("Governing law: "@ + j@ + "."@, true),
        None => Seq::empty(),
    }
}

pub open spec fn section_part(donor: Option<StyleDonor>) -> Seq<char> {
    match donor {
        Some(d) => match d.sect_pr { Some(s) => s@, None => Seq::empty() },
        None => Seq::empty(),
    }
}

/// The `<w:body>` content for a document, styled when a donor is given:
/// title, parties, recitals, top-level clauses, schedules, execution blocks,
/// governing law, and the donor's page setup.
pub open spec fn body_xml(doc: LirDocument, donor: Option<StyleDonor>) -> Seq<char> {
    let styled = donor is Some;
    heading_xml(doc.meta.title@, true, styled)
        + parties_part(doc)
        + recitals_xml(doc.recitals@, styled)
        + clauses_xml(doc.clauses@, styled)
        + schedules_xml(doc.schedules@, styled)
        + execution_part(doc, styled)
        + law_part(doc)
        + section_part(donor)
}

/// The whole `word/document.xml` part.
#[verifier::opaque]
pub open spec fn document_xml(doc: LirDocument, donor: Option<StyleDonor>) -> Seq<char> {
    let attrs = match donor {
        Some(d) => match d.document_attrs { Some(a) => a@, None => default_attrs() },
        None => default_attrs(),
    };
    "<?xml version=\"1.0\" encoding=\"UTF-8\" standalone=\"yes\"?>\n<w:document "@ + attrs + "><w:body>"@
        + body_xml(doc, donor) + "</w:body></w:document>"@
}

// ---------------------------------------------------------------------------
// Laws
// ---------------------------------------------------------------------------

/// The XML of a run of text, as a paragraph writes it.
pub open spec fn run_of(r: Run) -> Seq<char> {
    run_xml(r.text@, r.style == RunStyle::Bold, r.style == RunStyle::Italic)
}

proof fn lemma_part_in_concat(parts: Seq<Seq<char>>, k: int, x: Seq<char>)
    requires
        0 <= k < parts.len(),
        chars::contains(parts[k], x),
    ensures
        chars::contains(concat(parts), x),
    decreases parts.len(),
{
    if k == parts.len() - 1 {
        chars::lemma_in_right(concat(parts.drop_last()), parts.last(), x);
    } else {
        assert(parts.drop_last()[k] == parts[k]);
        lemma_part_in_concat(parts.drop_last(), k, x);
        chars::lemma_in_left(concat(parts.drop_last()), parts.last(), x);
    }
}

proof fn lemma_runs_xml(runs: Seq<Run>)
    ensures
        runs_xml(runs).len() == runs.len(),
        forall|k: int| 0 <= k < runs.len() ==> #[trigger] runs_xml(runs)[k] == run_of(runs[k]),
    decreases runs.len(),
{
    if runs.len() > 0 {
        lemma_runs_xml(runs.drop_last());
        assert forall|k: int| 0 <= k < runs.len() implies #[trigger] runs_xml(runs)[k] == run_of(runs[k]) by {
            if k < runs.len() - 1 {
                assert(runs.drop_last()[k] == runs[k]);
            }
        }
    }
}

proof fn lemma_block_in_blocks(bs: Seq<Block>, k: int, styled: bool, x: Seq<char>)
    requires
        0 <= k < bs.len(),
        chars::contains(block_xml(bs[k], styled), x),
    ensures
        chars::contains(blocks_xml(bs, styled), x),
    decreases bs.len(),
{
    if k == bs.len() - 1 {
        chars::lemma_in_right(blocks_xml(bs.drop_last(), styled), block_xml(bs.last(), styled), x);
    } else {
        assert(bs.drop_last()[k] == bs[k]);
        lemma_block_in_blocks(bs.drop_last(), k, styled, x);
        chars::lemma_in_left(blocks_xml(bs.drop_last(), styled), block_xml(bs.last(), styled), x);
    }
}

proof fn lemma_clause_in_clauses(cs: Seq<LirClause>, q: int, styled: bool, x: Seq<char>)
    requires
        0 <= q < cs.len(),
        chars::contains(clause_xml(cs[q], styled), x),
    ensures
        chars::contains(clauses_xml(cs, styled), x),
    decreases cs.len(),
{
    if q == cs.len() - 1 {
        chars::lemma_in_right(clauses_xml(cs.drop_last(), styled), clause_xml(cs.last(), styled), x);
    } else {
        assert(cs.drop_last()[q] == cs[q]);
        lemma_clause_in_clauses(cs.drop_last(), q, styled, x);
        chars::lemma_in_left(clauses_xml(cs.drop_last(), styled), clause_xml(cs.last(), styled), x);
    }
}

/// Without a donor, every run of a paragraph of a clause's own text is
/// written into the clause's XML.
proof fn lemma_run_in_clause(c: LirClause, k: int, m: int)
    requires
        0 <= k < c.body@.len(),
        c.body@[k] is Paragraph,
        0 <= m < c.body@[k]->Paragraph_runs@.len(),
    ensures
        chars::contains(clause_xml(c, false), run_of(c.body@[k]->Paragraph_runs@[m])),
{
    let runs = c.body@[k]->Paragraph_runs@;
    let x = run_of(runs[m]);
    lemma_runs_xml(runs);
    assert(chars::contains(x, x)) by {
        assert(x.subrange(0, x.len() as int) =~= x);
        assert(chars::occurs_at(x, x, 0));
    }
    lemma_part_in_concat(runs_xml(runs), m, x);
    let pre = "<w:p>"@;
    assert(para_xml(runs_xml(runs), None) == pre + concat(runs_xml(runs)) + "</w:p>"@);
    chars::lemma_in_right(pre, concat(runs_xml(runs)), x);
    chars::lemma_in_left(pre + concat(runs_xml(runs)), "</w:p>"@, x);
    lemma_block_in_blocks(c.body@, k, false, x);
    let head = heading_xml(clause_head(c), false, false);
    assert(clause_xml(c, false) == head + blocks_xml(c.body@, false) + clauses_xml(c.children@, false));
    chars::lemma_in_right(head, blocks_xml(c.body@, false), x);
    chars::lemma_in_left(head + blocks_xml(c.body@, false), clauses_xml(c.children@, false), x);
}

/// Without a donor, a clause's XML holds every run of every paragraph of
/// each clause below it.
proof fn lemma_descendant_run(c: LirClause, path: Seq<int>, k: int, m: int)
    requires
        descend(c, path) matches Some(x) && 0 <= k < x.body@.len() && x.body@[k] is Paragraph
            && 0 <= m < x.body@[k]->Paragraph_runs@.len(),
    ensures
        chars::contains(clause_xml(c, false),
            run_of((descend(c, path)->0).body@[k]->Paragraph_runs@[m])),
    decreases path.len(),
{
    if path.len() == 0 {
        lemma_run_in_clause(c, k, m);
    } else {
        let ch = c.children@[path[0]];
        let x = run_of((descend(c, path)->0).body@[k]->Paragraph_runs@[m]);
        lemma_descendant_run(ch, path.drop_first(), k, m);
        lemma_clause_in_clauses(c.children@, path[0], false, x);
        let head = heading_xml(clause_head(c), false, false);
        assert(clause_xml(c, false) == head + blocks_xml(c.body@, false) + clauses_xml(c.children@, false));
        chars::lemma_in_right(head + blocks_xml(c.body@, false), clauses_xml(c.children@, false), x);
    }
}

/// Without a donor, every run of every paragraph of every clause, at any
/// depth of sub-clauses, is written into `document.xml`: no clause or
/// sub-clause is skipped.
pub proof fn lemma_clause_runs_reach_document(doc: LirDocument, q: int, path: Seq<int>, k: int, m: int)
    requires
        0 <= q < doc.clauses@.len(),
        descend(doc.clauses@[q], path) matches Some(x) && 0 <= k < x.body@.len()
            && x.body@[k] is Paragraph && 0 <= m < x.body@[k]->Paragraph_runs@.len(),
    ensures
        chars::contains(document_xml(doc, None),
            run_of((descend(doc.clauses@[q], path)->0).body@[k]->Paragraph_runs@[m])),
{
    reveal(document_xml);
    let front = heading_xml(doc.meta.title@, true, false) + parties_part(doc) + recitals_xml(doc.recitals@, false);
    let mid = clauses_xml(doc.clauses@, false);
    let b1 = schedules_xml(doc.schedules@, false);
    let b2 = execution_part(doc, false);
    let b3 = law_part(doc);
    let b4 = section_part(None);
    assert(body_xml(doc, None) == front + mid + b1 + b2 + b3 + b4);
    let pre = "<?xml version=\"1.0\" encoding=\"UTF-8\" standalone=\"yes\"?>\n<w:document "@ + default_attrs() + "><w:body>"@;
    assert(document_xml(doc, None) == pre + body_xml(doc, None) + "</w:body></w:document>"@);
    let x = run_of((descend(doc.clauses@[q], path)->0).body@[k]->Paragraph_runs@[m]);
    lemma_descendant_run(doc.clauses@[q], path, k, m);
    lemma_clause_in_clauses(doc.clauses@, q, false, x);
    lemma_reaches_document(front, mid, b1, b2, b3, b4, pre, x);
}

proof fn lemma_descendant_heading_xml(c: LirClause, path: Seq<int>)
    requires
        descend(c, path) is Some,
    ensures
        chars::contains(clause_xml(c, false), esc(clause_head(descend(c, path)->0))),
    decreases path.len(),
{
    let head = heading_xml(clause_head(c), false, false);
    assert(clause_xml(c, false) == head + blocks_xml(c.body@, false) + clauses_xml(c.children@, false));
    if path.len() == 0 {
        let pre = "<w:p><w:pPr><w:pStyle w:val=\""@ + "Heading1"@ + "\"/></w:pPr><w:r><w:t xml:space=\"preserve\">"@;
        let post = "</w:t></w:r></w:p>"@;
        let x = esc(clause_head(c));
        assert(head == pre + x + post);
        chars::lemma_self_in(x);
        chars::lemma_in_right(pre, x, x);
        chars::lemma_in_left(pre + x, post, x);
        chars::lemma_in_left(head, blocks_xml(c.body@, false), x);
        chars::lemma_in_left(head + blocks_xml(c.body@, false), clauses_xml(c.children@, false), x);
    } else {
        let x = esc(clause_head(descend(c, path)->0));
        lemma_descendant_heading_xml(c.children@[path[0]], path.drop_first());
        lemma_clause_in_clauses(c.children@, path[0], false, x);
        chars::lemma_in_right(head + blocks_xml(c.body@, false), clauses_xml(c.children@, false), x);
    }
}

/// Without a donor, every clause at any depth gets its heading line in
/// `document.xml`: its number and heading ("5.2. Fees"), or its number
/// alone when it has no heading, escaped.
pub proof fn lemma_clause_headings_reach_document(doc: LirDocument, q: int, path: Seq<int>)
    requires
        0 <= q < doc.clauses@.len(),
        descend(doc.clauses@[q], path) is Some,
    ensures
        ({
            let c = descend(doc.clauses@[q], path)->0;
            chars::contains(document_xml(doc, None), esc(
                if chars::trim(c.heading@).len() == 0 { c.number@ } else { c.number@ + ". "@ + c.heading@ }))
        }),
{
    reveal(document_xml);
    let front = heading_xml(doc.meta.title@, true, false) + parties_part(doc) + recitals_xml(doc.recitals@, false);
    let mid = clauses_xml(doc.clauses@, false);
    let b1 = schedules_xml(doc.schedules@, false);
    let b2 = execution_part(doc, false);
    let b3 = law_part(doc);
    let b4 = section_part(None);
    assert(body_xml(doc, None) == front + mid + b1 + b2 + b3 + b4);
    let pre = "<?xml version=\"1.0\" encoding=\"UTF-8\" standalone=\"yes\"?>\n<w:document "@ + default_attrs() + "><w:body>"@;
    assert(document_xml(doc, None) == pre + body_xml(doc, None) + "</w:body></w:document>"@);
    let x = esc(clause_head(descend(doc.clauses@[q], path)->0));
    lemma_descendant_heading_xml(doc.clauses@[q], path);
    lemma_clause_in_clauses(doc.clauses@, q, false, x);
    lemma_reaches_document(front, mid, b1, b2, b3, b4, pre, x);
}

proof fn lemma_reaches_document(front: Seq<char>, mid: Seq<char>, b1: Seq<char>, b2: Seq<char>, b3: Seq<char>,
    b4: Seq<char>, pre: Seq<char>, x: Seq<char>)
    requires
        chars::contains(mid, x),
    ensures
        chars::contains(pre + (front + mid + b1 + b2 + b3 + b4) + "</w:body></w:document>"@, x),
{
    chars::lemma_in_right(front, mid, x);
    chars::lemma_in_left(front + mid, b1, x);
    chars::lemma_in_left(front + mid + b1, b2, x);
    chars::lemma_in_left(front + mid + b1 + b2, b3, x);
    chars::lemma_in_left(front + mid + b1 + b2 + b3, b4, x);
    chars::lemma_in_right(pre, front + mid + b1 + b2 + b3 + b4, x);
    chars::lemma_in_left(pre + (front + mid + b1 + b2 + b3 + b4), "</w:body></w:document>"@, x);
}

// ---------------------------------------------------------------------------
// Building
// ---------------------------------------------------------------------------

fn put(out: &mut String, t: &str)
    ensures
        final(out)@ == old(out)@ + t@,
{
    push_str(out, t);
}

fn esc_into(out: &mut String, text: &str)
    ensures
        final(out)@ == old(out)@ + esc(text@),
{
    let v = chars_of(text);
    let ghost o0 = out@;
    let mut i: usize = 0;
    while i < v.len()
        invariant
            i <= v.len(),
            v@ == text@,
            out@ == o0 + esc(v@.take(i as int)),
        decreases v.len() - i,
    {
        assert(v@.take(i + 1).drop_last() == v@.take(i as int));
        let c = v[i];
        if c == '&' {
            put(out, "&amp;");
        } else if c == '<' {
            put(out, "&lt;");
        } else if c == '>' {
            put(out, "&gt;");
        } else if c == '"' {
            put(out, "&quot;");
        } else {
            let ghost o1 = out@;
            out.push(c);
            assert(out@ == o1 + seq![c]);
        }
        i += 1;
    }
    assert(v@.take(v.len() as int) == v@);
}

/// XML-escape a text.
pub fn esc_text(text: &str) -> (r: String)
    ensures
        r@ == esc(text@),
{
    let mut out = String::new();
    esc_into(&mut out, text);
    out
}

fn run(text: &str, bold: bool, italic: bool) -> (r: String)
    ensures
        r@ == run_xml(text@, bold, italic),
{
    let mut out = owned("<w:r>");
    if bold || italic {
        put(&mut out, "<w:rPr>");
        if bold {
            put(&mut out, "<w:b/>");
        }
        if italic {
            put(&mut out, "<w:i/>");
        }
        put(&mut out, "</w:rPr>");
    }
    put(&mut out, "<w:t xml:space=\"preserve\">");
    esc_into(&mut out, text);
    put(&mut out, "</w:t></w:r>");
    out
}

fn para(runs: &Vec<String>, style: Option<&str>) -> (r: String)
    ensures
        r@ == para_xml(strs::views(runs@), match style { Some(s) => Some(s@), None => None }),
{
    let mut out = owned("<w:p>");
    match style {
        Some(st) => {
            put(&mut out, "<w:pPr><w:pStyle w:val=\"");
            put(&mut out, st);
            put(&mut out, "\"/></w:pPr>");
        },
        None => {},
    }
    let ghost o0 = out@;
    let mut i: usize = 0;
    while i < runs.len()
        invariant
            i <= runs.len(),
            out@ == o0 + concat(strs::views(runs@).take(i as int)),
        decreases runs.len() - i,
    {
        assert(strs::views(runs@).take(i + 1).drop_last() == strs::views(runs@).take(i as int));
        put(&mut out, runs[i].as_str());
        i += 1;
    }
    assert(strs::views(runs@).take(runs.len() as int) == strs::views(runs@));
    put(&mut out, "</w:p>");
    out
}

fn one_run_para(text: &str, italic: bool) -> (r: String)
    ensures
        r@ == text_para(text@, italic),
{
    let mut runs: Vec<String> = Vec::new();
    runs.push(run(text, false, italic));
    assert(strs::views(runs@) =~= seq![run_xml(text@, false, italic)]);
    para(&runs, None)
}

fn heading(text: &str, title: bool, styled: bool) -> (r: String)
    ensures
        r@ == heading_xml(text@, title, styled),
{
    let mut out = String::new();
    if styled {
        if title {
            put(&mut out, "<w:p><w:pPr><w:jc w:val=\"center\"/><w:spacing w:after=\"240\"/></w:pPr><w:r><w:rPr><w:b/><w:sz w:val=\"32\"/><w:szCs w:val=\"32\"/></w:rPr><w:t xml:space=\"preserve\">");
        } else {
            put(&mut out, "<w:p><w:pPr><w:spacing w:before=\"200\" w:after=\"80\"/><w:keepNext/></w:pPr><w:r><w:rPr><w:b/></w:rPr><w:t xml:space=\"preserve\">");
        }
        esc_into(&mut out, text);
        put(&mut out, "</w:t></w:r></w:p>");
    } else {
        put(&mut out, "<w:p><w:pPr><w:pStyle w:val=\"");
        put(&mut out, if title { "Title" } else { "Heading1" });
        put(&mut out, "\"/></w:pPr><w:r><w:t xml:space=\"preserve\">");
        esc_into(&mut out, text);
        put(&mut out, "</w:t></w:r></w:p>");
    }
    out
}

fn cell_text_exec(cell: &Vec<Block>) -> (r: String)
    ensures
        r@ == cell_text(cell@),
{
    let mut texts: Vec<String> = Vec::new();
    let mut i: usize = 0;
    while i < cell.len()
        invariant
            i <= cell.len(),
            strs::views(texts@) == blocks_texts(cell@.take(i as int)),
        decreases cell.len() - i,
    {
        assert(cell@.take(i + 1).drop_last() == cell@.take(i as int));
        let ghost t0 = strs::views(texts@);
        texts.push(cell[i].plain_text());
        assert(strs::views(texts@) =~= t0.push(block_text(cell@[i as int])));
        i += 1;
    }
    assert(cell@.take(cell.len() as int) == cell@);
    strs::join_strings(&texts, " ")
}

fn blocks_xml_into(out: &mut String, bs: &Vec<Block>, styled: bool)
    ensures
        final(out)@ == old(out)@ + blocks_xml(bs@, styled),
{
    let ghost o0 = out@;
    let mut i: usize = 0;
    while i < bs.len()
        invariant
            i <= bs.len(),
            out@ == o0 + blocks_xml(bs@.take(i as int), styled),
        decreases bs.len() - i,
    {
        assert(bs@.take(i + 1).drop_last() == bs@.take(i as int));
        assert(bs@.take(i + 1).last() == bs@[i as int]);
        let ghost o1 = out@;
        match &bs[i] {
            Block::Paragraph { runs } => {
                let mut rs: Vec<String> = Vec::new();
                let mut k: usize = 0;
                while k < runs.len()
                    invariant
                        k <= runs.len(),
                        strs::views(rs@) == runs_xml(runs@.take(k as int)),
                    decreases runs.len() - k,
                {
                    assert(runs@.take(k + 1).drop_last() == runs@.take(k as int));
                    let r = &runs[k];
                    let ghost r0 = strs::views(rs@);
                    let x = run(r.text.as_str(), r.style == RunStyle::Bold, r.style == RunStyle::Italic);
                    rs.push(x);
                    assert(strs::views(rs@) =~= r0.push(x@));
                    k += 1;
                }
                assert(runs@.take(runs.len() as int) == runs@);
                let p = para(&rs, None);
                put(out, p.as_str());
                assert(out@ =~= o1 + block_xml(bs@[i as int], styled));
            },
            Block::List { items, .. } => {
                let style: Option<&str> = if styled { None } else { Some("ListParagraph") };
                let mut k: usize = 0;
                while k < items.len()
                    invariant
                        k <= items.len(),
                        style == (if styled { None::<&str> } else { Some("ListParagraph") }),
                        out@ == o1 + items_xml(items@.take(k as int), list_style(styled)),
                    decreases items.len() - k,
                {
                    assert(items@.take(k + 1).drop_last() == items@.take(k as int));
                    let item = &items[k];
                    let ghost o2 = out@;
                    let mut m: usize = 0;
                    while m < item.len()
                        invariant
                            m <= item.len(),
                            style == (if styled { None::<&str> } else { Some("ListParagraph") }),
                            out@ == o2 + item_xml(item@.take(m as int), list_style(styled)),
                        decreases item.len() - m,
                    {
                        assert(item@.take(m + 1).drop_last() == item@.take(m as int));
                        assert(item@.take(m + 1).last() == item@[m as int]);
                        let t = item[m].plain_text();
                        let text = if m == 0 {
                            let mut b = owned("\u{2022}  ");
                            put(&mut b, t.as_str());
                            b
                        } else {
                            t
                        };
                        let mut rs: Vec<String> = Vec::new();
                        rs.push(run(text.as_str(), false, false));
                        assert(strs::views(rs@) =~= seq![run_xml(text@, false, false)]);
                        let p = para(&rs, style);
                        put(out, p.as_str());
                        m += 1;
                    }
                    assert(item@.take(item.len() as int) == item@);
                    k += 1;
                }
                assert(items@.take(items.len() as int) == items@);
                assert(out@ =~= o1 + block_xml(bs@[i as int], styled));
            },
            Block::Table { rows } => {
                let mut k: usize = 0;
                while k < rows.len()
                    invariant
                        k <= rows.len(),
                        out@ == o1 + rows_xml(rows@.take(k as int)),
                    decreases rows.len() - k,
                {
                    assert(rows@.take(k + 1).drop_last() == rows@.take(k as int));
                    let row = &rows[k];
                    let mut cells: Vec<String> = Vec::new();
                    let mut m: usize = 0;
                    while m < row.len()
                        invariant
                            m <= row.len(),
                            strs::views(cells@) == cells_text(row@.take(m as int)),
                        decreases row.len() - m,
                    {
                        assert(row@.take(m + 1).drop_last() == row@.take(m as int));
                        let ghost c0 = strs::views(cells@);
                        let c = cell_text_exec(&row[m]);
                        cells.push(c);
                        assert(strs::views(cells@) =~= c0.push(cell_text(row@[m as int]@)));
                        m += 1;
                    }
                    assert(row@.take(row.len() as int) == row@);
                    let joined = strs::join_strings(&cells, "\t");
                    let p = one_run_para(joined.as_str(), false);
                    put(out, p.as_str());
                    k += 1;
                }
                assert(rows@.take(rows.len() as int) == rows@);
                assert(out@ =~= o1 + block_xml(bs@[i as int], styled));
            },
            Block::Variable { label, value, .. } => {
                let text = match value {
                    Some(v) => v.clone(),
                    None => {
                        let mut t = String::new();
                        t.push('[');
                        put(&mut t, label.as_str());
                        t.push(']');
                        t
                    },
                };
                assert(text@ == variable_text(label@, opt_view(*value)));
                let p = one_run_para(text.as_str(), false);
                put(out, p.as_str());
                assert(out@ =~= o1 + block_xml(bs@[i as int], styled));
            },
        }
        assert(out@ =~= o0 + blocks_xml(bs@.take(i + 1), styled));
        i += 1;
    }
    assert(bs@.take(bs.len() as int) == bs@);
}

/// A lifted precedent paragraph made fit for a new document (see `prepared`).
pub fn prepare_source_paragraph(p: &str) -> (r: String)
    ensures
        r@ == prepared(p@),
{
    let v = chars_of(p);
    let a = strip_element(v.as_slice(), chars_of("<w:numPr").as_slice(), chars_of("</w:numPr>").as_slice());
    let b = strip_element(a.as_slice(), chars_of("<w:drawing").as_slice(), chars_of("</w:drawing>").as_slice());
    let c = strip_element(b.as_slice(), chars_of("<w:pict").as_slice(), chars_of("</w:pict>").as_slice());
    let d = strip_element(c.as_slice(), chars_of("<w:object").as_slice(), chars_of("</w:object>").as_slice());
    let e = unwrap_element(d.as_slice(), chars_of("w:hyperlink").as_slice());
    string_of(e.as_slice())
}

fn party_into(out: &mut String, p: &Party)
    ensures
        final(out)@ == old(out)@ + party_xml(*p),
{
    let mut tail = owned(" (the \"");
    put(&mut tail, p.role.as_str());
    put(&mut tail, "\")");
    match &p.reg_no {
        Some(reg) => {
            put(&mut tail, ", registration number ");
            put(&mut tail, reg.as_str());
        },
        None => {},
    }
    match &p.entity_type {
        Some(t) => {
            put(&mut tail, ", a ");
            put(&mut tail, t.as_str());
        },
        None => {},
    }
    assert(tail@ == " (the \""@ + p.role@ + "\")"@
        + (match p.reg_no { Some(r) => ", registration number "@ + r@, None => Seq::empty() })
        + (match p.entity_type { Some(t) => ", a "@ + t@, None => Seq::empty() }));
    let mut rs: Vec<String> = Vec::new();
    rs.push(run(p.name.as_str(), true, false));
    rs.push(run(tail.as_str(), false, false));
    assert(strs::views(rs@) =~= seq![run_xml(p.name@, true, false), run_xml(tail@, false, false)]);
    let x = para(&rs, None);
    put(out, x.as_str());
}

fn clause_into(out: &mut String, c: &LirClause, styled: bool)
    ensures
        final(out)@ == old(out)@ + clause_xml(*c, styled),
    decreases *c,
{
    let ghost start = out@;
    let blank = chars::trim_str(c.heading.as_str()).len() == 0;
    let mut h = c.number.clone();
    if !blank {
        put(&mut h, ". ");
        put(&mut h, c.heading.as_str());
    }
    let hx = heading(h.as_str(), false, styled);
    put(out, hx.as_str());
    if styled && c.source_ooxml.len() > 0 {
        let ghost o0 = out@;
        let mut i: usize = 0;
        while i < c.source_ooxml.len()
            invariant
                i <= c.source_ooxml.len(),
                out@ == o0 + prepared_all(c.source_ooxml@.take(i as int)),
            decreases c.source_ooxml.len() - i,
        {
            assert(c.source_ooxml@.take(i + 1).drop_last() == c.source_ooxml@.take(i as int));
            let x = prepare_source_paragraph(c.source_ooxml[i].as_str());
            put(out, x.as_str());
            i += 1;
        }
        assert(c.source_ooxml@.take(c.source_ooxml.len() as int) == c.source_ooxml@);
    } else {
        blocks_xml_into(out, &c.body, styled);
    }
    let ghost mid = out@;
    assert forall|k: int| 0 <= k < c.children@.len() implies decreases_to!(*c => c.children@[k]) by {
        assert(decreases_to!(*c => c.children));
        assert(decreases_to!(c.children => c.children@));
        assert(decreases_to!(c.children@ => c.children@[k]));
    }
    let mut j: usize = 0;
    while j < c.children.len()
        invariant
            j <= c.children.len(),
            forall|k: int| 0 <= k < c.children@.len() ==> decreases_to!(*c => c.children@[k]),
            out@ == mid + clauses_xml(c.children@.take(j as int), styled),
        decreases c.children.len() - j,
    {
        assert(c.children@.take(j + 1).drop_last() == c.children@.take(j as int));
        clause_into(out, &c.children[j], styled);
        j += 1;
    }
    assert(c.children@.take(c.children.len() as int) == c.children@);
}

fn parties_into(out: &mut String, doc: &LirDocument)
    ensures
        final(out)@ == old(out)@ + parties_part(*doc),
{
    if doc.parties.len() > 0 {
        let mut rs: Vec<String> = Vec::new();
        rs.push(run("Between:", true, false));
        assert(strs::views(rs@) =~= seq![run_xml("Between:"@, true, false)]);
        let b = para(&rs, None);
        put(out, b.as_str());
        let ghost o0 = out@;
        let mut i: usize = 0;
        while i < doc.parties.len()
            invariant
                i <= doc.parties.len(),
                out@ == o0 + parties_xml(doc.parties@.take(i as int)),
            decreases doc.parties.len() - i,
        {
            assert(doc.parties@.take(i + 1).drop_last() == doc.parties@.take(i as int));
            party_into(out, &doc.parties[i]);
            i += 1;
        }
        assert(doc.parties@.take(doc.parties.len() as int) == doc.parties@);
    }
}

fn recitals_into(out: &mut String, doc: &LirDocument, styled: bool)
    ensures
        final(out)@ == old(out)@ + recitals_xml(doc.recitals@, styled),
{
    let ghost o1 = out@;
    let mut i: usize = 0;
    while i < doc.recitals.len()
        invariant
            i <= doc.recitals.len(),
            out@ == o1 + recitals_xml(doc.recitals@.take(i as int), styled),
        decreases doc.recitals.len() - i,
    {
        assert(doc.recitals@.take(i + 1).drop_last() == doc.recitals@.take(i as int));
        blocks_xml_into(out, &doc.recitals[i].body, styled);
        i += 1;
    }
    assert(doc.recitals@.take(doc.recitals.len() as int) == doc.recitals@);
}

fn clauses_into(out: &mut String, doc: &LirDocument, styled: bool)
    ensures
        final(out)@ == old(out)@ + clauses_xml(doc.clauses@, styled),
{
    let ghost o2 = out@;
    let mut i: usize = 0;
    while i < doc.clauses.len()
        invariant
            i <= doc.clauses.len(),
            out@ == o2 + clauses_xml(doc.clauses@.take(i as int), styled),
        decreases doc.clauses.len() - i,
    {
        assert(doc.clauses@.take(i + 1).drop_last() == doc.clauses@.take(i as int));
        clause_into(out, &doc.clauses[i], styled);
        i += 1;
    }
    assert(doc.clauses@.take(doc.clauses.len() as int) == doc.clauses@);
}

fn schedules_into(out: &mut String, doc: &LirDocument, styled: bool)
    ensures
        final(out)@ == old(out)@ + schedules_xml(doc.schedules@, styled),
{
    let ghost o3 = out@;
    let mut i: usize = 0;
    while i < doc.schedules.len()
        invariant
            i <= doc.schedules.len(),
            out@ == o3 + schedules_xml(doc.schedules@.take(i as int), styled),
        decreases doc.schedules.len() - i,
    {
        assert(doc.schedules@.take(i + 1).drop_last() == doc.schedules@.take(i as int));
        let h = heading(doc.schedules[i].title.as_str(), false, styled);
        put(out, h.as_str());
        blocks_xml_into(out, &doc.schedules[i].body, styled);
        i += 1;
    }
    assert(doc.schedules@.take(doc.schedules.len() as int) == doc.schedules@);
}

fn execution_into(out: &mut String, doc: &LirDocument, styled: bool)
    ensures
        final(out)@ == old(out)@ + execution_part(*doc, styled),
{
    if doc.execution.blocks.len() > 0 {
        let h = heading("Execution", false, styled);
        put(out, h.as_str());
        let ghost o4 = out@;
        let mut i: usize = 0;
        while i < doc.execution.blocks.len()
            invariant
                i <= doc.execution.blocks.len(),
                out@ == o4 + signatures_xml(doc.execution.blocks@.take(i as int)),
            decreases doc.execution.blocks.len() - i,
        {
            assert(doc.execution.blocks@.take(i + 1).drop_last() == doc.execution.blocks@.take(i as int));
            let mut line = owned("Signed ");
            put(&mut line, doc.execution.blocks[i].signatory_line.as_str());
            let a = one_run_para(line.as_str(), false);
            put(out, a.as_str());
            let b = one_run_para("_____________________________", false);
            put(out, b.as_str());
            let c = one_run_para("Name / Capacity / Date", true);
            put(out, c.as_str());
            i += 1;
        }
        assert(doc.execution.blocks@.take(doc.execution.blocks.len() as int) == doc.execution.blocks@);
    }
}

fn law_into(out: &mut String, doc: &LirDocument)
    ensures
        final(out)@ == old(out)@ + law_part(*doc),
{
    match &doc.meta.jurisdiction {
        Some(j) => {
            let mut g = owned("Governing law: ");
            put(&mut g, j.as_str());
            put(&mut g, ".");
            let p = one_run_para(g.as_str(), true);
            put(out, p.as_str());
        },
        None => {},
    }
}

/// Build `word/document.xml` for a document, styled when a donor is given.
#[verifier::rlimit(60)]
pub fn build_document_xml(doc: &LirDocument, donor: Option<&StyleDonor>) -> (r: String)
    ensures
        r@ == document_xml(*doc, match donor { Some(d) => Some(*d), None => None }),
{
    let ghost dn = match donor { Some(d) => Some(*d), None => None::<StyleDonor> };
    reveal(document_xml);
    let styled = donor.is_some();
    let mut out = owned("<?xml version=\"1.0\" encoding=\"UTF-8\" standalone=\"yes\"?>\n<w:document ");
    let default_attrs = "xmlns:w=\"http://schemas.openxmlformats.org/wordprocessingml/2006/main\" xmlns:r=\"http://schemas.openxmlformats.org/officeDocument/2006/relationships\"";
    match donor {
        Some(d) => match &d.document_attrs {
            Some(a) => put(&mut out, a.as_str()),
            None => put(&mut out, default_attrs),
        },
        None => put(&mut out, default_attrs),
    }
    put(&mut out, "><w:body>");
    let mut body = heading(doc.meta.title.as_str(), true, styled);
    let ghost b1 = body@;
    parties_into(&mut body, doc);
    let ghost b2 = body@;
    recitals_into(&mut body, doc, styled);
    let ghost b3 = body@;
    clauses_into(&mut body, doc, styled);
    let ghost b4 = body@;
    schedules_into(&mut body, doc, styled);
    let ghost b5 = body@;
    execution_into(&mut body, doc, styled);
    let ghost b6 = body@;
    law_into(&mut body, doc);
    let ghost b7 = body@;
    match donor {
        Some(d) => match &d.sect_pr {
            Some(sp) => put(&mut body, sp.as_str()),
            None => {},
        },
        None => {},
    }
    assert(body@ == b7 + section_part(dn));
    assert(body@ == body_xml(*doc, dn));
    put(&mut out, body.as_str());
    put(&mut out, "</w:body></w:document>");
    out
}

// ---------------------------------------------------------------------------
// The package
// ---------------------------------------------------------------------------

pub open spec fn content_types_head() -> Seq<char> {
    "<?xml version=\"1.0\" encoding=\"UTF-8\" standalone=\"yes\"?>\n<Types xmlns=\"http://schemas.openxmlformats.org/package/2006/content-types\">\n<Default Extension=\"rels\" ContentType=\"application/vnd.openxmlformats-package.relationships+xml\"/>\n<Default Extension=\"xml\" ContentType=\"application/xml\"/>\n<Override PartName=\"/word/document.xml\" ContentType=\"application/vnd.openxmlformats-officedocument.wordprocessingml.document.main+xml\"/>"@
}

pub open spec fn package_rels() -> Seq<char> {
    "<?xml version=\"1.0\" encoding=\"UTF-8\" standalone=\"yes\"?>\n<Relationships xmlns=\"http://schemas.openxmlformats.org/package/2006/relationships\">\n<Relationship Id=\"rId1\" Type=\"http://schemas.openxmlformats.org/officeDocument/2006/relationships/officeDocument\" Target=\"word/document.xml\"/>\n</Relationships>"@
}

pub open spec fn override_xml(part: Seq<char>, ct: Seq<char>) -> Seq<char> {
    "<Override PartName=\""@ + part + "\" ContentType=\""@ + ct + "\"/>"@
}

pub open spec fn opt_part(present: bool, x: Seq<char>) -> Seq<char> {
    if present { x } else { Seq::empty() }
}

/// `[Content_Types].xml`: the document part, plus an override for each part a
/// donor supplies.
#[verifier::opaque]
pub open spec fn content_types_xml(donor: Option<StyleDonor>) -> Seq<char> {
    content_types_head()
        + (match donor {
            Some(d) =>
                opt_part(d.styles_xml is Some, override_xml("/word/styles.xml"@, "application/vnd.openxmlformats-officedocument.wordprocessingml.styles+xml"@))
                + opt_part(d.theme_xml is Some, override_xml("/word/theme/theme1.xml"@, "application/vnd.openxmlformats-officedocument.theme+xml"@))
                + opt_part(d.font_table_xml is Some, override_xml("/word/fontTable.xml"@, "application/vnd.openxmlformats-officedocument.wordprocessingml.fontTable+xml"@))
                + opt_part(d.numbering_xml is Some, override_xml("/word/numbering.xml"@, "application/vnd.openxmlformats-officedocument.wordprocessingml.numbering+xml"@))
                + opt_part(d.settings_xml is Some, override_xml("/word/settings.xml"@, "application/vnd.openxmlformats-officedocument.wordprocessingml.settings+xml"@)),
            None => Seq::empty(),
        })
        + "</Types>"@
}

/// The (type, target) relationships a donor's parts need, in order.
pub open spec fn donor_rels(d: StyleDonor) -> Seq<(Seq<char>, Seq<char>)> {
    (if d.styles_xml is Some { seq![("styles"@, "styles.xml"@)] } else { Seq::empty() })
        + (if d.theme_xml is Some { seq![("theme"@, "theme/theme1.xml"@)] } else { Seq::empty() })
        + (if d.font_table_xml is Some { seq![("fontTable"@, "fontTable.xml"@)] } else { Seq::empty() })
        + (if d.numbering_xml is Some { seq![("numbering"@, "numbering.xml"@)] } else { Seq::empty() })
        + (if d.settings_xml is Some { seq![("settings"@, "settings.xml"@)] } else { Seq::empty() })
}

pub open spec fn rel_xml(id: nat, ty: Seq<char>, target: Seq<char>) -> Seq<char> {
    "<Relationship Id=\"rId"@ + crate::num::decimal(id) + "\" Type=\"http://schemas.openxmlformats.org/officeDocument/2006/relationships/"@ + ty + "\" Target=\""@ + target
        + "\"/>"@
}

pub open spec fn rels_entries(rels: Seq<(Seq<char>, Seq<char>)>) -> Seq<char>
    decreases rels.len(),
{
    if rels.len() == 0 {
        Seq::empty()
    } else {
        rels_entries(rels.drop_last()) + rel_xml(rels.len(), rels.last().0, rels.last().1)
    }
}

/// `word/_rels/document.xml.rels`: one relationship per donor part, numbered
/// from rId1.
#[verifier::opaque]
pub open spec fn document_rels_xml(d: StyleDonor) -> Seq<char> {
    "<?xml version=\"1.0\" encoding=\"UTF-8\" standalone=\"yes\"?>\n<Relationships xmlns=\"http://schemas.openxmlformats.org/package/2006/relationships\">"@ + rels_entries(donor_rels(d)) + "</Relationships>"@
}

pub open spec fn opt_file(name: Seq<char>, part: Option<String>) -> Seq<(Seq<char>, Seq<char>)> {
    match part {
        Some(x) => seq![(name, x@)],
        None => Seq::empty(),
    }
}

/// The files of a DOCX package for a document, in order.
pub open spec fn docx_files(doc: LirDocument, donor: Option<StyleDonor>) -> Seq<(Seq<char>, Seq<char>)> {
    seq![("[Content_Types].xml"@, content_types_xml(donor)), ("_rels/.rels"@, package_rels()),
        ("word/document.xml"@, document_xml(doc, donor))]
        + (match donor {
            Some(d) => seq![("word/_rels/document.xml.rels"@, document_rels_xml(d))]
                + opt_file("word/styles.xml"@, d.styles_xml)
                + opt_file("word/theme/theme1.xml"@, d.theme_xml)
                + opt_file("word/fontTable.xml"@, d.font_table_xml)
                + opt_file("word/numbering.xml"@, d.numbering_xml)
                + opt_file("word/settings.xml"@, d.settings_xml),
            None => Seq::empty(),
        })
}

fn content_types(donor: Option<&StyleDonor>) -> (r: String)
    ensures
        r@ == content_types_xml(match donor { Some(d) => Some(*d), None => None }),
{
    reveal(content_types_xml);
    let mut s = owned("<?xml version=\"1.0\" encoding=\"UTF-8\" standalone=\"yes\"?>\n<Types xmlns=\"http://schemas.openxmlformats.org/package/2006/content-types\">\n<Default Extension=\"rels\" ContentType=\"application/vnd.openxmlformats-package.relationships+xml\"/>\n<Default Extension=\"xml\" ContentType=\"application/xml\"/>\n<Override PartName=\"/word/document.xml\" ContentType=\"application/vnd.openxmlformats-officedocument.wordprocessingml.document.main+xml\"/>");
    match donor {
        Some(d) => {
            if d.styles_xml.is_some() {
                over(&mut s, "/word/styles.xml", "application/vnd.openxmlformats-officedocument.wordprocessingml.styles+xml");
            }
            if d.theme_xml.is_some() {
                over(&mut s, "/word/theme/theme1.xml", "application/vnd.openxmlformats-officedocument.theme+xml");
            }
            if d.font_table_xml.is_some() {
                over(&mut s, "/word/fontTable.xml", "application/vnd.openxmlformats-officedocument.wordprocessingml.fontTable+xml");
            }
            if d.numbering_xml.is_some() {
                over(&mut s, "/word/numbering.xml", "application/vnd.openxmlformats-officedocument.wordprocessingml.numbering+xml");
            }
            if d.settings_xml.is_some() {
                over(&mut s, "/word/settings.xml", "application/vnd.openxmlformats-officedocument.wordprocessingml.settings+xml");
            }
        },
        None => {},
    }
    put(&mut s, "</Types>");
    s
}

fn over(s: &mut String, part: &str, ct: &str)
    ensures
        final(s)@ == old(s)@ + override_xml(part@, ct@),
{
    put(s, "<Override PartName=\"");
    put(s, part);
    put(s, "\" ContentType=\"");
    put(s, ct);
    put(s, "\"/>");
}

fn rel(s: &mut String, id: usize, ty: &str, target: &str)
    ensures
        final(s)@ == old(s)@ + rel_xml(id as nat, ty@, target@),
{
    put(s, "<Relationship Id=\"rId");
    let n = crate::num::decimal_string(id);
    put(s, n.as_str());
    put(s, "\" Type=\"http://schemas.openxmlformats.org/officeDocument/2006/relationships/");
    put(s, ty);
    put(s, "\" Target=\"");
    put(s, target);
    put(s, "\"/>");
}

fn document_rels(d: &StyleDonor) -> (r: String)
    ensures
        r@ == document_rels_xml(*d),
{
    reveal(document_rels_xml);
    let mut wanted: Vec<(&str, &str)> = Vec::new();
    if d.styles_xml.is_some() {
        wanted.push(("styles", "styles.xml"));
    }
    if d.theme_xml.is_some() {
        wanted.push(("theme", "theme/theme1.xml"));
    }
    if d.font_table_xml.is_some() {
        wanted.push(("fontTable", "fontTable.xml"));
    }
    if d.numbering_xml.is_some() {
        wanted.push(("numbering", "numbering.xml"));
    }
    if d.settings_xml.is_some() {
        wanted.push(("settings", "settings.xml"));
    }
    let ghost wv = wanted@.map_values(|p: (&str, &str)| (p.0@, p.1@));
    assert(wv =~= donor_rels(*d));
    let mut s = owned("<?xml version=\"1.0\" encoding=\"UTF-8\" standalone=\"yes\"?>\n<Relationships xmlns=\"http://schemas.openxmlformats.org/package/2006/relationships\">");
    let ghost s0 = s@;
    let mut i: usize = 0;
    while i < wanted.len()
        invariant
            i <= wanted.len() <= 5,
            wv == wanted@.map_values(|p: (&str, &str)| (p.0@, p.1@)),
            s@ == s0 + rels_entries(wv.take(i as int)),
        decreases wanted.len() - i,
    {
        assert(wv.take(i + 1).drop_last() == wv.take(i as int));
        rel(&mut s, i + 1, wanted[i].0, wanted[i].1);
        i += 1;
    }
    assert(wv.take(wanted.len() as int) == wv);
    put(&mut s, "</Relationships>");
    s
}

fn push_file(files: &mut Vec<(String, String)>, name: &str, text: String)
    ensures
        crate::package::files_view(final(files)@) == crate::package::files_view(old(files)@).push((name@, text@)),
{
    let ghost f0 = crate::package::files_view(files@);
    files.push((owned(name), text));
    assert(crate::package::files_view(files@) =~= f0.push((name@, text@)));
}

fn push_opt_file(files: &mut Vec<(String, String)>, name: &str, part: &Option<String>)
    ensures
        crate::package::files_view(final(files)@) == crate::package::files_view(old(files)@) + opt_file(name@, *part),
{
    let ghost f0 = crate::package::files_view(files@);
    match part {
        Some(x) => {
            push_file(files, name, x.clone());
            assert(crate::package::files_view(files@) =~= f0 + opt_file(name@, *part));
        },
        None => {
            assert(f0 + opt_file(name@, *part) =~= f0);
        },
    }
}

proof fn lemma_add_name(s: Seq<(Seq<char>, Seq<char>)>, t: Seq<(Seq<char>, Seq<char>)>, n: Seq<char>, before: Set<Seq<char>>)
    requires
        crate::package::names_distinct(s),
        crate::package::names_short(s),
        forall|i: int| 0 <= i < s.len() ==> before.contains(#[trigger] s[i].0),
        !before.contains(n),
        n.len() <= 100,
        t.len() <= 1,
        forall|i: int| 0 <= i < t.len() ==> #[trigger] t[i].0 == n,
    ensures
        crate::package::names_distinct(s + t),
        crate::package::names_short(s + t),
        forall|i: int| 0 <= i < (s + t).len() ==> before.insert(n).contains(#[trigger] (s + t)[i].0),
{
    crate::chars::lemma_byte_len_bound(n);
    let u = s + t;
    assert forall|i: int, j: int| 0 <= i < j < u.len() implies #[trigger] u[i].0 != #[trigger] u[j].0 by {
        if j >= s.len() {
            assert(u[j].0 == n);
            assert(before.contains(s[i].0));
        } else {
            assert(u[i] == s[i] && u[j] == s[j]);
        }
    }
    assert forall|i: int| 0 <= i < u.len() implies crate::chars::byte_len(#[trigger] u[i].0) <= 65535 by {
        if i >= s.len() {
            assert(u[i].0 == n);
        } else {
            assert(u[i] == s[i]);
        }
    }
    assert forall|i: int| 0 <= i < u.len() implies before.insert(n).contains(#[trigger] u[i].0) by {
        if i < s.len() {
            assert(u[i] == s[i]);
        }
    }
}

/// The parts of a DOCX package have distinct, short names.
proof fn lemma_docx_names(doc: LirDocument, donor: Option<StyleDonor>)
    ensures
        crate::package::names_distinct(docx_files(doc, donor)),
        crate::package::names_short(docx_files(doc, donor)),
{
    reveal_strlit("[Content_Types].xml");
    reveal_strlit("_rels/.rels");
    reveal_strlit("word/document.xml");
    reveal_strlit("word/_rels/document.xml.rels");
    reveal_strlit("word/styles.xml");
    reveal_strlit("word/theme/theme1.xml");
    reveal_strlit("word/fontTable.xml");
    reveal_strlit("word/numbering.xml");
    reveal_strlit("word/settings.xml");
    let n0 = "[Content_Types].xml"@;
    let n1 = "_rels/.rels"@;
    let n2 = "word/document.xml"@;
    let n3 = "word/_rels/document.xml.rels"@;
    let n4 = "word/styles.xml"@;
    let n5 = "word/theme/theme1.xml"@;
    let n6 = "word/fontTable.xml"@;
    let n7 = "word/numbering.xml"@;
    let n8 = "word/settings.xml"@;
    assert(n2[5] != n8[5]);
    assert(n6[5] != n7[5]);
    let e = Seq::<(Seq<char>, Seq<char>)>::empty();
    let s0 = seq![(n0, content_types_xml(donor))];
    let s1 = seq![(n1, package_rels())];
    let s2 = seq![(n2, document_xml(doc, donor))];
    lemma_add_name(e, s0, n0, Set::empty());
    assert(e + s0 =~= s0);
    lemma_add_name(s0, s1, n1, set![n0]);
    lemma_add_name(s0 + s1, s2, n2, set![n0].insert(n1));
    let base = s0 + s1 + s2;
    let p2 = set![n0].insert(n1).insert(n2);
    assert(base =~= seq![(n0, content_types_xml(donor)), (n1, package_rels()), (n2, document_xml(doc, donor))]);
    match donor {
        Some(d) => {
            let a = base + seq![(n3, document_rels_xml(d))];
            lemma_add_name(base, seq![(n3, document_rels_xml(d))], n3, p2);
            let p3 = p2.insert(n3);
            let b = a + opt_file(n4, d.styles_xml);
            lemma_add_name(a, opt_file(n4, d.styles_xml), n4, p3);
            let p4 = p3.insert(n4);
            let c = b + opt_file(n5, d.theme_xml);
            lemma_add_name(b, opt_file(n5, d.theme_xml), n5, p4);
            let p5 = p4.insert(n5);
            let f = c + opt_file(n6, d.font_table_xml);
            lemma_add_name(c, opt_file(n6, d.font_table_xml), n6, p5);
            let p6 = p5.insert(n6);
            let g = f + opt_file(n7, d.numbering_xml);
            lemma_add_name(f, opt_file(n7, d.numbering_xml), n7, p6);
            let p7 = p6.insert(n7);
            let h = g + opt_file(n8, d.settings_xml);
            lemma_add_name(g, opt_file(n8, d.settings_xml), n8, p7);
            assert(docx_files(doc, donor) =~= h);
        },
        None => {
            assert(docx_files(doc, donor) =~= base);
        },
    }
}

fn render_inner(doc: &LirDocument, donor: Option<&StyleDonor>) -> (r: Result<Vec<u8>, CoreError>)
    ensures
        r matches Ok(bytes) ==> bytes@ == crate::package::zip_package(
            docx_files(*doc, match donor { Some(d) => Some(*d), None => None })),
        r matches Err(e) ==> crate::package::package_error(e),
        crate::package::files_bytes(docx_files(*doc, match donor { Some(d) => Some(*d), None => None }))
            <= crate::package::zip_limit() ==> r is Ok,
{
    let ghost dn = match donor { Some(d) => Some(*d), None => None::<StyleDonor> };
    let mut files: Vec<(String, String)> = Vec::new();
    push_file(&mut files, "[Content_Types].xml", content_types(donor));
    push_file(&mut files, "_rels/.rels", owned("<?xml version=\"1.0\" encoding=\"UTF-8\" standalone=\"yes\"?>\n<Relationships xmlns=\"http://schemas.openxmlformats.org/package/2006/relationships\">\n<Relationship Id=\"rId1\" Type=\"http://schemas.openxmlformats.org/officeDocument/2006/relationships/officeDocument\" Target=\"word/document.xml\"/>\n</Relationships>"));
    push_file(&mut files, "word/document.xml", build_document_xml(doc, donor));
    let ghost base = crate::package::files_view(files@);
    match donor {
        Some(d) => {
            push_file(&mut files, "word/_rels/document.xml.rels", document_rels(d));
            push_opt_file(&mut files, "word/styles.xml", &d.styles_xml);
            push_opt_file(&mut files, "word/theme/theme1.xml", &d.theme_xml);
            push_opt_file(&mut files, "word/fontTable.xml", &d.font_table_xml);
            push_opt_file(&mut files, "word/numbering.xml", &d.numbering_xml);
            push_opt_file(&mut files, "word/settings.xml", &d.settings_xml);
        },
        None => {},
    }
    assert(crate::package::files_view(files@) =~= docx_files(*doc, dn));
    proof {
        lemma_docx_names(*doc, dn);
    }
    crate::package::package(&files)
}

/// Render a document as a DOCX package with Word's built-in styles.
pub fn render_docx(doc: &LirDocument) -> (r: Result<Vec<u8>, CoreError>)
    ensures
        r matches Ok(bytes) ==> bytes@ == crate::package::zip_package(docx_files(*doc, None)),
        r matches Err(e) ==> crate::package::package_error(e),
        crate::package::files_bytes(docx_files(*doc, None)) <= crate::package::zip_limit() ==> r is Ok,
{
    render_inner(doc, None)
}

/// Render inheriting a precedent's styling. With no donor, or one that
/// carries no style definitions, this is exactly `render_docx`.
pub fn render_docx_with_style(doc: &LirDocument, donor: Option<&StyleDonor>) -> (r: Result<Vec<u8>, CoreError>)
    ensures
        r matches Ok(bytes) ==> bytes@ == crate::package::zip_package(docx_files(*doc,
            match donor { Some(d) => if d.styles_xml is Some { Some(*d) } else { None }, None => None })),
        r matches Err(e) ==> crate::package::package_error(e),
        crate::package::files_bytes(docx_files(*doc,
            match donor { Some(d) => if d.styles_xml is Some { Some(*d) } else { None }, None => None }))
            <= crate::package::zip_limit() ==> r is Ok,
{
    let usable: Option<&StyleDonor> = match donor {
        Some(d) => if d.is_usable() { Some(d) } else { None },
        None => None,
    };
    render_inner(doc, usable)
}

/// Escaped text holds no markup: no `<`, `>` or `"` survives escaping, so
/// text can never open or close an element or end an attribute value.
pub proof fn lemma_escaped_text_has_no_markup(s: Seq<char>)
    ensures
        forall|i: int| 0 <= i < esc(s).len() ==> #[trigger] esc(s)[i] != '<' && esc(s)[i] != '>' && esc(s)[i] != '"',
    decreases s.len(),
{
    reveal_strlit("&amp;");
    reveal_strlit("&lt;");
    reveal_strlit("&gt;");
    reveal_strlit("&quot;");
    if s.len() > 0 {
        lemma_escaped_text_has_no_markup(s.drop_last());
        let a = esc(s.drop_last());
        let b = esc_char(s.last());
        assert(esc(s) == a + b);
        assert forall|i: int| 0 <= i < b.len() implies #[trigger] b[i] != '<' && b[i] != '>' && b[i] != '"' by {
            let c = s.last();
            if c == '&' {
                assert(b == seq!['&', 'a', 'm', 'p', ';']);
            } else if c == '<' {
                assert(b == seq!['&', 'l', 't', ';']);
            } else if c == '>' {
                assert(b == seq!['&', 'g', 't', ';']);
            } else if c == '"' {
                assert(b == seq!['&', 'q', 'u', 'o', 't', ';']);
            }
        }
        assert forall|i: int| 0 <= i < esc(s).len() implies #[trigger] esc(s)[i] != '<' && esc(s)[i] != '>' && esc(s)[i] != '"' by {
            if i < a.len() {
                assert((a + b)[i] == a[i]);
            } else {
                assert((a + b)[i] == b[i - a.len()]);
            }
        }
    }
}

} // verus!
