//! Legal Intermediate Representation (LIR): the canonical document format.
//! Every assembled draft is LIR, and rendering reads only LIR.

use vstd::prelude::*;
use crate::chars::{self, push_str, copy_opt};
use crate::strs::{self, owned};

verus! {

pub open spec fn lir_version() -> Seq<char> {
    "0.1"@
}

#[derive(Debug)]
pub struct LirDocument {
    pub lir_version: String,
    pub meta: LirMeta,
    pub parties: Vec<Party>,
    pub recitals: Vec<Recital>,
    /// Canonical defined-terms table; validation resolves against it.
    pub definitions: Vec<Definition>,
    pub clauses: Vec<LirClause>,
    pub schedules: Vec<Schedule>,
    pub execution: Execution,
}

#[derive(Debug, Clone)]
pub struct LirMeta {
    pub title: String,
    pub contract_type: String,
    pub jurisdiction: Option<String>,
    pub language: String,
    pub matter_id: Option<String>,
    pub created_at: String,
}

#[derive(Debug, Clone)]
pub struct Party {
    /// Stable token used to refer to this party ("disclosing", "seller").
    pub id: String,
    pub name: String,
    /// Defined role as it appears in the document ("Disclosing Party").
    pub role: String,
    pub entity_type: Option<String>,
    pub reg_no: Option<String>,
    pub address: Option<String>,
}

#[derive(Debug)]
pub struct Recital {
    pub id: String,
    pub body: Vec<Block>,
    pub provenance: Provenance,
    /// Original OOXML body paragraphs, as for `LirClause::source_ooxml`.
    pub source_ooxml: Vec<String>,
}

#[derive(Debug)]
pub struct Definition {
    pub term: String,
    pub body: Vec<Block>,
    pub provenance: Provenance,
    /// Original OOXML of the definition's source paragraph (DOCX), if any.
    pub ooxml: Vec<String>,
}

#[derive(Debug)]
pub struct LirClause {
    pub id: String,
    /// Assigned by the assembler only. Hierarchical: "3", "3.1", "3.1.2".
    pub number: String,
    pub heading: String,
    pub body: Vec<Block>,
    /// Sub-clauses, in order.
    pub children: Vec<LirClause>,
    pub cross_refs: Vec<String>,
    pub defined_terms_used: Vec<String>,
    pub provenance: Provenance,
    /// Original OOXML body paragraphs from the source precedent (DOCX).
    pub source_ooxml: Vec<String>,
    /// Original OOXML of the source clause's heading paragraph (DOCX).
    pub heading_ooxml: Option<String>,
}

#[derive(Debug)]
pub struct Schedule {
    pub id: String,
    pub title: String,
    pub body: Vec<Block>,
    pub provenance: Provenance,
    pub source_ooxml: Vec<String>,
    pub heading_ooxml: Option<String>,
}

#[derive(Debug, Clone)]
pub struct Execution {
    pub blocks: Vec<SignatureBlock>,
}

impl Default for Execution {
    fn default() -> (r: Execution)
        ensures
            r.blocks@.len() == 0,
    {
        Execution { blocks: Vec::new() }
    }
}

#[derive(Debug, Clone)]
pub struct SignatureBlock {
    pub party_id: String,
    pub party_name: String,
    pub signatory_line: String,
}

#[derive(Debug, Clone)]
pub struct Provenance {
    /// Source name the content came from ("banking-precedents").
    pub source: Option<String>,
    pub file: Option<String>,
    pub original_clause_id: Option<String>,
    /// True once an LLM has rewritten/filled this node.
    pub adapted_by_model: bool,
}

impl Default for Provenance {
    fn default() -> (r: Provenance)
        ensures
            r.source is None,
            r.file is None,
            r.original_clause_id is None,
            !r.adapted_by_model,
    {
        Provenance { source: None, file: None, original_clause_id: None, adapted_by_model: false }
    }
}

/// A content block. `Variable` blocks are placeholders resolved from the
/// matter; an unresolved one blocks rendering (validation).
#[derive(Debug)]
pub enum Block {
    Paragraph { runs: Vec<Run> },
    List { ordered: bool, items: Vec<Vec<Block>> },
    Table { rows: Vec<Vec<Vec<Block>>> },
    Variable { name: String, label: String, value: Option<String> },
}

#[derive(Debug, Clone)]
pub struct Run {
    pub text: String,
    pub style: RunStyle,
}

#[derive(Debug, Clone, Copy, PartialEq, Eq, Structural)]
pub enum RunStyle {
    Normal,
    Bold,
    Italic,
}

impl Default for RunStyle {
    fn default() -> (r: RunStyle)
        ensures
            r == RunStyle::Normal,
    {
        RunStyle::Normal
    }
}

// ---------------------------------------------------------------------------
// Plain text of blocks
// ---------------------------------------------------------------------------

/// The concatenated text of a sequence of runs.
pub open spec fn runs_text(runs: Seq<Run>) -> Seq<char>
    decreases runs.len(),
{
    if runs.len() == 0 {
        Seq::empty()
    } else {
        runs_text(runs.drop_last()) + runs.last().text@
    }
}

/// What a variable reads as: its value, or its label in brackets.
pub open spec fn variable_text(label: Seq<char>, value: Option<Seq<char>>) -> Seq<char> {
    match value {
        Some(v) => v,
        None => seq!['['] + label + seq![']'],
    }
}

/// A block's textual content: a paragraph's runs concatenated; the texts of
/// every block of every list item (or table cell) joined by single spaces; a
/// variable's value or bracketed label.
pub open spec fn block_text(b: Block) -> Seq<char>
    decreases b,
{
    match b {
        Block::Paragraph { runs } => runs_text(runs@),
        Block::List { items, .. } => strs::join(group_texts(items@), seq![' ']),
        Block::Table { rows } => strs::join(row_texts(rows@), seq![' ']),
        Block::Variable { label, value, .. } => variable_text(label@, strs::opt_view(value)),
    }
}

/// Texts of each block of each group, flattened, in order.
pub open spec fn group_texts(groups: Seq<Vec<Block>>) -> Seq<Seq<char>>
    decreases groups,
{
    if groups.len() == 0 {
        Seq::empty()
    } else {
        group_texts(groups.drop_last()) + blocks_texts(groups.last()@)
    }
}

/// Texts of each block of each cell of each row, flattened, in order.
pub open spec fn row_texts(rows: Seq<Vec<Vec<Block>>>) -> Seq<Seq<char>>
    decreases rows,
{
    if rows.len() == 0 {
        Seq::empty()
    } else {
        row_texts(rows.drop_last()) + group_texts(rows.last()@)
    }
}

/// The text of each block.
pub open spec fn blocks_texts(bs: Seq<Block>) -> Seq<Seq<char>>
    decreases bs,
{
    if bs.len() == 0 {
        Seq::empty()
    } else {
        blocks_texts(bs.drop_last()).push(block_text(bs.last()))
    }
}

impl Run {
    pub fn normal(text: &str) -> (r: Run)
        ensures
            r.text@ == text@,
            r.style == RunStyle::Normal,
    {
        Run { text: owned(text), style: RunStyle::Normal }
    }

    pub fn bold(text: &str) -> (r: Run)
        ensures
            r.text@ == text@,
            r.style == RunStyle::Bold,
    {
        Run { text: owned(text), style: RunStyle::Bold }
    }
}

fn append_block_texts(out: &mut String, bs: &Vec<Block>, first: bool) -> (still_first: bool)
    ensures
        still_first == (first && bs@.len() == 0),
        first ==> final(out)@ == old(out)@ + strs::join(blocks_texts(bs@), seq![' ']),
        !first ==> final(out)@ == old(out)@ + join_tail(blocks_texts(bs@)),
    decreases bs@, 0nat,
{
    let mut is_first = first;
    let ghost o0 = out@;
    let mut i: usize = 0;
    while i < bs.len()
        invariant
            i <= bs.len(),
            is_first == (first && i == 0),
            first ==> out@ == o0 + strs::join(blocks_texts(bs@.take(i as int)), seq![' ']),
            !first ==> out@ == o0 + join_tail(blocks_texts(bs@.take(i as int))),
        decreases bs.len() - i,
    {
        assert(bs@.take(i + 1).drop_last() == bs@.take(i as int));
        let t = bs[i].plain_text();
        let ghost prev = blocks_texts(bs@.take(i as int));
        if !is_first {
            out.push(' ');
        }
        push_str(out, t.as_str());
        proof {
            lemma_join_push(prev, t@);
            lemma_join_tail_push(prev, t@);
        }
        is_first = false;
        i += 1;
    }
    assert(bs@.take(bs.len() as int) == bs@);
    is_first
}

/// The parts, each preceded by one space.
pub open spec fn join_tail(parts: Seq<Seq<char>>) -> Seq<char>
    decreases parts.len(),
{
    if parts.len() == 0 {
        Seq::empty()
    } else {
        join_tail(parts.drop_last()) + seq![' '] + parts.last()
    }
}

pub proof fn lemma_join_push(parts: Seq<Seq<char>>, x: Seq<char>)
    ensures
        strs::join(parts.push(x), seq![' ']) == if parts.len() == 0 { x } else { strs::join(parts, seq![' ']) + seq![' '] + x },
{
    assert(parts.push(x).drop_last() == parts);
}

pub proof fn lemma_join_tail_push(parts: Seq<Seq<char>>, x: Seq<char>)
    ensures
        join_tail(parts.push(x)) == join_tail(parts) + seq![' '] + x,
{
    assert(parts.push(x).drop_last() == parts);
}

/// join(a + b) in terms of the pieces.
pub proof fn lemma_join_concat(a: Seq<Seq<char>>, b: Seq<Seq<char>>)
    ensures
        a.len() > 0 ==> strs::join(a + b, seq![' ']) == strs::join(a, seq![' ']) + join_tail(b),
        a.len() == 0 ==> strs::join(a + b, seq![' ']) == strs::join(b, seq![' ']),
    decreases b.len(),
{
    if b.len() == 0 {
        assert(a + b == a);
    } else {
        lemma_join_concat(a, b.drop_last());
        assert((a + b).drop_last() == a + b.drop_last());
        assert((a + b).last() == b.last());
        if a.len() == 0 {
            assert(a + b == b);
        }
    }
}

impl Block {
    /// A plain paragraph of normal-weight text.
    pub fn para(text: &str) -> (r: Block)
        ensures
            r matches Block::Paragraph { runs } && runs@.len() == 1 && runs@[0].text@ == text@
                && runs@[0].style == RunStyle::Normal,
            block_text(r) == text@,
    {
        let mut runs: Vec<Run> = Vec::new();
        runs.push(Run::normal(text));
        let r = Block::Paragraph { runs };
        assert(runs_text(runs@) == runs_text(runs@.drop_last()) + runs@[0].text@);
        r
    }

    /// Flatten a block's textual content (for term and cross-reference
    /// scanning).
    pub fn plain_text(&self) -> (r: String)
        ensures
            r@ == block_text(*self),
        decreases *self,
    {
        match self {
            Block::Paragraph { runs } => {
                let mut out = String::new();
                let mut i: usize = 0;
                while i < runs.len()
                    invariant
                        i <= runs.len(),
                        out@ == runs_text(runs@.take(i as int)),
                    decreases runs.len() - i,
                {
                    assert(runs@.take(i + 1).drop_last() == runs@.take(i as int));
                    push_str(&mut out, runs[i].text.as_str());
                    i += 1;
                }
                assert(runs@.take(runs.len() as int) == runs@);
                out
            },
            Block::List { items, .. } => {
                let mut out = String::new();
                let mut first = true;
                let mut i: usize = 0;
                assert forall|k: int| 0 <= k < items@.len() implies decreases_to!(*self => items@[k]@) by {
                    assert(decreases_to!(*self => *items));
                    assert(decreases_to!(*items => items@));
                    assert(decreases_to!(items@ => items@[k]));
                    assert(decreases_to!(items@[k] => items@[k]@));
                }
                while i < items.len()
                    invariant
                        i <= items.len(),
                        forall|k: int| 0 <= k < items@.len() ==> decreases_to!(*self => items@[k]@),
                        first == (group_texts(items@.take(i as int)).len() == 0),
                        out@ == strs::join(group_texts(items@.take(i as int)), seq![' ']),
                    decreases items.len() - i,
                {
                    assert(items@.take(i + 1).drop_last() == items@.take(i as int));
                    let ghost g = group_texts(items@.take(i as int));
                    let ghost h = blocks_texts(items@[i as int]@);
                    first = append_block_texts(&mut out, &items[i], first);
                    proof {
                        lemma_join_concat(g, h);
                        assert(h.len() == items@[i as int]@.len()) by {
                            lemma_blocks_texts_len(items@[i as int]@);
                        }
                    }
                    i += 1;
                }
                assert(items@.take(items.len() as int) == items@);
                out
            },
            Block::Table { rows } => {
                let mut out = String::new();
                let mut first = true;
                let mut i: usize = 0;
                assert forall|k: int, m: int| 0 <= k < rows@.len() && 0 <= m < rows@[k]@.len()
                    implies decreases_to!(*self => rows@[k]@[m]@) by {
                    assert(decreases_to!(*self => *rows));
                    assert(decreases_to!(*rows => rows@));
                    assert(decreases_to!(rows@ => rows@[k]));
                    assert(decreases_to!(rows@[k] => rows@[k]@));
                    assert(decreases_to!(rows@[k]@ => rows@[k]@[m]));
                    assert(decreases_to!(rows@[k]@[m] => rows@[k]@[m]@));
                }
                while i < rows.len()
                    invariant
                        i <= rows.len(),
                        forall|k: int, m: int| 0 <= k < rows@.len() && 0 <= m < rows@[k]@.len()
                            ==> decreases_to!(*self => rows@[k]@[m]@),
                        first == (row_texts(rows@.take(i as int)).len() == 0),
                        out@ == strs::join(row_texts(rows@.take(i as int)), seq![' ']),
                    decreases rows.len() - i,
                {
                    assert(rows@.take(i + 1).drop_last() == rows@.take(i as int));
                    let row = &rows[i];
                    let ghost r0 = row_texts(rows@.take(i as int));
                    let mut j: usize = 0;
                    while j < row.len()
                        invariant
                            j <= row.len(),
                            *row == rows@[i as int],
                            i < rows@.len(),
                            forall|k: int, m: int| 0 <= k < rows@.len() && 0 <= m < rows@[k]@.len()
                                ==> decreases_to!(*self => rows@[k]@[m]@),
                            first == ((r0 + group_texts(row@.take(j as int))).len() == 0),
                            out@ == strs::join(r0 + group_texts(row@.take(j as int)), seq![' ']),
                        decreases row.len() - j,
                    {
                        assert(row@.take(j + 1).drop_last() == row@.take(j as int));
                        let ghost g = r0 + group_texts(row@.take(j as int));
                        let ghost h = blocks_texts(row@[j as int]@);
                        first = append_block_texts(&mut out, &row[j], first);
                        proof {
                            lemma_join_concat(g, h);
                            lemma_blocks_texts_len(row@[j as int]@);
                            assert(g + h == r0 + group_texts(row@.take(j + 1)));
                        }
                        j += 1;
                    }
                    assert(row@.take(row.len() as int) == row@);
                    i += 1;
                }
                assert(rows@.take(rows.len() as int) == rows@);
                out
            },
            Block::Variable { label, value, .. } => {
                match value {
                    Some(v) => v.clone(),
                    None => {
                        let mut out = String::new();
                        out.push('[');
                        push_str(&mut out, label.as_str());
                        out.push(']');
                        out
                    },
                }
            },
        }
    }
}

// ---------------------------------------------------------------------------
// Clause trees
// ---------------------------------------------------------------------------

/// A clause and all its descendants, depth-first, parents before children.
pub open spec fn walk(c: LirClause) -> Seq<LirClause>
    decreases c,
{
    seq![c] + walk_all(c.children@)
}

/// The depth-first walks of a sequence of sibling clauses, in order.
pub open spec fn walk_all(cs: Seq<LirClause>) -> Seq<LirClause>
    decreases cs,
{
    if cs.len() == 0 {
        Seq::empty()
    } else {
        walk_all(cs.drop_last()) + walk(cs.last())
    }
}

/// The clauses a list of references points at.
pub open spec fn derefs(v: Seq<&LirClause>) -> Seq<LirClause> {
    v.map_values(|c: &LirClause| *c)
}

impl LirClause {
    fn collect_into<'a>(&'a self, out: &mut Vec<&'a LirClause>)
        ensures
            derefs(final(out)@) == derefs(old(out)@) + walk(*self),
        decreases *self,
    {
        let ghost o0 = derefs(out@);
        out.push(self);
        assert(derefs(out@) =~= o0 + seq![*self]);
        let mut i: usize = 0;
        assert forall|k: int| 0 <= k < self.children@.len() implies decreases_to!(*self => self.children@[k]) by {
            assert(decreases_to!(*self => self.children));
            assert(decreases_to!(self.children => self.children@));
            assert(decreases_to!(self.children@ => self.children@[k]));
        }
        while i < self.children.len()
            invariant
                i <= self.children.len(),
                forall|k: int| 0 <= k < self.children@.len() ==> decreases_to!(*self => self.children@[k]),
                derefs(out@) == o0 + seq![*self] + walk_all(self.children@.take(i as int)),
            decreases self.children.len() - i,
        {
            assert(self.children@.take(i + 1).drop_last() == self.children@.take(i as int));
            self.children[i].collect_into(out);
            i += 1;
        }
        assert(self.children@.take(self.children.len() as int) == self.children@);
    }
}

impl LirDocument {
    pub fn new(meta: LirMeta) -> (r: LirDocument)
        ensures
            r.lir_version@ == lir_version(),
            r.meta == meta,
            r.parties@.len() == 0,
            r.recitals@.len() == 0,
            r.definitions@.len() == 0,
            r.clauses@.len() == 0,
            r.schedules@.len() == 0,
            r.execution.blocks@.len() == 0,
    {
        LirDocument {
            lir_version: owned("0.1"),
            meta,
            parties: Vec::new(),
            recitals: Vec::new(),
            definitions: Vec::new(),
            clauses: Vec::new(),
            schedules: Vec::new(),
            execution: Execution::default(),
        }
    }

    /// Every clause in the document, depth-first (parents before children).
    pub fn walk_clauses(&self) -> (r: Vec<&LirClause>)
        ensures
            derefs(r@) == walk_all(self.clauses@),
    {
        let mut out: Vec<&LirClause> = Vec::new();
        assert(derefs(out@) =~= Seq::<LirClause>::empty());
        let mut i: usize = 0;
        while i < self.clauses.len()
            invariant
                i <= self.clauses.len(),
                derefs(out@) == walk_all(self.clauses@.take(i as int)),
            decreases self.clauses.len() - i,
        {
            assert(self.clauses@.take(i + 1).drop_last() == self.clauses@.take(i as int));
            self.clauses[i].collect_into(&mut out);
            i += 1;
        }
        assert(self.clauses@.take(self.clauses.len() as int) == self.clauses@);
        out
    }

    /// Total clause count including sub-clauses.
    pub fn clause_count(&self) -> (r: usize)
        ensures
            r == walk_all(self.clauses@).len(),
    {
        self.walk_clauses().len()
    }
}

pub proof fn lemma_blocks_texts_len(bs: Seq<Block>)
    ensures
        blocks_texts(bs).len() == bs.len(),
    decreases bs.len(),
{
    if bs.len() > 0 {
        lemma_blocks_texts_len(bs.drop_last());
    }
}

/// The clause reached from `c` by a path of child positions.
pub open spec fn descend(c: LirClause, path: Seq<int>) -> Option<LirClause>
    decreases path.len(),
{
    if path.len() == 0 {
        Some(c)
    } else if 0 <= path[0] < c.children@.len() {
        descend(c.children@[path[0]], path.drop_first())
    } else {
        None
    }
}

} // verus!

