//! LIR to Markdown: faithful, plain, and easy to diff in tests.

use vstd::prelude::*;
use crate::chars::{self, chars_of, slice_of, is_ws_exec, string_of, ends_with_chars, trim_chars};
use crate::strs::{self, opt_view};
use crate::lir::{LirDocument, LirClause, Block, Run, RunStyle, Party, Recital, Schedule, SignatureBlock, variable_text, descend};

verus! {

// ---------------------------------------------------------------------------
// Specification
// ---------------------------------------------------------------------------

pub open spec fn run_md(r: Run) -> Seq<char> {
    match r.style {
        RunStyle::Bold => "**"@ + r.text@ + "**"@,
        RunStyle::Italic => "_"@ + r.text@ + "_"@,
        RunStyle::Normal => r.text@,
    }
}

pub open spec fn runs_md(runs: Seq<Run>) -> Seq<char>
    decreases runs.len(),
{
    if runs.len() == 0 {
        Seq::empty()
    } else {
        runs_md(runs.drop_last()) + run_md(runs.last())
    }
}

/// Newlines read as spaces (table cells stay on one line).
pub open spec fn nl_to_space(s: Seq<char>) -> Seq<char> {
    s.map_values(|c: char| if c == '\n' { ' ' } else { c })
}

/// One block, each line led by `pad`: a paragraph and a variable end with a
/// blank line; a list gives a "- " line per item (the item's first block
/// inline after the bullet, the rest indented); a table gives a "| a | b |"
/// line per row.
pub open spec fn block_md(b: Block, pad: Seq<char>) -> Seq<char>
    decreases b,
{
    match b {
        Block::Paragraph { runs } => pad + runs_md(runs@) + "\n\n"@,
        Block::List { items, .. } => items_md(items@, pad) + "\n"@,
        Block::Table { rows } => rows_md(rows@, pad) + "\n"@,
        Block::Variable { label, value, .. } => pad + variable_text(label@, opt_view(value)) + "\n\n"@,
    }
}

pub open spec fn items_md(items: Seq<Vec<Block>>, pad: Seq<char>) -> Seq<char>
    decreases items,
{
    if items.len() == 0 {
        Seq::empty()
    } else {
        items_md(items.drop_last(), pad) + pad + "- "@ + chars::trim_start(blocks_md(items.last()@, pad + "  "@))
    }
}

pub open spec fn rows_md(rows: Seq<Vec<Vec<Block>>>, pad: Seq<char>) -> Seq<char>
    decreases rows,
{
    if rows.len() == 0 {
        Seq::empty()
    } else {
        rows_md(rows.drop_last(), pad) + pad + "| "@ + strs::join(cells_md(rows.last()@), " | "@) + " |\n"@
    }
}

pub open spec fn cells_md(cells: Seq<Vec<Block>>) -> Seq<Seq<char>>
    decreases cells,
{
    if cells.len() == 0 {
        Seq::empty()
    } else {
        cells_md(cells.drop_last()).push(chars::trim(nl_to_space(blocks_md(cells.last()@, Seq::empty()))))
    }
}

pub open spec fn blocks_md(bs: Seq<Block>, pad: Seq<char>) -> Seq<char>
    decreases bs,
{
    if bs.len() == 0 {
        Seq::empty()
    } else {
        blocks_md(bs.drop_last(), pad) + block_md(bs.last(), pad)
    }
}

pub open spec fn hashes(n: nat) -> Seq<char> {
    Seq::new(n, |i: int| '#')
}

/// A clause's own lines: with no heading its number runs into its text (as
/// a contract reads), otherwise a level-`h` heading line and then its text.
pub open spec fn clause_head_md(c: LirClause, h: nat) -> Seq<char> {
    if chars::trim(c.heading@).len() == 0 {
        let body = blocks_md(c.body@, Seq::empty());
        c.number@ + " "@ + chars::trim_start(body) + (if chars::ends_with(body, "\n\n"@) { Seq::empty() } else { "\n"@ })
    } else {
        hashes(h) + " "@ + c.number@ + ". "@ + c.heading@ + "\n\n"@ + blocks_md(c.body@, Seq::empty())
    }
}

/// One clause and its sub-clauses, the heading at level `h` (at most 6).
/// Sub-clauses keep their own numbers, one level deeper.
pub open spec fn clause_md(c: LirClause, h: nat) -> Seq<char>
    decreases c,
{
    clause_head_md(c, h) + "\n"@ + clauses_md(c.children@, if h + 1 <= 6 { h + 1 } else { 6 })
}

pub open spec fn clauses_md(cs: Seq<LirClause>, h: nat) -> Seq<char>
    decreases cs,
{
    if cs.len() == 0 {
        Seq::empty()
    } else {
        clauses_md(cs.drop_last(), h) + clause_md(cs.last(), h)
    }
}

pub open spec fn party_md(p: Party) -> Seq<char> {
    "- **"@ + p.name@ + "** (the \""@ + p.role@ + "\")"@
        + (match p.reg_no {
            Some(r) => ", registration number "@ + r@,
            None => Seq::empty(),
        })
        + "\n"@
}

pub open spec fn parties_md(ps: Seq<Party>) -> Seq<char>
    decreases ps.len(),
{
    if ps.len() == 0 {
        Seq::empty()
    } else {
        parties_md(ps.drop_last()) + party_md(ps.last())
    }
}

pub open spec fn recitals_md(rs: Seq<Recital>) -> Seq<char>
    decreases rs.len(),
{
    if rs.len() == 0 {
        Seq::empty()
    } else {
        recitals_md(rs.drop_last()) + blocks_md(rs.last().body@, Seq::empty()) + "\n"@
    }
}

pub open spec fn schedules_md(ss: Seq<Schedule>) -> Seq<char>
    decreases ss.len(),
{
    if ss.len() == 0 {
        Seq::empty()
    } else {
        schedules_md(ss.drop_last()) + "## "@ + ss.last().title@ + "\n\n"@ + blocks_md(ss.last().body@, Seq::empty()) + "\n"@
    }
}

pub open spec fn signatures_md(bs: Seq<SignatureBlock>) -> Seq<char>
    decreases bs.len(),
{
    if bs.len() == 0 {
        Seq::empty()
    } else {
        signatures_md(bs.drop_last()) + "Signed "@ + bs.last().signatory_line@ + " \n\n_____________________________\n\n"@
    }
}

/// The whole document: title, parties, recitals, clauses (headings from
/// level 2), schedules, execution blocks and the governing law.
pub open spec fn markdown(doc: LirDocument) -> Seq<char> {
    "# "@ + doc.meta.title@ + "\n\n"@
        + (if doc.parties@.len() > 0 { "**Between:**\n\n"@ + parties_md(doc.parties@) + "\n"@ } else { Seq::empty() })
        + recitals_md(doc.recitals@)
        + clauses_md(doc.clauses@, 2)
        + schedules_md(doc.schedules@)
        + (if doc.execution.blocks@.len() > 0 { "## Execution\n\n"@ + signatures_md(doc.execution.blocks@) } else { Seq::empty() })
        + (match doc.meta.jurisdiction {
            Some(j) => "\n_Governing law: "@ + j@ + "._\n"@,
            None => Seq::empty(),
        })
}

// ---------------------------------------------------------------------------
// Laws
// ---------------------------------------------------------------------------

/// A clause's heading line at level `h`.
pub open spec fn heading_line(c: LirClause, h: nat) -> Seq<char> {
    hashes(h) + " "@ + c.number@ + ". "@ + c.heading@ + "\n\n"@
}

/// Each clause of a list is rendered within the list's rendering.
proof fn lemma_clause_in_list(cs: Seq<LirClause>, h: nat, q: int, x: Seq<char>)
    requires
        0 <= q < cs.len(),
        chars::contains(clause_md(cs[q], h), x),
    ensures
        chars::contains(clauses_md(cs, h), x),
    decreases cs.len(),
{
    if q == cs.len() - 1 {
        chars::lemma_in_right(clauses_md(cs.drop_last(), h), clause_md(cs.last(), h), x);
    } else {
        assert(cs.drop_last()[q] == cs[q]);
        lemma_clause_in_list(cs.drop_last(), h, q, x);
        chars::lemma_in_left(clauses_md(cs.drop_last(), h), clause_md(cs.last(), h), x);
    }
}

/// The heading level `n` levels below level `h`, at most 6.
pub open spec fn level_below(h: nat, n: nat) -> nat {
    if h + n <= 6 { h + n } else { 6 }
}

/// A clause renders the heading line of every clause below it that has a
/// non-blank heading, one level deeper per step (at most 6).
proof fn lemma_descendant_heading(c: LirClause, h: nat, path: Seq<int>)
    requires
        h <= 6,
        descend(c, path) matches Some(x) && chars::trim(x.heading@).len() > 0,
    ensures
        chars::contains(clause_md(c, h), heading_line(descend(c, path)->0, level_below(h, path.len()))),
    decreases path.len(),
{
    let h2: nat = if h + 1 <= 6 { h + 1 } else { 6 };
    let head = clause_head_md(c, h);
    let rest = clauses_md(c.children@, h2);
    assert(clause_md(c, h) == head + "\n"@ + rest);
    if path.len() == 0 {
        assert(head == heading_line(c, h) + blocks_md(c.body@, Seq::empty()));
        chars::lemma_prefix_in(heading_line(c, h), blocks_md(c.body@, Seq::empty()));
        chars::lemma_in_left(head, "\n"@, heading_line(c, h));
        chars::lemma_in_left(head + "\n"@, rest, heading_line(c, h));
    } else {
        let k = c.children@[path[0]];
        let x = heading_line(descend(c, path)->0, level_below(h, path.len()));
        lemma_descendant_heading(k, h2, path.drop_first());
        assert(level_below(h2, path.drop_first().len()) == level_below(h, path.len()));
        lemma_clause_in_list(c.children@, h2, path[0], x);
        chars::lemma_in_right(head + "\n"@, rest, x);
    }
}

/// The Markdown of a document gives every clause with a non-blank heading,
/// at any depth, a heading line "number. heading": top-level clauses at
/// level 2, each level of sub-clauses one deeper, at most 6.
pub proof fn lemma_markdown_headings(doc: LirDocument, q: int, path: Seq<int>)
    requires
        0 <= q < doc.clauses@.len(),
        descend(doc.clauses@[q], path) matches Some(x) && chars::trim(x.heading@).len() > 0,
    ensures
        chars::contains(markdown(doc), heading_line(descend(doc.clauses@[q], path)->0, level_below(2, path.len()))),
{
    let x = heading_line(descend(doc.clauses@[q], path)->0, level_below(2, path.len()));
    lemma_descendant_heading(doc.clauses@[q], 2, path);
    let front = "# "@ + doc.meta.title@ + "\n\n"@
        + (if doc.parties@.len() > 0 { "**Between:**\n\n"@ + parties_md(doc.parties@) + "\n"@ } else { Seq::empty() })
        + recitals_md(doc.recitals@);
    let mid = clauses_md(doc.clauses@, 2);
    let back1 = schedules_md(doc.schedules@);
    let back2 = (if doc.execution.blocks@.len() > 0 { "## Execution\n\n"@ + signatures_md(doc.execution.blocks@) } else { Seq::empty() });
    let back3 = (match doc.meta.jurisdiction {
            Some(jr) => "\n_Governing law: "@ + jr@ + "._\n"@,
            None => Seq::empty(),
        });
    assert(markdown(doc) == front + mid + back1 + back2 + back3);
    lemma_clause_in_list(doc.clauses@, 2, q, x);
    chars::lemma_in_right(front, mid, x);
    chars::lemma_in_left(front + mid, back1, x);
    chars::lemma_in_left(front + mid + back1, back2, x);
    chars::lemma_in_left(front + mid + back1 + back2, back3, x);
}

/// Each schedule of a list is rendered, heading then body, within the
/// list's rendering.
proof fn lemma_schedule_in_list(ss: Seq<Schedule>, i: int)
    requires
        0 <= i < ss.len(),
    ensures
        chars::contains(schedules_md(ss), "## "@ + ss[i].title@ + "\n\n"@ + blocks_md(ss[i].body@, Seq::empty())),
    decreases ss.len(),
{
    let x = "## "@ + ss[i].title@ + "\n\n"@ + blocks_md(ss[i].body@, Seq::empty());
    let d = schedules_md(ss.drop_last());
    if i == ss.len() - 1 {
        assert(schedules_md(ss) == d + x + "\n"@);
        chars::lemma_prefix_in(x, "\n"@);
        chars::lemma_in_right(d, x + "\n"@, x);
        assert(d + (x + "\n"@) == d + x + "\n"@);
    } else {
        assert(ss.drop_last()[i] == ss[i]);
        lemma_schedule_in_list(ss.drop_last(), i);
        let last = "## "@ + ss.last().title@ + "\n\n"@ + blocks_md(ss.last().body@, Seq::empty()) + "\n"@;
        assert(schedules_md(ss) == d + last);
        chars::lemma_in_left(d, last, x);
    }
}

/// Every schedule of the document is rendered: the Markdown holds its
/// level-2 heading line followed directly by the rendering of its body.
pub proof fn lemma_markdown_schedules(doc: LirDocument, i: int)
    requires
        0 <= i < doc.schedules@.len(),
    ensures
        chars::contains(markdown(doc),
            "## "@ + doc.schedules@[i].title@ + "\n\n"@ + blocks_md(doc.schedules@[i].body@, Seq::empty())),
{
    let x = "## "@ + doc.schedules@[i].title@ + "\n\n"@ + blocks_md(doc.schedules@[i].body@, Seq::empty());
    lemma_schedule_in_list(doc.schedules@, i);
    let front = "# "@ + doc.meta.title@ + "\n\n"@
        + (if doc.parties@.len() > 0 { "**Between:**\n\n"@ + parties_md(doc.parties@) + "\n"@ } else { Seq::empty() })
        + recitals_md(doc.recitals@)
        + clauses_md(doc.clauses@, 2);
    let mid = schedules_md(doc.schedules@);
    let back2 = (if doc.execution.blocks@.len() > 0 { "## Execution\n\n"@ + signatures_md(doc.execution.blocks@) } else { Seq::empty() });
    let back3 = (match doc.meta.jurisdiction {
            Some(jr) => "\n_Governing law: "@ + jr@ + "._\n"@,
            None => Seq::empty(),
        });
    assert(markdown(doc) == front + mid + back2 + back3);
    chars::lemma_in_right(front, mid, x);
    chars::lemma_in_left(front + mid, back2, x);
    chars::lemma_in_left(front + mid + back2, back3, x);
}

proof fn lemma_run_text_in(runs: Seq<Run>, m: int)
    requires
        0 <= m < runs.len(),
    ensures
        chars::contains(runs_md(runs), runs[m].text@),
    decreases runs.len(),
{
    let t = runs[m].text@;
    if m == runs.len() - 1 {
        let r = runs.last();
        chars::lemma_self_in(t);
        match r.style {
            RunStyle::Bold => {
                chars::lemma_in_right("**"@, t, t);
                chars::lemma_in_left("**"@ + t, "**"@, t);
            },
            RunStyle::Italic => {
                chars::lemma_in_right("_"@, t, t);
                chars::lemma_in_left("_"@ + t, "_"@, t);
            },
            RunStyle::Normal => {},
        }
        chars::lemma_in_right(runs_md(runs.drop_last()), run_md(r), t);
    } else {
        assert(runs.drop_last()[m] == runs[m]);
        lemma_run_text_in(runs.drop_last(), m);
        chars::lemma_in_left(runs_md(runs.drop_last()), run_md(runs.last()), t);
    }
}

proof fn lemma_block_in_blocks_md(bs: Seq<Block>, pad: Seq<char>, k: int, x: Seq<char>)
    requires
        0 <= k < bs.len(),
        chars::contains(block_md(bs[k], pad), x),
    ensures
        chars::contains(blocks_md(bs, pad), x),
    decreases bs.len(),
{
    if k == bs.len() - 1 {
        chars::lemma_in_right(blocks_md(bs.drop_last(), pad), block_md(bs.last(), pad), x);
    } else {
        assert(bs.drop_last()[k] == bs[k]);
        lemma_block_in_blocks_md(bs.drop_last(), pad, k, x);
        chars::lemma_in_left(blocks_md(bs.drop_last(), pad), block_md(bs.last(), pad), x);
    }
}

/// Every run of text of every paragraph of every schedule's body appears in
/// the document's Markdown.
pub proof fn lemma_markdown_schedule_text(doc: LirDocument, i: int, k: int, m: int)
    requires
        0 <= i < doc.schedules@.len(),
        0 <= k < doc.schedules@[i].body@.len(),
        doc.schedules@[i].body@[k] is Paragraph,
        0 <= m < doc.schedules@[i].body@[k]->Paragraph_runs@.len(),
    ensures
        chars::contains(markdown(doc), doc.schedules@[i].body@[k]->Paragraph_runs@[m].text@),
{
    let sc = doc.schedules@[i];
    let runs = sc.body@[k]->Paragraph_runs@;
    let t = runs[m].text@;
    lemma_run_text_in(runs, m);
    let e = Seq::<char>::empty();
    assert(block_md(sc.body@[k], e) == e + runs_md(runs) + "\n\n"@);
    chars::lemma_in_right(e, runs_md(runs), t);
    chars::lemma_in_left(e + runs_md(runs), "\n\n"@, t);
    lemma_block_in_blocks_md(sc.body@, e, k, t);
    let head = "## "@ + sc.title@ + "\n\n"@;
    chars::lemma_in_right(head, blocks_md(sc.body@, e), t);
    lemma_markdown_schedules(doc, i);
    let x = head + blocks_md(sc.body@, e);
    let whole = markdown(doc);
    let p = choose|p: int| chars::occurs_at(whole, x, p);
    let q = choose|q: int| chars::occurs_at(x, t, q);
    assert(whole.subrange(p + q, p + q + t.len()) =~= x.subrange(q, q + t.len()));
    assert(chars::occurs_at(whole, t, p + q));
}

proof fn lemma_trim_start_keeps(x: Seq<char>, y: Seq<char>)
    requires
        chars::contains(x, y),
        y.len() > 0,
        !chars::is_ws(y[0]),
    ensures
        chars::contains(chars::trim_start(x), y),
    decreases x.len(),
{
    if x.len() > 0 && chars::is_ws(x[0]) {
        let p = choose|p: int| chars::occurs_at(x, y, p);
        assert(x.subrange(p, p + y.len())[0] == x[p]);
        assert(p != 0);
        let d = x.drop_first();
        assert(d.subrange(p - 1, p - 1 + y.len()) =~= x.subrange(p, p + y.len()));
        assert(chars::occurs_at(d, y, p - 1));
        lemma_trim_start_keeps(d, y);
    }
}

/// A clause's rendering holds the text of each run of each of its
/// paragraphs (one that starts with whitespace only where the clause has a
/// heading).
proof fn lemma_clause_run_in(c: LirClause, h: nat, k: int, m: int)
    requires
        0 <= k < c.body@.len(),
        c.body@[k] is Paragraph,
        0 <= m < c.body@[k]->Paragraph_runs@.len(),
        chars::trim(c.heading@).len() > 0 || ({
            let t = c.body@[k]->Paragraph_runs@[m].text@;
            t.len() > 0 && !chars::is_ws(t[0])
        }),
    ensures
        chars::contains(clause_md(c, h), c.body@[k]->Paragraph_runs@[m].text@),
{
    let runs = c.body@[k]->Paragraph_runs@;
    let t = runs[m].text@;
    let e = Seq::<char>::empty();
    lemma_run_text_in(runs, m);
    assert(block_md(c.body@[k], e) == e + runs_md(runs) + "\n\n"@);
    chars::lemma_in_right(e, runs_md(runs), t);
    chars::lemma_in_left(e + runs_md(runs), "\n\n"@, t);
    lemma_block_in_blocks_md(c.body@, e, k, t);
    let body = blocks_md(c.body@, e);
    let h2: nat = if h + 1 <= 6 { h + 1 } else { 6 };
    let head = clause_head_md(c, h);
    let rest = clauses_md(c.children@, h2);
    assert(clause_md(c, h) == head + "\n"@ + rest);
    if chars::trim(c.heading@).len() == 0 {
        lemma_trim_start_keeps(body, t);
        let pre = c.number@ + " "@;
        let post = (if chars::ends_with(body, "\n\n"@) { Seq::<char>::empty() } else { "\n"@ });
        assert(head == pre + chars::trim_start(body) + post);
        chars::lemma_in_right(pre, chars::trim_start(body), t);
        chars::lemma_in_left(pre + chars::trim_start(body), post, t);
    } else {
        assert(head == heading_line(c, h) + body);
        chars::lemma_in_right(heading_line(c, h), body, t);
    }
    chars::lemma_in_left(head, "\n"@, t);
    chars::lemma_in_left(head + "\n"@, rest, t);
}

proof fn lemma_descendant_run_md(c: LirClause, h: nat, path: Seq<int>, k: int, m: int)
    requires
        descend(c, path) matches Some(x) && 0 <= k < x.body@.len() && x.body@[k] is Paragraph
            && 0 <= m < x.body@[k]->Paragraph_runs@.len()
            && (chars::trim(x.heading@).len() > 0 || ({
                let t = x.body@[k]->Paragraph_runs@[m].text@;
                t.len() > 0 && !chars::is_ws(t[0])
            })),
    ensures
        chars::contains(clause_md(c, h), (descend(c, path)->0).body@[k]->Paragraph_runs@[m].text@),
    decreases path.len(),
{
    if path.len() == 0 {
        lemma_clause_run_in(c, h, k, m);
    } else {
        let h2: nat = if h + 1 <= 6 { h + 1 } else { 6 };
        let x = (descend(c, path)->0).body@[k]->Paragraph_runs@[m].text@;
        lemma_descendant_run_md(c.children@[path[0]], h2, path.drop_first(), k, m);
        lemma_clause_in_list(c.children@, h2, path[0], x);
        let head = clause_head_md(c, h);
        assert(clause_md(c, h) == head + "\n"@ + clauses_md(c.children@, h2));
        chars::lemma_in_right(head + "\n"@, clauses_md(c.children@, h2), x);
    }
}

/// The Markdown of a document holds the text of every run of every
/// paragraph of every clause, at any depth (a run starting with whitespace
/// where its clause has a heading, or any run that does not).
pub proof fn lemma_markdown_clause_text(doc: LirDocument, q: int, path: Seq<int>, k: int, m: int)
    requires
        0 <= q < doc.clauses@.len(),
        descend(doc.clauses@[q], path) matches Some(x) && 0 <= k < x.body@.len() && x.body@[k] is Paragraph
            && 0 <= m < x.body@[k]->Paragraph_runs@.len()
            && (chars::trim(x.heading@).len() > 0 || ({
                let t = x.body@[k]->Paragraph_runs@[m].text@;
                t.len() > 0 && !chars::is_ws(t[0])
            })),
    ensures
        chars::contains(markdown(doc), (descend(doc.clauses@[q], path)->0).body@[k]->Paragraph_runs@[m].text@),
{
    let x = (descend(doc.clauses@[q], path)->0).body@[k]->Paragraph_runs@[m].text@;
    lemma_descendant_run_md(doc.clauses@[q], 2, path, k, m);
    lemma_clause_in_list(doc.clauses@, 2, q, x);
    let front = "# "@ + doc.meta.title@ + "\n\n"@
        + (if doc.parties@.len() > 0 { "**Between:**\n\n"@ + parties_md(doc.parties@) + "\n"@ } else { Seq::empty() })
        + recitals_md(doc.recitals@);
    let mid = clauses_md(doc.clauses@, 2);
    let back1 = schedules_md(doc.schedules@);
    let back2 = (if doc.execution.blocks@.len() > 0 { "## Execution\n\n"@ + signatures_md(doc.execution.blocks@) } else { Seq::empty() });
    let back3 = (match doc.meta.jurisdiction {
            Some(jr) => "\n_Governing law: "@ + jr@ + "._\n"@,
            None => Seq::empty(),
        });
    assert(markdown(doc) == front + mid + back1 + back2 + back3);
    chars::lemma_in_right(front, mid, x);
    chars::lemma_in_left(front + mid, back1, x);
    chars::lemma_in_left(front + mid + back1, back2, x);
    chars::lemma_in_left(front + mid + back1 + back2, back3, x);
}

proof fn lemma_party_in_list(ps: Seq<Party>, i: int)
    requires
        0 <= i < ps.len(),
    ensures
        chars::contains(parties_md(ps), "- **"@ + ps[i].name@ + "** (the \""@ + ps[i].role@ + "\")"@),
    decreases ps.len(),
{
    let x = "- **"@ + ps[i].name@ + "** (the \""@ + ps[i].role@ + "\")"@;
    let d = parties_md(ps.drop_last());
    if i == ps.len() - 1 {
        let tail = (match ps[i].reg_no {
            Some(r) => ", registration number "@ + r@,
            None => Seq::empty(),
        }) + "\n"@;
        assert(party_md(ps[i]) == x + tail);
        chars::lemma_prefix_in(x, tail);
        chars::lemma_in_right(d, party_md(ps[i]), x);
    } else {
        assert(ps.drop_last()[i] == ps[i]);
        lemma_party_in_list(ps.drop_last(), i);
        chars::lemma_in_left(d, party_md(ps.last()), x);
    }
}

proof fn lemma_signature_in_list(bs: Seq<SignatureBlock>, i: int)
    requires
        0 <= i < bs.len(),
    ensures
        chars::contains(signatures_md(bs), "Signed "@ + bs[i].signatory_line@),
    decreases bs.len(),
{
    let x = "Signed "@ + bs[i].signatory_line@;
    let d = signatures_md(bs.drop_last());
    let rest = " \n\n_____________________________\n\n"@;
    if i == bs.len() - 1 {
        chars::lemma_prefix_in(x, rest);
        chars::lemma_in_right(d, x + rest, x);
        assert(signatures_md(bs) =~= d + (x + rest));
    } else {
        assert(bs.drop_last()[i] == bs[i]);
        lemma_signature_in_list(bs.drop_last(), i);
        chars::lemma_in_left(d, "Signed "@ + bs.last().signatory_line@ + rest, x);
        assert(signatures_md(bs) =~= d + ("Signed "@ + bs.last().signatory_line@ + rest));
    }
}

/// The Markdown of a document opens with its title as a level-1 heading.
pub proof fn lemma_markdown_title(doc: LirDocument)
    ensures
        chars::starts_with(markdown(doc), "# "@ + doc.meta.title@ + "\n\n"@),
{
    let title = "# "@ + doc.meta.title@ + "\n\n"@;
    let m = markdown(doc);
    let rest = (if doc.parties@.len() > 0 { "**Between:**\n\n"@ + parties_md(doc.parties@) + "\n"@ } else { Seq::empty() })
        + recitals_md(doc.recitals@) + clauses_md(doc.clauses@, 2) + schedules_md(doc.schedules@)
        + (if doc.execution.blocks@.len() > 0 { "## Execution\n\n"@ + signatures_md(doc.execution.blocks@) } else { Seq::empty() })
        + (match doc.meta.jurisdiction {
            Some(g) => "\n_Governing law: "@ + g@ + "._\n"@,
            None => Seq::empty(),
        });
    assert(m =~= title + rest);
    assert(m.take(title.len() as int) =~= title);
}

/// The Markdown of a document names every party, in bold, with its role.
pub proof fn lemma_markdown_parties(doc: LirDocument, i: int)
    requires
        0 <= i < doc.parties@.len(),
    ensures
        chars::contains(markdown(doc), "- **"@ + doc.parties@[i].name@ + "** (the \""@ + doc.parties@[i].role@ + "\")"@),
{
    let x = "- **"@ + doc.parties@[i].name@ + "** (the \""@ + doc.parties@[i].role@ + "\")"@;
    let title = "# "@ + doc.meta.title@ + "\n\n"@;
    let pp = "**Between:**\n\n"@ + parties_md(doc.parties@) + "\n"@;
    let rest = recitals_md(doc.recitals@) + clauses_md(doc.clauses@, 2) + schedules_md(doc.schedules@)
        + (if doc.execution.blocks@.len() > 0 { "## Execution\n\n"@ + signatures_md(doc.execution.blocks@) } else { Seq::empty() })
        + (match doc.meta.jurisdiction {
            Some(g) => "\n_Governing law: "@ + g@ + "._\n"@,
            None => Seq::empty(),
        });
    assert(markdown(doc) =~= title + pp + rest);
    lemma_party_in_list(doc.parties@, i);
    chars::lemma_in_right("**Between:**\n\n"@, parties_md(doc.parties@), x);
    chars::lemma_in_left("**Between:**\n\n"@ + parties_md(doc.parties@), "\n"@, x);
    chars::lemma_in_right(title, pp, x);
    chars::lemma_in_left(title + pp, rest, x);
}

/// The Markdown of a document gives every execution block its signatory
/// line.
pub proof fn lemma_markdown_signatures(doc: LirDocument, j: int)
    requires
        0 <= j < doc.execution.blocks@.len(),
    ensures
        chars::contains(markdown(doc), "Signed "@ + doc.execution.blocks@[j].signatory_line@),
{
    let x = "Signed "@ + doc.execution.blocks@[j].signatory_line@;
    let front = "# "@ + doc.meta.title@ + "\n\n"@
        + (if doc.parties@.len() > 0 { "**Between:**\n\n"@ + parties_md(doc.parties@) + "\n"@ } else { Seq::empty() })
        + recitals_md(doc.recitals@) + clauses_md(doc.clauses@, 2) + schedules_md(doc.schedules@);
    let ex = "## Execution\n\n"@ + signatures_md(doc.execution.blocks@);
    let law = (match doc.meta.jurisdiction {
            Some(g) => "\n_Governing law: "@ + g@ + "._\n"@,
            None => Seq::empty(),
        });
    assert(markdown(doc) =~= front + ex + law);
    lemma_signature_in_list(doc.execution.blocks@, j);
    chars::lemma_in_right("## Execution\n\n"@, signatures_md(doc.execution.blocks@), x);
    chars::lemma_in_right(front, ex, x);
    chars::lemma_in_left(front + ex, law, x);
}

/// The Markdown of a document with a jurisdiction states its governing law.
pub proof fn lemma_markdown_governing_law(doc: LirDocument)
    requires
        doc.meta.jurisdiction is Some,
    ensures
        chars::contains(markdown(doc), "Governing law: "@ + (doc.meta.jurisdiction->0)@ + "."@),
{
    let g = doc.meta.jurisdiction->0;
    let x = "Governing law: "@ + g@ + "."@;
    let front = "# "@ + doc.meta.title@ + "\n\n"@
        + (if doc.parties@.len() > 0 { "**Between:**\n\n"@ + parties_md(doc.parties@) + "\n"@ } else { Seq::empty() })
        + recitals_md(doc.recitals@) + clauses_md(doc.clauses@, 2) + schedules_md(doc.schedules@)
        + (if doc.execution.blocks@.len() > 0 { "## Execution\n\n"@ + signatures_md(doc.execution.blocks@) } else { Seq::empty() });
    let law = "\n_Governing law: "@ + g@ + "._\n"@;
    assert(markdown(doc) =~= front + law);
    reveal_strlit("\n_Governing law: ");
    reveal_strlit("Governing law: ");
    reveal_strlit("._\n");
    reveal_strlit(".");
    let a = "\n_"@;
    let b = "_\n"@;
    reveal_strlit("\n_");
    reveal_strlit("_\n");
    assert(law =~= a + x + b);
    chars::lemma_self_in(x);
    chars::lemma_in_right(a, x, x);
    chars::lemma_in_left(a + x, b, x);
    chars::lemma_in_right(front, law, x);
}

// ---------------------------------------------------------------------------
// Rendering
// ---------------------------------------------------------------------------

fn put(out: &mut Vec<char>, t: &str)
    ensures
        final(out)@ == old(out)@ + t@,
{
    let v = chars_of(t);
    put_all(out, v.as_slice());
}

fn put_all(out: &mut Vec<char>, v: &[char])
    ensures
        final(out)@ == old(out)@ + v@,
{
    let ghost o0 = out@;
    let mut i: usize = 0;
    while i < v.len()
        invariant
            i <= v.len(),
            out@ == o0 + v@.take(i as int),
        decreases v.len() - i,
    {
        out.push(v[i]);
        i += 1;
        assert(v@.take(i as int) == v@.take(i - 1).push(v@[i - 1]));
    }
    assert(v@.take(v.len() as int) == v@);
}

fn trim_start_chars(s: &[char]) -> (r: Vec<char>)
    ensures
        r@ == chars::trim_start(s@),
{
    let n = s.len();
    let mut lo: usize = 0;
    assert(s@.subrange(0, n as int) == s@);
    while lo < n && is_ws_exec(s[lo])
        invariant
            lo <= n == s.len(),
            chars::trim_start(s@) == chars::trim_start(s@.subrange(lo as int, n as int)),
        decreases n - lo,
    {
        assert(s@.subrange(lo as int, n as int).drop_first() == s@.subrange(lo + 1, n as int));
        lo += 1;
    }
    slice_of(s, lo, n)
}

fn runs_md_exec(out: &mut Vec<char>, runs: &Vec<Run>)
    ensures
        final(out)@ == old(out)@ + runs_md(runs@),
{
    let ghost o0 = out@;
    let mut i: usize = 0;
    while i < runs.len()
        invariant
            i <= runs.len(),
            out@ == o0 + runs_md(runs@.take(i as int)),
        decreases runs.len() - i,
    {
        assert(runs@.take(i + 1).drop_last() == runs@.take(i as int));
        let r = &runs[i];
        match r.style {
            RunStyle::Bold => {
                put(out, "**");
                put(out, r.text.as_str());
                put(out, "**");
            },
            RunStyle::Italic => {
                put(out, "_");
                put(out, r.text.as_str());
                put(out, "_");
            },
            RunStyle::Normal => {
                put(out, r.text.as_str());
            },
        }
        i += 1;
    }
    assert(runs@.take(runs.len() as int) == runs@);
}

fn nl_to_space_exec(s: &[char]) -> (r: Vec<char>)
    ensures
        r@ == nl_to_space(s@),
{
    let mut out: Vec<char> = Vec::new();
    let mut i: usize = 0;
    while i < s.len()
        invariant
            i <= s.len(),
            out@ == nl_to_space(s@.take(i as int)),
        decreases s.len() - i,
    {
        out.push(if s[i] == '\n' { ' ' } else { s[i] });
        i += 1;
        assert(nl_to_space(s@.take(i as int)) =~= nl_to_space(s@.take(i - 1)).push(if s@[i - 1] == '\n' { ' ' } else { s@[i - 1] }));
    }
    assert(s@.take(s.len() as int) == s@);
    out
}

/// Markdown for a sequence of blocks, each line led by `pad`.
fn blocks_md_exec(bs: &Vec<Block>, pad: &Vec<char>) -> (r: Vec<char>)
    ensures
        r@ == blocks_md(bs@, pad@),
    decreases bs@,
{
    let mut out: Vec<char> = Vec::new();
    let mut i: usize = 0;
    while i < bs.len()
        invariant
            i <= bs.len(),
            out@ == blocks_md(bs@.take(i as int), pad@),
        decreases bs.len() - i,
    {
        assert(bs@.take(i + 1).drop_last() == bs@.take(i as int));
        assert(bs@.take(i + 1).last() == bs@[i as int]);
        let ghost o0 = out@;
        match &bs[i] {
            Block::Paragraph { runs } => {
                put_all(&mut out, pad.as_slice());
                runs_md_exec(&mut out, runs);
                put(&mut out, "\n\n");
                assert(out@ =~= o0 + block_md(bs@[i as int], pad@));
            },
            Block::List { items, .. } => {
                let mut inner = pad.clone();
                put(&mut inner, "  ");
                let mut k: usize = 0;
                while k < items.len()
                    invariant
                        k <= items.len(),
                        i < bs@.len(),
                        bs@[i as int] matches Block::List { items: its, .. } && its == *items,
                        inner@ == pad@ + "  "@,
                        out@ == o0 + items_md(items@.take(k as int), pad@),
                    decreases items.len() - k,
                {
                    assert(items@.take(k + 1).drop_last() == items@.take(k as int));
                    assert(decreases_to!(bs@ => items@[k as int]@)) by {
                        assert(decreases_to!(bs@ => bs@[i as int]));
                        assert(decreases_to!(bs@[i as int] => *items));
                        assert(decreases_to!(*items => items@));
                        assert(decreases_to!(items@ => items@[k as int]));
                        assert(decreases_to!(items@[k as int] => items@[k as int]@));
                    }
                    let sub = blocks_md_exec(&items[k], &inner);
                    put_all(&mut out, pad.as_slice());
                    put(&mut out, "- ");
                    let t = trim_start_chars(sub.as_slice());
                    put_all(&mut out, t.as_slice());
                    k += 1;
                }
                assert(items@.take(items.len() as int) == items@);
                put(&mut out, "\n");
                assert(out@ =~= o0 + block_md(bs@[i as int], pad@));
            },
            Block::Table { rows } => {
                let mut k: usize = 0;
                let empty: Vec<char> = Vec::new();
                while k < rows.len()
                    invariant
                        k <= rows.len(),
                        i < bs@.len(),
                        bs@[i as int] matches Block::Table { rows: rs } && rs == *rows,
                        empty@ == Seq::<char>::empty(),
                        out@ == o0 + rows_md(rows@.take(k as int), pad@),
                    decreases rows.len() - k,
                {
                    assert(rows@.take(k + 1).drop_last() == rows@.take(k as int));
                    let row = &rows[k];
                    let mut cells: Vec<String> = Vec::new();
                    let mut m: usize = 0;
                    while m < row.len()
                        invariant
                            m <= row.len(),
                            i < bs@.len(),
                            k < rows@.len(),
                            bs@[i as int] matches Block::Table { rows: rs } && rs == *rows,
                            *row == rows@[k as int],
                            empty@ == Seq::<char>::empty(),
                            strs::views(cells@) == cells_md(row@.take(m as int)),
                        decreases row.len() - m,
                    {
                        assert(row@.take(m + 1).drop_last() == row@.take(m as int));
                        assert(decreases_to!(bs@ => row@[m as int]@)) by {
                            assert(decreases_to!(bs@ => bs@[i as int]));
                            assert(decreases_to!(bs@[i as int] => *rows));
                            assert(decreases_to!(*rows => rows@));
                            assert(decreases_to!(rows@ => rows@[k as int]));
                            assert(decreases_to!(rows@[k as int] => rows@[k as int]@));
                            assert(decreases_to!(rows@[k as int]@ => rows@[k as int]@[m as int]));
                            assert(decreases_to!(rows@[k as int]@[m as int] => rows@[k as int]@[m as int]@));
                        }
                        let sub = blocks_md_exec(&row[m], &empty);
                        let flat = nl_to_space_exec(sub.as_slice());
                        let cell = trim_chars(flat.as_slice());
                        let ghost c0 = strs::views(cells@);
                        cells.push(string_of(cell.as_slice()));
                        assert(strs::views(cells@) =~= c0.push(cell@));
                        m += 1;
                    }
                    assert(row@.take(row.len() as int) == row@);
                    let joined = strs::join_strings(&cells, " | ");
                    put_all(&mut out, pad.as_slice());
                    put(&mut out, "| ");
                    let jv = chars_of(joined.as_str());
                    put_all(&mut out, jv.as_slice());
                    put(&mut out, " |\n");
                    k += 1;
                }
                assert(rows@.take(rows.len() as int) == rows@);
                put(&mut out, "\n");
                assert(out@ =~= o0 + block_md(bs@[i as int], pad@));
            },
            Block::Variable { label, value, .. } => {
                put_all(&mut out, pad.as_slice());
                match value {
                    Some(v) => put(&mut out, v.as_str()),
                    None => {
                        out.push('[');
                        put(&mut out, label.as_str());
                        out.push(']');
                    },
                }
                put(&mut out, "\n\n");
                assert(out@ =~= o0 + block_md(bs@[i as int], pad@));
            },
        }
        i += 1;
    }
    assert(bs@.take(bs.len() as int) == bs@);
    out
}

fn clause_head_md_exec(out: &mut Vec<char>, c: &LirClause, h: usize)
    ensures
        final(out)@ == old(out)@ + clause_head_md(*c, h as nat),
{
    let ghost o0 = out@;
    let empty: Vec<char> = Vec::new();
    let heading = trim_chars(chars_of(c.heading.as_str()).as_slice());
    if heading.len() == 0 {
        let body = blocks_md_exec(&c.body, &empty);
        put(out, c.number.as_str());
        put(out, " ");
        let t = trim_start_chars(body.as_slice());
        put_all(out, t.as_slice());
        let nn = chars_of("\n\n");
        if !ends_with_chars(body.as_slice(), nn.as_slice()) {
            put(out, "\n");
        }
    } else {
        let mut k: usize = 0;
        while k < h
            invariant
                k <= h,
                out@ == o0 + hashes(k as nat),
            decreases h - k,
        {
            out.push('#');
            k += 1;
            assert(hashes(k as nat) =~= hashes((k - 1) as nat).push('#'));
        }
        put(out, " ");
        put(out, c.number.as_str());
        put(out, ". ");
        put(out, c.heading.as_str());
        put(out, "\n\n");
        let body = blocks_md_exec(&c.body, &empty);
        put_all(out, body.as_slice());
    }
}

fn clause_md_exec(out: &mut Vec<char>, c: &LirClause, h: usize)
    requires
        h <= 6,
    ensures
        final(out)@ == old(out)@ + clause_md(*c, h as nat),
    decreases *c,
{
    let ghost o0 = out@;
    clause_head_md_exec(out, c, h);
    put(out, "\n");
    let ghost head_done = out@;
    let ch: usize = if h + 1 <= 6 { h + 1 } else { 6 };
    let mut i: usize = 0;
    while i < c.children.len()
        invariant
            i <= c.children.len(),
            ch <= 6,
            out@ == head_done + clauses_md(c.children@.take(i as int), ch as nat),
        decreases c.children.len() - i,
    {
        assert(c.children@.take(i + 1).drop_last() == c.children@.take(i as int));
        assert(decreases_to!(*c => c.children@[i as int])) by {
            assert(decreases_to!(*c => c.children));
            assert(decreases_to!(c.children => c.children@));
            assert(decreases_to!(c.children@ => c.children@[i as int]));
        }
        clause_md_exec(out, &c.children[i], ch);
        i += 1;
    }
    assert(c.children@.take(c.children.len() as int) == c.children@);
}

fn parties_md_into(out: &mut Vec<char>, doc: &LirDocument)
    ensures
        final(out)@ == old(out)@ + (if doc.parties@.len() > 0 {
            "**Between:**\n\n"@ + parties_md(doc.parties@) + "\n"@
        } else {
            Seq::empty()
        }),
{
    if doc.parties.len() > 0 {
        let ghost s1 = out@;
        put(out, "**Between:**\n\n");
        let ghost s2 = out@;
        let mut i: usize = 0;
        while i < doc.parties.len()
            invariant
                i <= doc.parties.len(),
                out@ == s2 + parties_md(doc.parties@.take(i as int)),
            decreases doc.parties.len() - i,
        {
            assert(doc.parties@.take(i + 1).drop_last() == doc.parties@.take(i as int));
            let p = &doc.parties[i];
            put(out, "- **");
            put(out, p.name.as_str());
            put(out, "** (the \"");
            put(out, p.role.as_str());
            put(out, "\")");
            match &p.reg_no {
                Some(reg) => {
                    put(out, ", registration number ");
                    put(out, reg.as_str());
                },
                None => {},
            }
            put(out, "\n");
            i += 1;
        }
        assert(doc.parties@.take(doc.parties.len() as int) == doc.parties@);
        put(out, "\n");
        assert(out@ =~= s1 + ("**Between:**\n\n"@ + parties_md(doc.parties@) + "\n"@));
    } else {
        assert(out@ =~= out@ + Seq::<char>::empty());
    }
}

fn recitals_md_into(out: &mut Vec<char>, doc: &LirDocument)
    ensures
        final(out)@ == old(out)@ + recitals_md(doc.recitals@),
{
    let empty: Vec<char> = Vec::new();
    let ghost s3 = out@;
    let mut i: usize = 0;
    while i < doc.recitals.len()
        invariant
            i <= doc.recitals.len(),
            empty@ == Seq::<char>::empty(),
            out@ == s3 + recitals_md(doc.recitals@.take(i as int)),
        decreases doc.recitals.len() - i,
    {
        assert(doc.recitals@.take(i + 1).drop_last() == doc.recitals@.take(i as int));
        let b = blocks_md_exec(&doc.recitals[i].body, &empty);
        put_all(out, b.as_slice());
        put(out, "\n");
        i += 1;
    }
    assert(doc.recitals@.take(doc.recitals.len() as int) == doc.recitals@);
}

fn clauses_md_into(out: &mut Vec<char>, doc: &LirDocument)
    ensures
        final(out)@ == old(out)@ + clauses_md(doc.clauses@, 2),
{
    let ghost s4 = out@;
    let mut i: usize = 0;
    while i < doc.clauses.len()
        invariant
            i <= doc.clauses.len(),
            out@ == s4 + clauses_md(doc.clauses@.take(i as int), 2),
        decreases doc.clauses.len() - i,
    {
        assert(doc.clauses@.take(i + 1).drop_last() == doc.clauses@.take(i as int));
        clause_md_exec(out, &doc.clauses[i], 2);
        i += 1;
    }
    assert(doc.clauses@.take(doc.clauses.len() as int) == doc.clauses@);
}

fn schedules_md_into(out: &mut Vec<char>, doc: &LirDocument)
    ensures
        final(out)@ == old(out)@ + schedules_md(doc.schedules@),
{
    let empty: Vec<char> = Vec::new();
    let ghost s5 = out@;
    let mut i: usize = 0;
    while i < doc.schedules.len()
        invariant
            i <= doc.schedules.len(),
            empty@ == Seq::<char>::empty(),
            out@ == s5 + schedules_md(doc.schedules@.take(i as int)),
        decreases doc.schedules.len() - i,
    {
        assert(doc.schedules@.take(i + 1).drop_last() == doc.schedules@.take(i as int));
        let s = &doc.schedules[i];
        put(out, "## ");
        put(out, s.title.as_str());
        put(out, "\n\n");
        let b = blocks_md_exec(&s.body, &empty);
        put_all(out, b.as_slice());
        put(out, "\n");
        i += 1;
    }
    assert(doc.schedules@.take(doc.schedules.len() as int) == doc.schedules@);
}

fn execution_md_into(out: &mut Vec<char>, doc: &LirDocument)
    ensures
        final(out)@ == old(out)@ + (if doc.execution.blocks@.len() > 0 {
            "## Execution\n\n"@ + signatures_md(doc.execution.blocks@)
        } else {
            Seq::empty()
        }),
{
    let ghost s6 = out@;
    if doc.execution.blocks.len() > 0 {
        put(out, "## Execution\n\n");
        let ghost s7 = out@;
        let mut i: usize = 0;
        while i < doc.execution.blocks.len()
            invariant
                i <= doc.execution.blocks.len(),
                out@ == s7 + signatures_md(doc.execution.blocks@.take(i as int)),
            decreases doc.execution.blocks.len() - i,
        {
            assert(doc.execution.blocks@.take(i + 1).drop_last() == doc.execution.blocks@.take(i as int));
            put(out, "Signed ");
            put(out, doc.execution.blocks[i].signatory_line.as_str());
            put(out, " \n\n_____________________________\n\n");
            i += 1;
        }
        assert(doc.execution.blocks@.take(doc.execution.blocks.len() as int) == doc.execution.blocks@);
        assert(out@ =~= s6 + ("## Execution\n\n"@ + signatures_md(doc.execution.blocks@)));
    } else {
        assert(out@ =~= s6 + Seq::<char>::empty());
    }
}

/// Render a document as Markdown.
pub fn render_markdown(doc: &LirDocument) -> (r: String)
    ensures
        r@ == markdown(*doc),
{
    let mut out: Vec<char> = Vec::new();
    put(&mut out, "# ");
    put(&mut out, doc.meta.title.as_str());
    put(&mut out, "\n\n");
    let ghost a = out@;
    parties_md_into(&mut out, doc);
    let ghost b = out@;
    recitals_md_into(&mut out, doc);
    let ghost c = out@;
    clauses_md_into(&mut out, doc);
    let ghost d = out@;
    schedules_md_into(&mut out, doc);
    let ghost e = out@;
    execution_md_into(&mut out, doc);
    let ghost f = out@;
    match &doc.meta.jurisdiction {
        Some(j) => {
            put(&mut out, "\n_Governing law: ");
            put(&mut out, j.as_str());
            put(&mut out, "._\n");
        },
        None => {},
    }
    assert(out@ =~= markdown(*doc));
    string_of(out.as_slice())
}

} // verus!
