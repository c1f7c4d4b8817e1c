//! What the user is shown of sources and drafts: short snippets of text,
//! and the fill-in fields (`{{variable}}` placeholders) a draft still has.

use vstd::prelude::*;
use crate::chars::{self, chars_of, string_of, squash, squash_chars, byte_len, utf8_width, trim, trim_chars};
use crate::strs;
use crate::lir::{Block, LirClause, LirDocument, Definition, Recital, Schedule, block_text, blocks_texts, walk_all, derefs};
use crate::words::vecs_view;
use crate::model::str_eq;
use crate::strs::opt_view;

verus! {

// ---------------------------------------------------------------------------
// Snippets
// ---------------------------------------------------------------------------

/// `k` characters of `s` are the most whose UTF-8 encoding fits in `max`
/// bytes.
pub open spec fn fits_prefix(s: Seq<char>, max: nat, k: int) -> bool {
    &&& 0 <= k <= s.len()
    &&& byte_len(s.take(k)) <= max
    &&& (k == s.len() || byte_len(s.take(k + 1)) > max)
}

/// A one-line snippet of at most about `max` bytes: the text's words joined
/// by single spaces; when that is longer than `max` bytes, as many whole
/// characters as fit in `max` bytes, then an ellipsis.
pub fn snippet(text: &str, max: usize) -> (r: String)
    ensures
        byte_len(squash(text@)) <= max ==> r@ == squash(text@),
        byte_len(squash(text@)) > max ==> exists|k: int| fits_prefix(squash(text@), max as nat, k)
            && r@ == squash(text@).take(k).push('\u{2026}'),
{
    let v = chars_of(text);
    let flat = squash_chars(v.as_slice());
    if chars::byte_len_le(flat.as_slice(), max) {
        return string_of(flat.as_slice());
    }
    let mut total: usize = 0;
    let mut i: usize = 0;
    while i < flat.len()
        invariant
            i <= flat.len(),
            total == byte_len(flat@.take(i as int)),
            total <= max,
            byte_len(flat@) > max,
        ensures
            i <= flat.len(),
            total == byte_len(flat@.take(i as int)),
            total <= max,
            i == flat.len() || total + utf8_width(flat@[i as int]) > max,
        decreases flat.len() - i,
    {
        assert(flat@.take(i + 1).drop_last() == flat@.take(i as int));
        let w = utf8_width_of(flat[i]);
        if w > max - total {
            break;
        }
        total = total + w;
        i += 1;
    }
    assert(i == flat.len() ==> flat@.take(i as int) == flat@);
    assert(fits_prefix(flat@, max as nat, i as int)) by {
        if i < flat.len() {
            assert(flat@.take(i + 1).drop_last() == flat@.take(i as int));
        }
    }
    let mut out = chars::slice_of(flat.as_slice(), 0, i);
    assert(out@ == flat@.take(i as int));
    out.push('\u{2026}');
    string_of(out.as_slice())
}

fn utf8_width_of(c: char) -> (w: usize)
    ensures
        w == utf8_width(c),
{
    let u = c as u32;
    if u < 0x80 {
        1
    } else if u < 0x800 {
        2
    } else if u < 0x10000 {
        3
    } else {
        4
    }
}

/// A clause's text: the text of each of its body blocks, one per line.
pub open spec fn clause_text(c: LirClause) -> Seq<char> {
    strs::join(blocks_texts(c.body@), seq!['\n'])
}

/// The text of each body block, one per line.
pub fn body_text(body: &Vec<Block>) -> (r: String)
    ensures
        r@ == strs::join(blocks_texts(body@), seq!['\n']),
{
    let mut out = String::new();
    let mut i: usize = 0;
    while i < body.len()
        invariant
            i <= body.len(),
            out@ == strs::join(blocks_texts(body@.take(i as int)), seq!['\n']),
        decreases body.len() - i,
    {
        assert(body@.take(i + 1).drop_last() == body@.take(i as int));
        let t = body[i].plain_text();
        let ghost prev = blocks_texts(body@.take(i as int));
        if i > 0 {
            out.push('\n');
        }
        chars::push_str(&mut out, t.as_str());
        proof {
            crate::lir::lemma_blocks_texts_len(body@.take(i as int));
            assert(blocks_texts(body@.take(i + 1)) == prev.push(t@));
            assert(prev.push(t@).drop_last() == prev);
            assert(strs::join(prev.push(t@), seq!['\n']) == (if prev.len() == 0 {
                t@
            } else {
                strs::join(prev, seq!['\n']) + seq!['\n'] + t@
            }));
        }
        i += 1;
    }
    assert(body@.take(body.len() as int) == body@);
    out
}

/// The longest preview shown for a clause, in characters.
pub open spec fn preview_chars() -> nat {
    320
}

/// A clause preview: its text, trimmed; beyond 320 characters, the first 320
/// and an ellipsis.
pub open spec fn clause_preview(c: LirClause) -> Seq<char> {
    let t = trim(clause_text(c));
    if t.len() > preview_chars() {
        t.take(preview_chars() as int).push('\u{2026}')
    } else {
        t
    }
}

/// A clause preview is the clause's trimmed text when that has at most 320
/// characters; otherwise its first 320 characters and an ellipsis, so never
/// more than 321 characters.
pub proof fn lemma_clause_preview_bounds(c: LirClause)
    ensures
        clause_preview(c).len() <= 321,
        trim(clause_text(c)).len() <= 320 ==> clause_preview(c) == trim(clause_text(c)),
        trim(clause_text(c)).len() > 320 ==> clause_preview(c).len() == 321
            && clause_preview(c).take(320) == trim(clause_text(c)).take(320)
            && clause_preview(c)[320] == '\u{2026}',
{
    let t = trim(clause_text(c));
    if t.len() > 320 {
        assert(clause_preview(c).take(320) =~= t.take(320));
    }
}

/// A clause's text as a preview of at most 320 characters (and an
/// ellipsis).
pub fn clause_snippet(clause: &LirClause) -> (r: String)
    ensures
        r@ == clause_preview(*clause),
{
    let text = body_text(&clause.body);
    let tv = chars_of(text.as_str());
    let t = trim_chars(tv.as_slice());
    if t.len() > 320 {
        let mut out = chars::slice_of(t.as_slice(), 0, 320);
        out.push('\u{2026}');
        string_of(out.as_slice())
    } else {
        string_of(t.as_slice())
    }
}

// ---------------------------------------------------------------------------
// Fill-in fields
// ---------------------------------------------------------------------------

/// A fill-in field of a draft: a `{{variable}}` placeholder by name, with its
/// label and whether a non-blank value is already filled in.
#[derive(Debug, Clone)]
pub struct VarView {
    pub name: String,
    pub label: String,
    pub filled: bool,
}

/// A block and every block nested in it, depth first, parents first (into
/// list items and table cells).
pub open spec fn block_walk(b: Block) -> Seq<Block>
    decreases b,
{
    seq![b] + match b {
        Block::List { items, .. } => groups_walk(items@),
        Block::Table { rows } => rows_walk(rows@),
        _ => Seq::empty(),
    }
}

pub open spec fn blocks_walk(bs: Seq<Block>) -> Seq<Block>
    decreases bs,
{
    if bs.len() == 0 {
        Seq::empty()
    } else {
        blocks_walk(bs.drop_last()) + block_walk(bs.last())
    }
}

pub open spec fn groups_walk(gs: Seq<Vec<Block>>) -> Seq<Block>
    decreases gs,
{
    if gs.len() == 0 {
        Seq::empty()
    } else {
        groups_walk(gs.drop_last()) + blocks_walk(gs.last()@)
    }
}

pub open spec fn rows_walk(rows: Seq<Vec<Vec<Block>>>) -> Seq<Block>
    decreases rows,
{
    if rows.len() == 0 {
        Seq::empty()
    } else {
        rows_walk(rows.drop_last()) + groups_walk(rows.last()@)
    }
}

/// The blocks of several bodies, walked one body after the other.
pub open spec fn bodies_walk(bodies: Seq<Seq<Block>>) -> Seq<Block>
    decreases bodies.len(),
{
    if bodies.len() == 0 {
        Seq::empty()
    } else {
        bodies_walk(bodies.drop_last()) + blocks_walk(bodies.last())
    }
}

/// Every block of a document: the bodies of its clauses and all their
/// sub-clauses (depth first), then of its definitions, recitals and
/// schedules.
pub open spec fn doc_blocks(doc: LirDocument) -> Seq<Block> {
    bodies_walk(walk_all(doc.clauses@).map_values(|c: LirClause| c.body@))
        + bodies_walk(doc.definitions@.map_values(|d: Definition| d.body@))
        + bodies_walk(doc.recitals@.map_values(|r: Recital| r.body@))
        + bodies_walk(doc.schedules@.map_values(|s: Schedule| s.body@))
}

pub type FieldView = (Seq<char>, Seq<char>, bool);

/// A value counts as filled in when it is present and not blank.
pub open spec fn is_filled(value: Option<Seq<char>>) -> bool {
    value matches Some(v) && trim(v).len() > 0
}

pub open spec fn field_names(acc: Seq<FieldView>) -> Seq<Seq<char>> {
    acc.map_values(|f: FieldView| f.0)
}

/// The fields after meeting placeholders written into text, in order: each
/// name not met yet is added, labelled by its name and not filled in.
pub open spec fn note_names(acc: Seq<FieldView>, names: Seq<Seq<char>>) -> Seq<FieldView>
    decreases names.len(),
{
    if names.len() == 0 {
        acc
    } else {
        let a = note_names(acc, names.drop_last());
        if field_names(a).contains(names.last()) { a } else { a.push((names.last(), names.last(), false)) }
    }
}

/// The fields after meeting one more block: a variable block whose name has
/// not been met yet is added, and so is each `{{name}}` placeholder written
/// into a paragraph's text.
pub open spec fn note_field(acc: Seq<FieldView>, b: Block) -> Seq<FieldView> {
    match b {
        Block::Variable { name, label, value } => if field_names(acc).contains(name@) {
            acc
        } else {
            acc.push((name@, label@, is_filled(opt_view(value))))
        },
        Block::Paragraph { .. } => note_names(acc, crate::validate::vars_from(block_text(b), 0)),
        _ => acc,
    }
}

pub open spec fn fields_from(acc: Seq<FieldView>, bs: Seq<Block>) -> Seq<FieldView>
    decreases bs.len(),
{
    if bs.len() == 0 {
        acc
    } else {
        note_field(fields_from(acc, bs.drop_last()), bs.last())
    }
}

/// A document's distinct fill-in fields, each where its name first occurs.
pub open spec fn doc_fields(doc: LirDocument) -> Seq<FieldView> {
    fields_from(Seq::empty(), doc_blocks(doc))
}

pub open spec fn fields_view(v: Seq<VarView>) -> Seq<FieldView> {
    v.map_values(|f: VarView| (f.name@, f.label@, f.filled))
}

proof fn lemma_note_names_keeps(acc: Seq<FieldView>, names: Seq<Seq<char>>, x: Seq<char>)
    requires
        field_names(acc).contains(x),
    ensures
        field_names(note_names(acc, names)).contains(x),
    decreases names.len(),
{
    if names.len() > 0 {
        lemma_note_names_keeps(acc, names.drop_last(), x);
        let a = note_names(acc, names.drop_last());
        if !field_names(a).contains(names.last()) {
            let i = choose|i: int| 0 <= i < field_names(a).len() && field_names(a)[i] == x;
            assert(field_names(a.push((names.last(), names.last(), false)))[i] == x);
        }
    }
}

proof fn lemma_note_field_keeps(acc: Seq<FieldView>, b: Block, x: Seq<char>)
    requires
        field_names(acc).contains(x),
    ensures
        field_names(note_field(acc, b)).contains(x),
{
    match b {
        Block::Variable { name, label, value } => {
            if !field_names(acc).contains(name@) {
                let i = choose|i: int| 0 <= i < field_names(acc).len() && field_names(acc)[i] == x;
                assert(field_names(acc.push((name@, label@, is_filled(opt_view(value)))))[i] == x);
            }
        },
        Block::Paragraph { .. } => {
            lemma_note_names_keeps(acc, crate::validate::vars_from(block_text(b), 0), x);
        },
        _ => {},
    }
}

proof fn lemma_variable_noted(acc: Seq<FieldView>, bs: Seq<Block>, k: int)
    requires
        0 <= k < bs.len(),
        bs[k] is Variable,
    ensures
        field_names(fields_from(acc, bs)).contains(bs[k]->Variable_name@),
    decreases bs.len(),
{
    let d = bs.drop_last();
    if k == bs.len() - 1 {
        let a = fields_from(acc, d);
        let name = bs[k]->Variable_name@;
        if !field_names(a).contains(name) {
            let b = bs.last();
            let r = a.push((name, b->Variable_label@, is_filled(opt_view(b->Variable_value))));
            assert(field_names(r)[a.len() as int] == name);
        }
    } else {
        assert(d[k] == bs[k]);
        lemma_variable_noted(acc, d, k);
        lemma_note_field_keeps(fields_from(acc, d), bs.last(), bs[k]->Variable_name@);
    }
}

/// Every variable block of a document, however deeply it is nested (in a
/// sub-clause, a list item or a table cell, a definition, a recital or a
/// schedule), is among its fields.
pub proof fn lemma_every_variable_collected(doc: LirDocument, k: int)
    requires
        0 <= k < doc_blocks(doc).len(),
        doc_blocks(doc)[k] is Variable,
    ensures
        field_names(doc_fields(doc)).contains(doc_blocks(doc)[k]->Variable_name@),
{
    lemma_variable_noted(Seq::empty(), doc_blocks(doc), k);
}

proof fn lemma_fields_concat(acc: Seq<FieldView>, a: Seq<Block>, b: Seq<Block>)
    ensures
        fields_from(acc, a + b) == fields_from(fields_from(acc, a), b),
    decreases b.len(),
{
    if b.len() == 0 {
        assert(a + b == a);
    } else {
        lemma_fields_concat(acc, a, b.drop_last());
        assert((a + b).drop_last() == a + b.drop_last());
        assert((a + b).last() == b.last());
    }
}

/// Adds one field by name, when it is new.
#[verifier::loop_isolation(false)]
fn note_name_exec(out: &mut Vec<VarView>, name: &[char])
    ensures
        fields_view(final(out)@) == (if field_names(fields_view(old(out)@)).contains(name@) {
            fields_view(old(out)@)
        } else {
            fields_view(old(out)@).push((name@, name@, false))
        }),
{
    let mut k: usize = 0;
    while k < out.len()
        invariant
            k <= out.len(),
            forall|m: int| 0 <= m < k ==> field_names(fields_view(out@))[m] != name@,
        decreases out.len() - k,
    {
        let kn = chars_of(out[k].name.as_str());
        if chars::eq_chars(kn.as_slice(), name) {
            assert(field_names(fields_view(out@)).len() == out@.len());
            assert(field_names(fields_view(out@))[k as int] == name@);
            assert(field_names(fields_view(out@)).contains(name@));
            return;
        }
        k += 1;
    }
    assert(!field_names(fields_view(out@)).contains(name@));
    let ghost o0 = fields_view(out@);
    out.push(VarView { name: string_of(name), label: string_of(name), filled: false });
    assert(fields_view(out@) =~= o0.push((name@, name@, false)));
}

#[verifier::loop_isolation(false)]
fn note_field_exec(out: &mut Vec<VarView>, b: &Block)
    ensures
        fields_view(final(out)@) == note_field(fields_view(old(out)@), *b),
{
    if let Block::Paragraph { .. } = b {
        let text = chars_of(b.plain_text().as_str());
        let names = crate::validate::unresolved_vars(text.as_slice());
        let ghost o0 = fields_view(out@);
        let mut i: usize = 0;
        while i < names.len()
            invariant
                i <= names.len(),
                vecs_view(names@) == crate::validate::vars_from(block_text(*b), 0),
                fields_view(out@) == note_names(o0, vecs_view(names@).take(i as int)),
            decreases names.len() - i,
        {
            assert(vecs_view(names@).take(i + 1).drop_last() == vecs_view(names@).take(i as int));
            assert(vecs_view(names@)[i as int] == names@[i as int]@);
            note_name_exec(out, names[i].as_slice());
            i += 1;
        }
        assert(vecs_view(names@).take(names.len() as int) == vecs_view(names@));
        return;
    }
    if let Block::Variable { name, label, value } = b {
        let mut k: usize = 0;
        while k < out.len()
            invariant
                k <= out.len(),
                forall|m: int| 0 <= m < k ==> field_names(fields_view(out@))[m] != name@,
            decreases out.len() - k,
        {
            if str_eq(out[k].name.as_str(), name.as_str()) {
                assert(field_names(fields_view(out@)).len() == out@.len());
                assert(field_names(fields_view(out@))[k as int] == name@);
                assert(field_names(fields_view(out@)).contains(name@));
                return;
            }
            k += 1;
        }
        assert(!field_names(fields_view(out@)).contains(name@));
        let filled = match value {
            Some(v) => {
                let vv = chars_of(v.as_str());
                trim_chars(vv.as_slice()).len() > 0
            },
            None => false,
        };
        let ghost o0 = fields_view(out@);
        out.push(VarView { name: chars::copy_string(name), label: chars::copy_string(label), filled });
        assert(fields_view(out@) =~= o0.push((name@, label@, is_filled(opt_view(*value)))));
    }
}

fn gather_block(b: &Block, out: &mut Vec<VarView>)
    ensures
        fields_view(final(out)@) == fields_from(fields_view(old(out)@), block_walk(*b)),
    decreases *b,
{
    let ghost o0 = fields_view(out@);
    note_field_exec(out, b);
    assert(fields_from(o0, seq![*b]) == note_field(o0, *b)) by {
        assert(seq![*b].drop_last() =~= Seq::<Block>::empty());
        assert(fields_from(o0, Seq::<Block>::empty()) == o0);
        assert(seq![*b].last() == *b);
    }
    match b {
        Block::List { items, .. } => {
            assert forall|k: int| 0 <= k < items@.len() implies decreases_to!(*b => items@[k]@) by {
                assert(decreases_to!(*b => *items));
                assert(decreases_to!(*items => items@));
                assert(decreases_to!(items@ => items@[k]));
                assert(decreases_to!(items@[k] => items@[k]@));
            }
            let mut i: usize = 0;
            while i < items.len()
                invariant
                    i <= items.len(),
                    forall|k: int| 0 <= k < items@.len() ==> decreases_to!(*b => items@[k]@),
                    fields_view(out@) == fields_from(o0, seq![*b] + groups_walk(items@.take(i as int))),
                decreases items.len() - i,
            {
                assert(items@.take(i + 1).drop_last() == items@.take(i as int));
                let ghost before = fields_view(out@);
                gather_blocks(&items[i], out);
                proof {
                    lemma_fields_concat(o0, seq![*b] + groups_walk(items@.take(i as int)), blocks_walk(items@[i as int]@));
                    assert(seq![*b] + groups_walk(items@.take(i + 1))
                        =~= (seq![*b] + groups_walk(items@.take(i as int))) + blocks_walk(items@[i as int]@));
                }
                i += 1;
            }
            assert(items@.take(items.len() as int) == items@);
        },
        Block::Table { rows } => {
            assert forall|k: int, m: int| 0 <= k < rows@.len() && 0 <= m < rows@[k]@.len()
                implies decreases_to!(*b => rows@[k]@[m]@) by {
                assert(decreases_to!(*b => *rows));
                assert(decreases_to!(*rows => rows@));
                assert(decreases_to!(rows@ => rows@[k]));
                assert(decreases_to!(rows@[k] => rows@[k]@));
                assert(decreases_to!(rows@[k]@ => rows@[k]@[m]));
                assert(decreases_to!(rows@[k]@[m] => rows@[k]@[m]@));
            }
            let mut i: usize = 0;
            while i < rows.len()
                invariant
                    i <= rows.len(),
                    forall|k: int, m: int| 0 <= k < rows@.len() && 0 <= m < rows@[k]@.len()
                        ==> decreases_to!(*b => rows@[k]@[m]@),
                    fields_view(out@) == fields_from(o0, seq![*b] + rows_walk(rows@.take(i as int))),
                decreases rows.len() - i,
            {
                assert(rows@.take(i + 1).drop_last() == rows@.take(i as int));
                let row = &rows[i];
                let ghost r0 = seq![*b] + rows_walk(rows@.take(i as int));
                let mut j: usize = 0;
                while j < row.len()
                    invariant
                        j <= row.len(),
                        *row == rows@[i as int],
                        i < rows@.len(),
                        forall|k: int, m: int| 0 <= k < rows@.len() && 0 <= m < rows@[k]@.len()
                            ==> decreases_to!(*b => rows@[k]@[m]@),
                        fields_view(out@) == fields_from(o0, r0 + groups_walk(row@.take(j as int))),
                    decreases row.len() - j,
                {
                    assert(row@.take(j + 1).drop_last() == row@.take(j as int));
                    gather_blocks(&row[j], out);
                    proof {
                        lemma_fields_concat(o0, r0 + groups_walk(row@.take(j as int)), blocks_walk(row@[j as int]@));
                        assert(r0 + groups_walk(row@.take(j + 1))
                            =~= (r0 + groups_walk(row@.take(j as int))) + blocks_walk(row@[j as int]@));
                    }
                    j += 1;
                }
                assert(row@.take(row.len() as int) == row@);
                assert(r0 + groups_walk(row@) =~= seq![*b] + rows_walk(rows@.take(i + 1)));
                i += 1;
            }
            assert(rows@.take(rows.len() as int) == rows@);
        },
        _ => {
            assert(block_walk(*b) =~= seq![*b]);
        },
    }
}

fn gather_blocks(bs: &Vec<Block>, out: &mut Vec<VarView>)
    ensures
        fields_view(final(out)@) == fields_from(fields_view(old(out)@), blocks_walk(bs@)),
    decreases bs@, 0nat,
{
    let ghost o0 = fields_view(out@);
    let mut i: usize = 0;
    while i < bs.len()
        invariant
            i <= bs.len(),
            fields_view(out@) == fields_from(o0, blocks_walk(bs@.take(i as int))),
        decreases bs.len() - i,
    {
        assert(bs@.take(i + 1).drop_last() == bs@.take(i as int));
        gather_block(&bs[i], out);
        proof {
            lemma_fields_concat(o0, blocks_walk(bs@.take(i as int)), block_walk(bs@[i as int]));
        }
        i += 1;
    }
    assert(bs@.take(bs.len() as int) == bs@);
}

/// The distinct `{{variable}}` fields of a draft, each where its name first
/// occurs: variable blocks and placeholders written into paragraph text, in
/// the bodies of its clauses and all their sub-clauses, then its
/// definitions, recitals and schedules, each body walked depth first into
/// list items and table cells.
pub fn collect_variables(doc: &LirDocument) -> (r: Vec<VarView>)
    ensures
        fields_view(r@) == doc_fields(*doc),
{
    let mut out: Vec<VarView> = Vec::new();
    let all = doc.walk_clauses();
    let ghost cb = walk_all(doc.clauses@).map_values(|c: LirClause| c.body@);
    let ghost db = doc.definitions@.map_values(|d: Definition| d.body@);
    let ghost rb = doc.recitals@.map_values(|r: Recital| r.body@);
    let ghost sb = doc.schedules@.map_values(|s: Schedule| s.body@);
    let mut i: usize = 0;
    while i < all.len()
        invariant
            i <= all.len(),
            derefs(all@) == walk_all(doc.clauses@),
            cb == walk_all(doc.clauses@).map_values(|c: LirClause| c.body@),
            fields_view(out@) == fields_from(Seq::empty(), bodies_walk(cb.take(i as int))),
        decreases all.len() - i,
    {
        assert(cb.take(i + 1).drop_last() == cb.take(i as int));
        assert(derefs(all@)[i as int] == *all@[i as int]);
        gather_blocks(&all[i].body, &mut out);
        proof {
            lemma_fields_concat(Seq::empty(), bodies_walk(cb.take(i as int)), blocks_walk(cb[i as int]));
        }
        i += 1;
    }
    assert(cb.take(cb.len() as int) == cb);
    let ghost a0 = fields_view(out@);
    let mut i: usize = 0;
    while i < doc.definitions.len()
        invariant
            i <= doc.definitions.len(),
            db == doc.definitions@.map_values(|d: Definition| d.body@),
            fields_view(out@) == fields_from(a0, bodies_walk(db.take(i as int))),
        decreases doc.definitions.len() - i,
    {
        assert(db.take(i + 1).drop_last() == db.take(i as int));
        gather_blocks(&doc.definitions[i].body, &mut out);
        proof {
            lemma_fields_concat(a0, bodies_walk(db.take(i as int)), blocks_walk(db[i as int]));
        }
        i += 1;
    }
    assert(db.take(db.len() as int) == db);
    let ghost a1 = fields_view(out@);
    let mut i: usize = 0;
    while i < doc.recitals.len()
        invariant
            i <= doc.recitals.len(),
            rb == doc.recitals@.map_values(|r: Recital| r.body@),
            fields_view(out@) == fields_from(a1, bodies_walk(rb.take(i as int))),
        decreases doc.recitals.len() - i,
    {
        assert(rb.take(i + 1).drop_last() == rb.take(i as int));
        gather_blocks(&doc.recitals[i].body, &mut out);
        proof {
            lemma_fields_concat(a1, bodies_walk(rb.take(i as int)), blocks_walk(rb[i as int]));
        }
        i += 1;
    }
    assert(rb.take(rb.len() as int) == rb);
    let ghost a2 = fields_view(out@);
    let mut i: usize = 0;
    while i < doc.schedules.len()
        invariant
            i <= doc.schedules.len(),
            sb == doc.schedules@.map_values(|s: Schedule| s.body@),
            fields_view(out@) == fields_from(a2, bodies_walk(sb.take(i as int))),
        decreases doc.schedules.len() - i,
    {
        assert(sb.take(i + 1).drop_last() == sb.take(i as int));
        gather_blocks(&doc.schedules[i].body, &mut out);
        proof {
            lemma_fields_concat(a2, bodies_walk(sb.take(i as int)), blocks_walk(sb[i as int]));
        }
        i += 1;
    }
    assert(sb.take(sb.len() as int) == sb);
    proof {
        let w0 = bodies_walk(cb);
        let w1 = bodies_walk(db);
        let w2 = bodies_walk(rb);
        let w3 = bodies_walk(sb);
        lemma_fields_concat(Seq::empty(), w0, w1);
        lemma_fields_concat(Seq::empty(), w0 + w1, w2);
        lemma_fields_concat(Seq::empty(), w0 + w1 + w2, w3);
    }
    out
}

} // verus!
