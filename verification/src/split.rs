//! Clause segmentation.
//!
//! A parsed document is cut into knowledge objects in document order. Every
//! object carries its `seq` (position) and `depth` (nesting implied by its
//! number), so the precedent's own structure — "5", "5.1", "5.1.2" — can be
//! rebuilt downstream. Definitions are harvested out of clause bodies by
//! `find_definitions`.

use vstd::prelude::*;
use crate::chars::{self, chars_of, string_of, trim_chars, byte_len_le, is_alphabetic, is_uppercase, to_lower, contains_str, copy_opt};
use crate::strs::{self, views, join_strings};
use crate::model::{self, ClauseKind, ClauseMetadata, ExtractedClause, ParsedDocument, Paragraph};
use crate::grammar::{self, split_leading_number, schedule_marker, definition_terms};

verus! {

/// Metadata as plain values.
pub struct MetaView {
    pub contract_type: Option<Seq<char>>,
    pub clause_type: Option<Seq<char>>,
    pub jurisdiction: Option<Seq<char>>,
    pub industry: Option<Seq<char>>,
    pub risk: Option<Seq<char>>,
    pub language: Option<Seq<char>>,
    pub version: Option<Seq<char>>,
    pub source: Option<Seq<char>>,
    pub approved: Option<bool>,
}

/// An extracted knowledge object as plain values.
pub struct ClauseView {
    pub kind: ClauseKind,
    pub number: Option<Seq<char>>,
    pub seq: int,
    pub depth: u8,
    pub heading: Option<Seq<char>>,
    pub term: Option<Seq<char>>,
    pub body: Seq<char>,
    pub ooxml: Seq<Seq<char>>,
    pub heading_ooxml: Option<Seq<char>>,
    pub meta: MetaView,
}

pub open spec fn empty_meta() -> MetaView {
    MetaView {
        contract_type: None,
        clause_type: None,
        jurisdiction: None,
        industry: None,
        risk: None,
        language: None,
        version: None,
        source: None,
        approved: None,
    }
}

pub open spec fn meta_view(m: ClauseMetadata) -> MetaView {
    MetaView {
        contract_type: strs::opt_view(m.contract_type),
        clause_type: strs::opt_view(m.clause_type),
        jurisdiction: strs::opt_view(m.jurisdiction),
        industry: strs::opt_view(m.industry),
        risk: strs::opt_view(m.risk),
        language: strs::opt_view(m.language),
        version: strs::opt_view(m.version),
        source: strs::opt_view(m.source),
        approved: m.approved,
    }
}

pub open spec fn clause_view(c: ExtractedClause) -> ClauseView {
    ClauseView {
        kind: c.kind,
        number: strs::opt_view(c.number),
        seq: c.seq as int,
        depth: c.depth,
        heading: strs::opt_view(c.heading),
        term: strs::opt_view(c.term),
        body: c.body@,
        ooxml: views(c.ooxml@),
        heading_ooxml: strs::opt_view(c.heading_ooxml),
        meta: meta_view(c.metadata),
    }
}

pub open spec fn clauses_view(v: Seq<ExtractedClause>) -> Seq<ClauseView> {
    v.map_values(|c: ExtractedClause| clause_view(c))
}

/// A node being built: kind, number, depth, heading and body lines, with
/// the original XML of its heading and body paragraphs where they had any.
pub struct BuilderView {
    pub kind: ClauseKind,
    pub number: Option<Seq<char>>,
    pub depth: u8,
    pub heading: Option<Seq<char>>,
    pub heading_ooxml: Option<Seq<char>>,
    pub body: Seq<Seq<char>>,
    pub body_ooxml: Seq<Seq<char>>,
}

/// Segmentation state after a prefix of the paragraphs.
pub struct SplitState {
    pub out: Seq<ClauseView>,
    pub current: Option<BuilderView>,
    pub in_schedule: bool,
    pub seen_numbered: bool,
    pub section_kind: ClauseKind,
}

// ---------------------------------------------------------------------------
// Heading heuristics
// ---------------------------------------------------------------------------

/// Words (maximal non-whitespace runs) seen so far, and whether the last
/// character was inside a word.
pub open spec fn words_state(s: Seq<char>) -> (nat, bool)
    decreases s.len(),
{
    if s.len() == 0 {
        (0, false)
    } else {
        let prev = words_state(s.drop_last());
        if chars::is_ws(s.last()) {
            (prev.0, false)
        } else if prev.1 {
            (prev.0, true)
        } else {
            (prev.0 + 1, true)
        }
    }
}

/// `split_whitespace().count()`.
pub open spec fn word_count(s: Seq<char>) -> nat {
    words_state(s).0
}

/// Whether the text after a clause number reads as a heading rather than the
/// clause's own body: at most 90 bytes, not ending in `. ; : ,`, at most ten
/// words.
pub open spec fn is_heading_text(t: Seq<char>) -> bool {
    &&& chars::byte_len(t) <= 90
    &&& !(t.len() > 0 && (t.last() == '.' || t.last() == ';' || t.last() == ':' || t.last() == ','))
    &&& word_count(t) <= 10
}

/// Some letter, and every letter uppercase.
pub open spec fn all_caps(t: Seq<char>) -> bool {
    &&& exists|i: int| 0 <= i < t.len() && chars::alphabetic(t[i])
    &&& forall|i: int| 0 <= i < t.len() && chars::alphabetic(t[i]) ==> chars::uppercase(t[i])
}

/// An unnumbered heading: a declared heading style (at most 120 bytes), or a
/// short (at most 60 bytes) ALL-CAPS line.
pub open spec fn is_unnumbered_heading(t: Seq<char>, level: Option<u8>) -> bool {
    (level is Some && chars::byte_len(t) <= 120) || (chars::byte_len(t) <= 60 && all_caps(t))
}

pub open spec fn mentions_one(t: Seq<char>, words: Seq<Seq<char>>) -> bool {
    exists|i: int| 0 <= i < words.len() && chars::contains(chars::lower(t), words[i])
}

pub open spec fn execution_words() -> Seq<Seq<char>> {
    seq!["signature"@, "signed"@, "execution"@]
}

pub open spec fn recital_words() -> Seq<Seq<char>> {
    seq!["recital"@, "preamble"@, "introduction"@, "whereas"@, "background"@]
}

/// What kind of node a heading starts. Anything before the first numbered
/// clause is front matter.
pub open spec fn node_kind(in_schedule: bool, heading: Seq<char>, seen_numbered: bool) -> ClauseKind {
    if in_schedule {
        ClauseKind::Schedule
    } else if mentions_one(heading, execution_words()) {
        ClauseKind::Execution
    } else if mentions_one(heading, recital_words()) || !seen_numbered {
        ClauseKind::Recital
    } else {
        ClauseKind::Clause
    }
}

pub open spec fn count_dots(s: Seq<char>) -> nat
    decreases s.len(),
{
    if s.len() == 0 {
        0
    } else {
        count_dots(s.drop_last()) + if s.last() == '.' { 1nat } else { 0nat }
    }
}

pub open spec fn depth_of(path: Seq<char>) -> u8 {
    if count_dots(path) > 255 {
        255
    } else {
        count_dots(path) as u8
    }
}

// ---------------------------------------------------------------------------
// The segmentation state machine
// ---------------------------------------------------------------------------

/// The object a builder becomes at position `seq`; a builder with neither a
/// heading nor any non-blank body text yields nothing.
pub open spec fn finish(b: BuilderView, seq: int) -> Option<ClauseView> {
    let body = strs::join(b.body, "\n"@);
    if chars::trim(body).len() == 0 && b.heading is None {
        None
    } else {
        Some(ClauseView {
            kind: b.kind,
            number: b.number,
            seq: seq,
            depth: b.depth,
            heading: b.heading,
            term: None,
            body: body,
            ooxml: b.body_ooxml,
            heading_ooxml: b.heading_ooxml,
            meta: empty_meta(),
        })
    }
}

pub open spec fn flush(st: SplitState) -> SplitState {
    match st.current {
        Some(b) => SplitState {
            out: match finish(b, st.out.len() as int) {
                Some(c) => st.out.push(c),
                None => st.out,
            },
            current: None,
            ..st
        },
        None => st,
    }
}

pub open spec fn initial_state() -> SplitState {
    SplitState {
        out: Seq::empty(),
        current: None,
        in_schedule: false,
        seen_numbered: false,
        section_kind: ClauseKind::Recital,
    }
}

pub open spec fn heading_node(kind: ClauseKind, heading: Seq<char>, ox: Option<Seq<char>>) -> BuilderView {
    BuilderView { kind, number: None, depth: 0, heading: Some(heading), heading_ooxml: ox, body: Seq::empty(), body_ooxml: Seq::empty() }
}

/// A paragraph's XML as a list of at most one entry.
pub open spec fn opt_seq(ox: Option<Seq<char>>) -> Seq<Seq<char>> {
    match ox {
        Some(x) => seq![x],
        None => Seq::empty(),
    }
}

/// One paragraph's effect on the segmentation state: its text, declared
/// heading level and original XML.
pub open spec fn step(st: SplitState, text: Seq<char>, level: Option<u8>, ox: Option<Seq<char>>) -> SplitState {
    let t = chars::trim(text);
    if t.len() == 0 {
        st
    } else if grammar::is_schedule_marker(t) && chars::byte_len(t) <= 80 {
        let f = flush(st);
        SplitState {
            current: Some(heading_node(ClauseKind::Schedule, t, ox)),
            in_schedule: true,
            section_kind: ClauseKind::Schedule,
            ..f
        }
    } else {
        match grammar::leading_number(t) {
            Some((path, rest0)) => {
                let rest = chars::trim(rest0);
                let f = flush(st);
                let heading = if is_heading_text(rest) { Some(rest) } else { None::<Seq<char>> };
                let depth = depth_of(path);
                let section = match heading {
                    Some(h) => node_kind(f.in_schedule, h, true),
                    None => if depth == 0 {
                        node_kind(f.in_schedule, Seq::empty(), true)
                    } else {
                        f.section_kind
                    },
                };
                SplitState {
                    current: Some(BuilderView {
                        kind: section,
                        number: Some(path),
                        depth: depth,
                        heading: heading,
                        heading_ooxml: if heading is Some { ox } else { None },
                        body: if heading is Some { Seq::empty() } else { seq![rest] },
                        body_ooxml: if heading is Some { Seq::empty() } else { opt_seq(ox) },
                    }),
                    seen_numbered: true,
                    section_kind: section,
                    ..f
                }
            },
            None => if is_unnumbered_heading(t, level) {
                let f = flush(st);
                let k = node_kind(f.in_schedule, t, f.seen_numbered);
                SplitState { current: Some(heading_node(k, t, ox)), section_kind: k, ..f }
            } else {
                match st.current {
                    Some(b) => SplitState {
                        current: Some(BuilderView { body: b.body.push(t), body_ooxml: b.body_ooxml + opt_seq(ox), ..b }),
                        ..st
                    },
                    None => SplitState {
                        current: Some(BuilderView {
                            kind: ClauseKind::Recital,
                            number: None,
                            depth: 0,
                            heading: None,
                            heading_ooxml: None,
                            body: seq![t],
                            body_ooxml: opt_seq(ox),
                        }),
                        ..st
                    },
                }
            },
        }
    }
}

pub open spec fn paragraph_view(p: Paragraph) -> (Seq<char>, Option<u8>) {
    (p.text@, p.heading_level)
}

/// A paragraph as the segmenter reads it: text, declared heading level and
/// original XML.
pub open spec fn para_view(p: Paragraph) -> (Seq<char>, Option<u8>, Option<Seq<char>>) {
    (p.text@, p.heading_level, strs::opt_view(p.ooxml))
}

/// State after processing a sequence of paragraphs.
pub open spec fn run(paras: Seq<(Seq<char>, Option<u8>, Option<Seq<char>>)>) -> SplitState
    decreases paras.len(),
{
    if paras.len() == 0 {
        initial_state()
    } else {
        step(run(paras.drop_last()), paras.last().0, paras.last().1, paras.last().2)
    }
}

/// The segmentation of a document's paragraphs.
pub open spec fn segment(paras: Seq<(Seq<char>, Option<u8>, Option<Seq<char>>)>) -> Seq<ClauseView> {
    flush(run(paras)).out
}

pub open spec fn doc_paragraphs(doc: ParsedDocument) -> Seq<(Seq<char>, Option<u8>, Option<Seq<char>>)> {
    doc.paragraphs@.map_values(|p: Paragraph| para_view(p))
}

/// The kind of node a heading starts: inside the schedules, a schedule; else
/// one whose heading (ASCII case ignored) mentions "signature", "signed" or
/// "execution", an execution block; else one mentioning "recital",
/// "preamble", "introduction", "whereas" or "background", or any before the
/// first numbered clause, front matter; else an operative clause.
pub proof fn lemma_node_kinds(in_schedule: bool, heading: Seq<char>, seen_numbered: bool)
    ensures
        ({
            let l = chars::lower(heading);
            let exec = chars::contains(l, "signature"@) || chars::contains(l, "signed"@) || chars::contains(l, "execution"@);
            let rec = chars::contains(l, "recital"@) || chars::contains(l, "preamble"@) || chars::contains(l, "introduction"@)
                || chars::contains(l, "whereas"@) || chars::contains(l, "background"@);
            &&& in_schedule ==> node_kind(in_schedule, heading, seen_numbered) == ClauseKind::Schedule
            &&& !in_schedule && exec ==> node_kind(in_schedule, heading, seen_numbered) == ClauseKind::Execution
            &&& !in_schedule && !exec && (rec || !seen_numbered) ==> node_kind(in_schedule, heading, seen_numbered) == ClauseKind::Recital
            &&& !in_schedule && !exec && !rec && seen_numbered ==> node_kind(in_schedule, heading, seen_numbered) == ClauseKind::Clause
        }),
{
    let l = chars::lower(heading);
    let ew = execution_words();
    let rw = recital_words();
    if chars::contains(l, "signature"@) { assert(ew[0] == "signature"@); }
    if chars::contains(l, "signed"@) { assert(ew[1] == "signed"@); }
    if chars::contains(l, "execution"@) { assert(ew[2] == "execution"@); }
    if mentions_one(heading, ew) {
        let i = choose|i: int| 0 <= i < ew.len() && chars::contains(l, ew[i]);
        assert(0 <= i < 3);
    }
    if chars::contains(l, "recital"@) { assert(rw[0] == "recital"@); }
    if chars::contains(l, "preamble"@) { assert(rw[1] == "preamble"@); }
    if chars::contains(l, "introduction"@) { assert(rw[2] == "introduction"@); }
    if chars::contains(l, "whereas"@) { assert(rw[3] == "whereas"@); }
    if chars::contains(l, "background"@) { assert(rw[4] == "background"@); }
    if mentions_one(heading, rw) {
        let i = choose|i: int| 0 <= i < rw.len() && chars::contains(l, rw[i]);
        assert(0 <= i < 5);
    }
}

/// When text after a clause number reads as its heading: at most 90 bytes,
/// not ending in `.`, `;`, `:` or `,`, and at most ten words. A line without
/// a number is a heading when its paragraph style declares one (and it is at
/// most 120 bytes), or when it is at most 60 bytes and all capitals.
pub proof fn lemma_heading_rules(t: Seq<char>, level: Option<u8>)
    ensures
        is_heading_text(t) == (chars::byte_len(t) <= 90
            && !(t.len() > 0 && (t.last() == '.' || t.last() == ';' || t.last() == ':' || t.last() == ','))
            && word_count(t) <= 10),
        is_unnumbered_heading(t, level) == ((level is Some && chars::byte_len(t) <= 120)
            || (chars::byte_len(t) <= 60 && all_caps(t))),
{
}

// ---------------------------------------------------------------------------
// The shape of a segmentation
// ---------------------------------------------------------------------------

/// The text has a character that is not whitespace.
pub open spec fn solid(s: Seq<char>) -> bool {
    exists|k: int| 0 <= k < s.len() && !chars::is_ws(#[trigger] s[k])
}

proof fn lemma_trim_start_solid(s: Seq<char>)
    requires
        solid(s),
    ensures
        chars::trim_start(s).len() > 0 && !chars::is_ws(chars::trim_start(s)[0]),
    decreases s.len(),
{
    if chars::is_ws(s[0]) {
        let k = choose|k: int| 0 <= k < s.len() && !chars::is_ws(#[trigger] s[k]);
        assert(s.drop_first()[k - 1] == s[k]);
        lemma_trim_start_solid(s.drop_first());
    }
}

pub proof fn lemma_trim_end_keeps_first(s: Seq<char>)
    requires
        s.len() > 0,
        !chars::is_ws(s[0]),
    ensures
        chars::trim_end(s).len() > 0 && chars::trim_end(s)[0] == s[0],
    decreases s.len(),
{
    if chars::is_ws(s.last()) {
        assert(s.drop_last()[0] == s[0]);
        lemma_trim_end_keeps_first(s.drop_last());
    }
}

/// Trimming a text with a character that is not whitespace leaves one.
proof fn lemma_trim_solid(s: Seq<char>)
    requires
        solid(s),
    ensures
        chars::trim(s).len() > 0,
        solid(chars::trim(s)),
{
    lemma_trim_start_solid(s);
    lemma_trim_end_keeps_first(chars::trim_start(s));
    assert(!chars::is_ws(chars::trim(s)[0]));
}

proof fn lemma_join_solid(parts: Seq<Seq<char>>, sep: Seq<char>, i: int)
    requires
        0 <= i < parts.len(),
        solid(parts[i]),
    ensures
        solid(strs::join(parts, sep)),
    decreases parts.len(),
{
    if parts.len() > 1 {
        let a = strs::join(parts.drop_last(), sep);
        if i == parts.len() - 1 {
            let k = choose|k: int| 0 <= k < parts[i].len() && !chars::is_ws(#[trigger] parts[i][k]);
            assert((a + sep + parts.last())[a.len() + sep.len() + k] == parts[i][k]);
        } else {
            assert(parts.drop_last()[i] == parts[i]);
            lemma_join_solid(parts.drop_last(), sep, i);
            let k = choose|k: int| 0 <= k < a.len() && !chars::is_ws(#[trigger] a[k]);
            assert((a + sep + parts.last())[k] == a[k]);
        }
    }
}

/// The rest of a line after its clause number holds text.
proof fn lemma_leading_rest_solid(s: Seq<char>)
    requires
        grammar::leading_number(s) is Some,
    ensures
        solid((grammar::leading_number(s)->0).1),
{
    let d = grammar::run_while(s, 0, grammar::digits());
    grammar::lemma_run_bound(s, 0, grammar::digits());
    grammar::lemma_number_end_bound(s, d as int);
    let e = grammar::number_end(s, d as int);
    let p = if e < s.len() && (s[e] == '.' || s[e] == ')') { e + 1 } else { e };
    grammar::lemma_run_bound(s, p, grammar::spaces());
    let w = grammar::run_while(s, p, grammar::spaces());
    let rest = s.subrange(p + w, s.len() as int);
    assert(rest[0] == s[p + w]);
    assert(!(grammar::spaces())(s[p + w]));
    assert(!chars::is_ws(rest[0]));
}

/// A node's depth is what its number implies (0 without a number).
pub open spec fn depth_fits(number: Option<Seq<char>>, depth: u8) -> bool {
    match number {
        Some(n) => depth == depth_of(n),
        None => depth == 0,
    }
}

pub open spec fn builder_ok(b: BuilderView) -> bool {
    &&& depth_fits(b.number, b.depth)
    &&& b.kind != ClauseKind::Definition
    &&& b.number is Some ==> (b.heading is Some || exists|l: int| 0 <= l < b.body.len() && solid(#[trigger] b.body[l]))
}

/// Some object of the list has a number.
pub open spec fn has_number(out: Seq<ClauseView>) -> bool {
    exists|j: int| 0 <= j < out.len() && (#[trigger] out[j]).number is Some
}

/// What holds of the state after any prefix of the paragraphs.
pub open spec fn shape_inv(st: SplitState) -> bool {
    &&& forall|i: int| 0 <= i < st.out.len() ==> (#[trigger] st.out[i]).seq == i
        && st.out[i].kind != ClauseKind::Definition && st.out[i].term is None
        && depth_fits(st.out[i].number, st.out[i].depth)
    &&& (st.current matches Some(b) ==> builder_ok(b))
    &&& st.section_kind != ClauseKind::Definition
    &&& forall|i: int, j: int| 0 <= i < j < st.out.len() && (#[trigger] st.out[i]).kind == ClauseKind::Schedule
        ==> (#[trigger] st.out[j]).kind == ClauseKind::Schedule
    &&& forall|i: int| 0 <= i < st.out.len() && (#[trigger] st.out[i]).kind == ClauseKind::Schedule ==> st.in_schedule
    &&& st.in_schedule ==> (st.section_kind == ClauseKind::Schedule
        && (st.current matches Some(b) && b.kind == ClauseKind::Schedule))
    &&& (st.current matches Some(b) && b.kind == ClauseKind::Schedule) ==> st.in_schedule
    &&& st.section_kind == ClauseKind::Schedule ==> st.in_schedule
    &&& forall|i: int| 0 <= i < st.out.len() && (#[trigger] st.out[i]).kind == ClauseKind::Clause
        ==> has_number(st.out.take(i + 1))
    &&& (st.current matches Some(b) ==> (b.kind == ClauseKind::Clause ==> (has_number(st.out) || b.number is Some)))
    &&& st.section_kind == ClauseKind::Clause ==> st.seen_numbered
    &&& st.seen_numbered ==> (has_number(st.out) || (st.current matches Some(b) && b.number is Some))
}

proof fn lemma_flush_inv(st: SplitState)
    requires
        shape_inv(st),
    ensures
        ({
            let f = flush(st);
            &&& forall|i: int| 0 <= i < f.out.len() ==> (#[trigger] f.out[i]).seq == i
                && f.out[i].kind != ClauseKind::Definition && f.out[i].term is None
                && depth_fits(f.out[i].number, f.out[i].depth)
            &&& forall|i: int, j: int| 0 <= i < j < f.out.len() && (#[trigger] f.out[i]).kind == ClauseKind::Schedule
                ==> (#[trigger] f.out[j]).kind == ClauseKind::Schedule
            &&& forall|i: int| 0 <= i < f.out.len() && (#[trigger] f.out[i]).kind == ClauseKind::Schedule ==> st.in_schedule
            &&& f.in_schedule == st.in_schedule
            &&& f.section_kind == st.section_kind
            &&& f.seen_numbered == st.seen_numbered
            &&& f.current is None
            &&& f.out.len() >= st.out.len()
            &&& forall|i: int| 0 <= i < st.out.len() ==> f.out[i] == st.out[i]
            &&& forall|i: int| 0 <= i < f.out.len() && (#[trigger] f.out[i]).kind == ClauseKind::Clause
                ==> has_number(f.out.take(i + 1))
            &&& st.seen_numbered ==> has_number(f.out)
        }),
{
    let f = flush(st);
    assert forall|i: int| 0 <= i < st.out.len() implies #[trigger] f.out.take(i + 1) == st.out.take(i + 1) by {
        assert(f.out.take(i + 1) =~= st.out.take(i + 1));
    }
    if has_number(st.out) {
        let j = choose|j: int| 0 <= j < st.out.len() && (#[trigger] st.out[j]).number is Some;
        assert(f.out[j] == st.out[j]);
    }
    if let Some(b) = st.current {
        if b.number is Some {
            if b.heading is None {
                let l = choose|l: int| 0 <= l < b.body.len() && solid(#[trigger] b.body[l]);
                lemma_join_solid(b.body, "\n"@, l);
                lemma_trim_solid(strs::join(b.body, "\n"@));
            }
        }
        if let Some(c) = finish(b, st.out.len() as int) {
            assert(f.out == st.out.push(c));
            let i = st.out.len() as int;
            assert(f.out.take(i + 1) == f.out);
            if b.number is Some {
                assert(f.out[i].number is Some);
            } else if has_number(st.out) {
                let j = choose|j: int| 0 <= j < st.out.len() && (#[trigger] st.out[j]).number is Some;
                assert(f.out[j] == st.out[j]);
            }
            assert forall|i: int, j: int| 0 <= i < j < f.out.len() && (#[trigger] f.out[i]).kind == ClauseKind::Schedule
                implies (#[trigger] f.out[j]).kind == ClauseKind::Schedule by {
                if j == st.out.len() {
                    assert(st.in_schedule);
                }
            }
        }
    }
}

proof fn lemma_step_inv(st: SplitState, text: Seq<char>, level: Option<u8>, ox: Option<Seq<char>>)
    requires
        shape_inv(st),
    ensures
        shape_inv(step(st, text, level, ox)),
{
    let t = chars::trim(text);
    lemma_flush_inv(st);
    if t.len() == 0 {
    } else if grammar::is_schedule_marker(t) && chars::byte_len(t) <= 80 {
        assert(shape_inv(step(st, text, level, ox)));
    } else {
        match grammar::leading_number(t) {
            Some((path, rest0)) => {
                lemma_leading_rest_solid(t);
                let rest = chars::trim(rest0);
                lemma_trim_solid(rest0);
                assert(solid(rest));
                if !is_heading_text(rest) {
                    assert(seq![rest][0] == rest);
                    assert(solid(seq![rest][0]));
                }
                let nst = step(st, text, level, ox);
                let b = nst.current->0;
                assert(depth_fits(b.number, b.depth));
                assert(b.kind != ClauseKind::Definition);
                assert(b.heading is Some || solid(b.body[0]));
                assert(nst.seen_numbered);
                assert(shape_inv(nst));
            },
            None => {
                if is_unnumbered_heading(t, level) {
                    assert(shape_inv(step(st, text, level, ox)));
                } else {
                    match st.current {
                        Some(b) => {
                            let nb = BuilderView { body: b.body.push(t), body_ooxml: b.body_ooxml + opt_seq(ox), ..b };
                            if b.number is Some && b.heading is None {
                                let l = choose|l: int| 0 <= l < b.body.len() && solid(#[trigger] b.body[l]);
                                assert(nb.body[l] == b.body[l]);
                            }
                            assert(builder_ok(nb));
                            assert(shape_inv(step(st, text, level, ox)));
                        },
                        None => {
                            assert(!st.in_schedule);
                            assert(shape_inv(step(st, text, level, ox)));
                        },
                    }
                }
            },
        }
    }
}

proof fn lemma_run_inv(paras: Seq<(Seq<char>, Option<u8>, Option<Seq<char>>)>)
    ensures
        shape_inv(run(paras)),
    decreases paras.len(),
{
    if paras.len() > 0 {
        lemma_run_inv(paras.drop_last());
        lemma_step_inv(run(paras.drop_last()), paras.last().0, paras.last().1, paras.last().2);
    }
}

/// The shape of a segmentation: each object's `seq` is its position; its
/// depth is what its number implies (0 without one); segmentation makes no
/// definitions (those are harvested later) and so names no term; everything
/// before the first numbered object is front matter, never an operative
/// clause; and once a schedule starts, everything after it is schedule.
pub proof fn lemma_segment_shape(paras: Seq<(Seq<char>, Option<u8>, Option<Seq<char>>)>)
    ensures
        forall|i: int| 0 <= i < segment(paras).len() && (#[trigger] segment(paras)[i]).kind == ClauseKind::Clause
            ==> exists|j: int| 0 <= j <= i && (#[trigger] segment(paras)[j]).number is Some,
        forall|i: int| 0 <= i < segment(paras).len() ==> (#[trigger] segment(paras)[i]).seq == i
            && segment(paras)[i].kind != ClauseKind::Definition && segment(paras)[i].term is None
            && depth_fits(segment(paras)[i].number, segment(paras)[i].depth),
        forall|i: int, j: int| 0 <= i < j < segment(paras).len() && (#[trigger] segment(paras)[i]).kind == ClauseKind::Schedule
            ==> (#[trigger] segment(paras)[j]).kind == ClauseKind::Schedule,
{
    let sg = segment(paras);
    assert(forall|i: int| 0 <= i < sg.len() ==> (#[trigger] sg[i]).seq == i
            && sg[i].kind != ClauseKind::Definition && sg[i].term is None
            && depth_fits(sg[i].number, sg[i].depth)) by {
        lemma_run_inv(paras);
        lemma_flush_inv(run(paras));
    }
    assert(forall|i: int, j: int| 0 <= i < j < sg.len() && (#[trigger] sg[i]).kind == ClauseKind::Schedule
            ==> (#[trigger] sg[j]).kind == ClauseKind::Schedule) by {
        lemma_run_inv(paras);
        lemma_flush_inv(run(paras));
    }
    assert(forall|i: int| 0 <= i < sg.len() && (#[trigger] sg[i]).kind == ClauseKind::Clause
            ==> has_number(sg.take(i + 1))) by {
        lemma_run_inv(paras);
        lemma_flush_inv(run(paras));
    }
    assert forall|i: int| 0 <= i < sg.len() && (#[trigger] sg[i]).kind == ClauseKind::Clause
        implies exists|j: int| 0 <= j <= i && (#[trigger] sg[j]).number is Some by {
        let j = choose|j: int| 0 <= j < sg.take(i + 1).len() && (#[trigger] sg.take(i + 1)[j]).number is Some;
        assert(sg.take(i + 1)[j] == sg[j]);
    }
}

// ---------------------------------------------------------------------------
// Executable segmentation
// ---------------------------------------------------------------------------

struct Builder {
    kind: ClauseKind,
    number: Option<String>,
    depth: u8,
    heading: Option<String>,
    heading_ooxml: Option<String>,
    body: Vec<String>,
    body_ooxml: Vec<String>,
}

impl Builder {
    spec fn view_builder(&self) -> BuilderView {
        BuilderView {
            kind: self.kind,
            number: strs::opt_view(self.number),
            depth: self.depth,
            heading: strs::opt_view(self.heading),
            heading_ooxml: strs::opt_view(self.heading_ooxml),
            body: views(self.body@),
            body_ooxml: views(self.body_ooxml@),
        }
    }

    fn finish(self, seq: usize) -> (r: Option<ExtractedClause>)
        ensures
            match r {
                Some(c) => finish(self.view_builder(), seq as int) == Some(clause_view(c)),
                None => finish(self.view_builder(), seq as int) is None,
            },
    {
        let body = join_strings(&self.body, "\n");
        let trimmed = trim_chars(chars_of(body.as_str()).as_slice());
        if trimmed.len() == 0 && self.heading.is_none() {
            return None;
        }
        let meta = ClauseMetadata::default();
        let c = ExtractedClause {
            kind: self.kind,
            number: self.number,
            seq,
            depth: self.depth,
            heading: self.heading,
            term: None,
            body,
            ooxml: self.body_ooxml,
            heading_ooxml: self.heading_ooxml,
            metadata: meta,
        };
        assert(meta_view(c.metadata) == empty_meta());
        Some(c)
    }
}

spec fn opt_builder_view(b: Option<Builder>) -> Option<BuilderView> {
    match b {
        Some(b) => Some(b.view_builder()),
        None => None,
    }
}

fn flush_exec(current: &mut Option<Builder>, out: &mut Vec<ExtractedClause>)
    ensures
        ({
            let st = SplitState {
                out: clauses_view(old(out)@),
                current: opt_builder_view(*old(current)),
                in_schedule: false,
                seen_numbered: false,
                section_kind: ClauseKind::Recital,
            };
            &&& clauses_view(final(out)@) == flush(st).out
            &&& (*final(current)) is None
        }),
{
    let ghost o0 = clauses_view(out@);
    if let Some(b) = current.take() {
        let seq = out.len();
        match b.finish(seq) {
            Some(c) => {
                let ghost cv = clause_view(c);
                out.push(c);
                assert(clauses_view(out@) =~= o0.push(cv));
            },
            None => {},
        }
    }
}

fn contains_any_word(t: &[char], words: &[&str]) -> (r: bool)
    ensures
        r == mentions_one(t@, strs::str_views(words@)),
{
    let low = to_lower(t);
    let mut i: usize = 0;
    while i < words.len()
        invariant
            i <= words.len(),
            low@ == chars::lower(t@),
            forall|k: int| 0 <= k < i ==> !chars::contains(chars::lower(t@), strs::str_views(words@)[k]),
        decreases words.len() - i,
    {
        if contains_str(low.as_slice(), words[i]) {
            assert(strs::str_views(words@)[i as int] == words@[i as int]@);
            return true;
        }
        assert(strs::str_views(words@)[i as int] == words@[i as int]@);
        i += 1;
    }
    false
}

/// A heading that opens the execution (signature) part.
fn is_execution_heading(heading: &[char]) -> (r: bool)
    ensures
        r == mentions_one(heading@, execution_words()),
{
    let exec_words: [&str; 3] = ["signature", "signed", "execution"];
    assert(strs::str_views(exec_words@) =~= execution_words());
    contains_any_word(heading, &exec_words)
}

/// A heading that opens the recitals (preamble, background).
fn is_recital_heading(heading: &[char]) -> (r: bool)
    ensures
        r == mentions_one(heading@, recital_words()),
{
    let rec_words: [&str; 5] = ["recital", "preamble", "introduction", "whereas", "background"];
    assert(strs::str_views(rec_words@) =~= recital_words());
    contains_any_word(heading, &rec_words)
}

fn node_kind_exec(in_schedule: bool, heading: &[char], seen_numbered: bool) -> (r: ClauseKind)
    ensures
        r == node_kind(in_schedule, heading@, seen_numbered),
{
    if in_schedule {
        return ClauseKind::Schedule;
    }
    if is_execution_heading(heading) {
        return ClauseKind::Execution;
    }
    if is_recital_heading(heading) || !seen_numbered {
        ClauseKind::Recital
    } else {
        ClauseKind::Clause
    }
}

fn word_count_le(s: &[char], limit: usize) -> (r: bool)
    ensures
        r == (word_count(s@) <= limit),
{
    let mut count: usize = 0;
    let mut in_word = false;
    let mut i: usize = 0;
    while i < s.len()
        invariant
            i <= s.len(),
            (count as nat, in_word) == words_state(s@.take(i as int)),
            count <= limit,
        decreases s.len() - i,
    {
        assert(s@.take(i + 1).drop_last() == s@.take(i as int));
        if chars::is_ws_exec(s[i]) {
            in_word = false;
        } else if !in_word {
            if count == limit {
                proof {
                    lemma_words_monotone(s@, i + 1);
                }
                return false;
            }
            count += 1;
            in_word = true;
        }
        i += 1;
    }
    assert(s@.take(s.len() as int) == s@);
    true
}

proof fn lemma_words_monotone(s: Seq<char>, k: int)
    requires
        0 <= k <= s.len(),
    ensures
        words_state(s.take(k)).0 <= words_state(s).0,
    decreases s.len(),
{
    if k < s.len() {
        assert(s.drop_last().take(k) == s.take(k));
        lemma_words_monotone(s.drop_last(), k);
    } else {
        assert(s.take(k) == s);
    }
}

fn is_heading_text_exec(t: &[char]) -> (r: bool)
    ensures
        r == is_heading_text(t@),
{
    if !byte_len_le(t, 90) {
        return false;
    }
    if t.len() > 0 {
        let c = t[t.len() - 1];
        if c == '.' || c == ';' || c == ':' || c == ',' {
            return false;
        }
    }
    word_count_le(t, 10)
}

fn all_caps_exec(t: &[char]) -> (r: bool)
    ensures
        r == all_caps(t@),
{
    let mut any = false;
    let mut i: usize = 0;
    while i < t.len()
        invariant
            i <= t.len(),
            any == exists|k: int| 0 <= k < i && chars::alphabetic(t@[k]),
            forall|k: int| 0 <= k < i && chars::alphabetic(t@[k]) ==> chars::uppercase(t@[k]),
        decreases t.len() - i,
    {
        if is_alphabetic(t[i]) {
            if !is_uppercase(t[i]) {
                return false;
            }
            any = true;
        }
        i += 1;
    }
    any
}

fn is_unnumbered_heading_exec(t: &[char], level: Option<u8>) -> (r: bool)
    ensures
        r == is_unnumbered_heading(t@, level),
{
    if level.is_some() && byte_len_le(t, 120) {
        return true;
    }
    byte_len_le(t, 60) && all_caps_exec(t)
}

fn depth_exec(path: &[char]) -> (r: u8)
    ensures
        r == depth_of(path@),
{
    let mut n: usize = 0;
    let mut i: usize = 0;
    while i < path.len()
        invariant
            i <= path.len(),
            n == count_dots(path@.take(i as int)),
            n <= i,
        decreases path.len() - i,
    {
        assert(path@.take(i + 1).drop_last() == path@.take(i as int));
        if path[i] == '.' {
            n += 1;
        }
        i += 1;
    }
    assert(path@.take(path.len() as int) == path@);
    if n > 255 {
        255
    } else {
        n as u8
    }
}

/// Segment a parsed document into knowledge objects, in document order.
pub fn split_into_clauses(doc: &ParsedDocument) -> (r: Vec<ExtractedClause>)
    ensures
        clauses_view(r@) == segment(doc_paragraphs(*doc)),
{
    let mut out: Vec<ExtractedClause> = Vec::new();
    let mut current: Option<Builder> = None;
    let mut in_schedule = false;
    let mut seen_numbered = false;
    let mut section_kind = ClauseKind::Recital;
    let ghost paras = doc_paragraphs(*doc);
    let mut i: usize = 0;
    assert(clauses_view(out@) =~= Seq::<ClauseView>::empty());
    while i < doc.paragraphs.len()
        invariant
            i <= doc.paragraphs.len(),
            paras == doc_paragraphs(*doc),
            (SplitState {
                out: clauses_view(out@),
                current: opt_builder_view(current),
                in_schedule,
                seen_numbered,
                section_kind,
            }) == run(paras.take(i as int)),
        decreases doc.paragraphs.len() - i,
    {
        let ghost before = run(paras.take(i as int));
        assert(paras.take(i + 1).drop_last() == paras.take(i as int));
        assert(paras.take(i + 1).last() == para_view(doc.paragraphs@[i as int]));
        let para = &doc.paragraphs[i];
        let ghost ox = strs::opt_view(para.ooxml);
        let none: Vec<String> = Vec::new();
        let mut one: Vec<String> = Vec::new();
        match &para.ooxml {
            Some(x) => one.push(x.clone()),
            None => {},
        }
        assert(views(none@) =~= Seq::<Seq<char>>::empty());
        assert(views(one@) =~= opt_seq(ox));
        let text = trim_chars(chars_of(para.text.as_str()).as_slice());
        if text.len() == 0 {
            i += 1;
            continue;
        }
        if schedule_marker(text.as_slice()) && byte_len_le(text.as_slice(), 80) {
            flush_exec(&mut current, &mut out);
            in_schedule = true;
            section_kind = ClauseKind::Schedule;
            let body: Vec<String> = Vec::new();
            assert(views(body@) =~= Seq::<Seq<char>>::empty());
            current = Some(Builder {
                kind: ClauseKind::Schedule,
                number: None,
                depth: 0,
                heading: Some(string_of(text.as_slice())),
                heading_ooxml: copy_opt(&para.ooxml),
                body,
                body_ooxml: none,
            });
            i += 1;
            continue;
        }
        match split_leading_number(text.as_slice()) {
            Some((path, rest0)) => {
                let rest = trim_chars(rest0.as_slice());
                let depth = depth_exec(path.as_slice());
                flush_exec(&mut current, &mut out);
                seen_numbered = true;
                let is_heading = is_heading_text_exec(rest.as_slice());
                let kind = if is_heading {
                    node_kind_exec(in_schedule, rest.as_slice(), true)
                } else if depth == 0 {
                    let empty: Vec<char> = Vec::new();
                    node_kind_exec(in_schedule, empty.as_slice(), true)
                } else {
                    section_kind
                };
                section_kind = kind;
                let mut body: Vec<String> = Vec::new();
                let heading = if is_heading {
                    Some(string_of(rest.as_slice()))
                } else {
                    body.push(string_of(rest.as_slice()));
                    None
                };
                assert(views(body@) =~= (if is_heading { Seq::<Seq<char>>::empty() } else { seq![rest@] }));
                let (heading_ooxml, body_ooxml) = if is_heading { (copy_opt(&para.ooxml), none) } else { (None, one) };
                current = Some(Builder {
                    kind,
                    number: Some(string_of(path.as_slice())),
                    depth,
                    heading,
                    heading_ooxml,
                    body,
                    body_ooxml,
                });
            },
            None => {
                if is_unnumbered_heading_exec(text.as_slice(), para.heading_level) {
                    flush_exec(&mut current, &mut out);
                    let k = node_kind_exec(in_schedule, text.as_slice(), seen_numbered);
                    section_kind = k;
                    let body: Vec<String> = Vec::new();
                    assert(views(body@) =~= Seq::<Seq<char>>::empty());
                    current = Some(Builder {
                        kind: k,
                        number: None,
                        depth: 0,
                        heading: Some(string_of(text.as_slice())),
                        heading_ooxml: copy_opt(&para.ooxml),
                        body,
                        body_ooxml: none,
                    });
                } else {
                    match current {
                        Some(mut b) => {
                            let ghost b0 = views(b.body@);
                            let ghost x0 = views(b.body_ooxml@);
                            b.body.push(string_of(text.as_slice()));
                            assert(views(b.body@) =~= b0.push(text@));
                            match &para.ooxml {
                                Some(x) => b.body_ooxml.push(x.clone()),
                                None => {},
                            }
                            assert(views(b.body_ooxml@) =~= x0 + opt_seq(ox));
                            current = Some(b);
                        },
                        None => {
                            let mut body: Vec<String> = Vec::new();
                            body.push(string_of(text.as_slice()));
                            assert(views(body@) =~= seq![text@]);
                            current = Some(Builder {
                                kind: ClauseKind::Recital,
                                number: None,
                                depth: 0,
                                heading: None,
                                heading_ooxml: None,
                                body,
                                body_ooxml: one,
                            });
                        },
                    }
                }
            },
        }
        i += 1;
    }
    assert(paras.take(doc.paragraphs.len() as int) == paras);
    flush_exec(&mut current, &mut out);
    out
}

// ---------------------------------------------------------------------------
// Definitions
// ---------------------------------------------------------------------------

/// `s.split('\n')`: the pieces between newlines (a trailing newline leaves an
/// empty last piece).
pub open spec fn lines_state(s: Seq<char>) -> (Seq<Seq<char>>, Seq<char>)
    decreases s.len(),
{
    if s.len() == 0 {
        (Seq::empty(), Seq::empty())
    } else {
        let prev = lines_state(s.drop_last());
        if s.last() == '\n' {
            (prev.0.push(prev.1), Seq::empty())
        } else {
            (prev.0, prev.1.push(s.last()))
        }
    }
}

pub open spec fn lines(s: Seq<char>) -> Seq<Seq<char>> {
    lines_state(s).0.push(lines_state(s).1)
}

pub proof fn lemma_lines_state_join(x: Seq<char>, y: Seq<char>)
    ensures
        lines_state(x + seq!['\n'] + y) == (lines(x) + lines_state(y).0, lines_state(y).1),
    decreases y.len(),
{
    if y.len() == 0 {
        assert(x + seq!['\n'] + y =~= x.push('\n'));
        assert(x.push('\n').drop_last() =~= x);
        assert(lines(x) + Seq::<Seq<char>>::empty() =~= lines(x));
    } else {
        lemma_lines_state_join(x, y.drop_last());
        assert((x + seq!['\n'] + y).drop_last() =~= x + seq!['\n'] + y.drop_last());
        assert((x + seq!['\n'] + y).last() == y.last());
        let p = lines_state(y.drop_last());
        assert((lines(x) + p.0).push(p.1) =~= lines(x) + p.0.push(p.1));
    }
}

/// Lines on either side of a line break are the lines of each side.
pub proof fn lemma_lines_join(x: Seq<char>, y: Seq<char>)
    ensures
        lines(x + seq!['\n'] + y) == lines(x) + lines(y),
{
    lemma_lines_state_join(x, y);
    let p = lines_state(y);
    assert((lines(x) + p.0).push(p.1) =~= lines(x) + p.0.push(p.1));
}

/// Text without a line break is one line.
pub proof fn lemma_one_line(x: Seq<char>)
    requires
        !x.contains('\n'),
    ensures
        lines_state(x) == (Seq::<Seq<char>>::empty(), x),
        lines(x) == seq![x],
    decreases x.len(),
{
    if x.len() > 0 {
        assert(!x.drop_last().contains('\n')) by {
            if x.drop_last().contains('\n') {
                let k = choose|k: int| 0 <= k < x.drop_last().len() && x.drop_last()[k] == '\n';
                assert(x[k] == '\n');
            }
        }
        lemma_one_line(x.drop_last());
        assert(x[x.len() - 1] != '\n');
        assert(x.drop_last().push(x.last()) =~= x);
    } else {
        assert(x =~= Seq::<char>::empty());
    }
    assert(Seq::<Seq<char>>::empty().push(x) =~= seq![x]);
}

/// (term, defining line) pairs of one line.
pub open spec fn line_definitions(line: Seq<char>) -> Seq<(Seq<char>, Seq<char>)> {
    grammar::terms_from(line, 0).map_values(|t: Seq<char>| (chars::trim(t), chars::trim(line)))
}

pub open spec fn definitions_in_lines(ls: Seq<Seq<char>>) -> Seq<(Seq<char>, Seq<char>)>
    decreases ls.len(),
{
    if ls.len() == 0 {
        Seq::empty()
    } else {
        definitions_in_lines(ls.drop_last()) + line_definitions(ls.last())
    }
}

/// Every `"Term" means …` definition in a clause body, as (term, defining
/// line), both trimmed, in order.
pub open spec fn definitions_in(body: Seq<char>) -> Seq<(Seq<char>, Seq<char>)> {
    definitions_in_lines(lines(body))
}

pub open spec fn pairs_view(v: Seq<(String, String)>) -> Seq<(Seq<char>, Seq<char>)> {
    v.map_values(|p: (String, String)| (p.0@, p.1@))
}

pub fn split_lines(s: &[char]) -> (r: Vec<Vec<char>>)
    ensures
        r@.map_values(|l: Vec<char>| l@) == lines(s@),
{
    let mut done: Vec<Vec<char>> = Vec::new();
    let mut cur: Vec<char> = Vec::new();
    let mut i: usize = 0;
    while i < s.len()
        invariant
            i <= s.len(),
            (done@.map_values(|l: Vec<char>| l@), cur@) == lines_state(s@.take(i as int)),
        decreases s.len() - i,
    {
        assert(s@.take(i + 1).drop_last() == s@.take(i as int));
        if s[i] == '\n' {
            let ghost d0 = done@.map_values(|l: Vec<char>| l@);
            let ghost c0 = cur@;
            let finished = cur;
            done.push(finished);
            assert(done@.map_values(|l: Vec<char>| l@) =~= d0.push(c0));
            cur = Vec::new();
        } else {
            cur.push(s[i]);
        }
        i += 1;
    }
    assert(s@.take(s.len() as int) == s@);
    let ghost d0 = done@.map_values(|l: Vec<char>| l@);
    let ghost c0 = cur@;
    done.push(cur);
    assert(done@.map_values(|l: Vec<char>| l@) =~= d0.push(c0));
    done
}

/// Find `"Term" means …` definitions inside a clause body: (term, defining
/// line) pairs, both trimmed.
pub fn find_definitions(body: &str) -> (r: Vec<(String, String)>)
    ensures
        pairs_view(r@) == definitions_in(body@),
{
    let ls = split_lines(chars_of(body).as_slice());
    let ghost lv = ls@.map_values(|l: Vec<char>| l@);
    let mut out: Vec<(String, String)> = Vec::new();
    let mut i: usize = 0;
    while i < ls.len()
        invariant
            i <= ls.len(),
            lv == ls@.map_values(|l: Vec<char>| l@),
            lv == lines(body@),
            pairs_view(out@) == definitions_in_lines(lv.take(i as int)),
        decreases ls.len() - i,
    {
        assert(lv.take(i + 1).drop_last() == lv.take(i as int));
        assert(lv.take(i + 1).last() == ls@[i as int]@);
        let line = ls[i].as_slice();
        let terms = definition_terms(line);
        let trimmed_line = trim_chars(line);
        let ghost tv = terms@.map_values(|t: Vec<char>| t@);
        let ghost o0 = pairs_view(out@);
        let mut j: usize = 0;
        while j < terms.len()
            invariant
                j <= terms.len(),
                tv == terms@.map_values(|t: Vec<char>| t@),
                tv == grammar::terms_from(line@, 0),
                trimmed_line@ == chars::trim(line@),
                pairs_view(out@) == o0 + line_definitions(line@).take(j as int),
            decreases terms.len() - j,
        {
            let ghost before = pairs_view(out@);
            let term = trim_chars(terms[j].as_slice());
            let pair = (string_of(term.as_slice()), string_of(trimmed_line.as_slice()));
            out.push(pair);
            assert(line_definitions(line@)[j as int] == (chars::trim(tv[j as int]), chars::trim(line@)));
            assert(pairs_view(out@) =~= before.push(line_definitions(line@)[j as int]));
            assert(line_definitions(line@).take(j + 1) =~= line_definitions(line@).take(j as int).push(line_definitions(line@)[j as int]));
            j += 1;
        }
        assert(line_definitions(line@).take(terms.len() as int) =~= line_definitions(line@));
        i += 1;
    }
    assert(lv.take(ls.len() as int) == lv);
    out
}

} // verus!
