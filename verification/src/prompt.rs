//! The prompt compiler: the only producer of completion requests for
//! drafting tasks. Each task is a template, the retrieved context, shared
//! guardrails and an output contract. Tasks whose output is spliced into a
//! document must return LIR blocks, never free prose; chat and explanation
//! tasks return text.

use vstd::prelude::*;
use crate::chars::{self, chars_of, string_of, push_str, trim_chars, slice_of, starts_with_str};
use crate::strs::{self, owned, views, opt_view};
use crate::lir::{Party, Block, Run};
use crate::models::{ChatMessage, CompletionRequest, Role};
use crate::matter::PrecedentClause;
use crate::num::{decimal, decimal_string};
use crate::xml::{last_of, rfind};

verus! {

/// The rules every drafting-adjacent task carries.
pub open spec fn guardrails() -> Seq<char> {
    "You are the language layer of DraftOS, a legal drafting system. Rules you must never break:\n1. You do not draft new legal content. You only adapt, rewrite, explain or summarize the precedent text you are given.\n2. Never invent obligations, amounts, dates or party names that are not in the input.\n3. Preserve defined terms exactly as capitalised (e.g. \"Confidential Information\").\n4. Never add clause numbers or cross-references — numbering is assigned by the system.\n5. Jurisdiction-specific statements must come from the provided precedent, not memory."@
}

/// The JSON contract for tasks whose output is spliced into a document.
pub open spec fn block_schema() -> Seq<char> {
    "Output a single JSON array of block objects, nothing else. Block shapes:\n  {\"type\":\"paragraph\",\"runs\":[{\"text\":\"...\",\"style\":\"normal\"|\"bold\"|\"italic\"}]}\n  {\"type\":\"list\",\"ordered\":true|false,\"items\":[[<block>,...],...]}\n  {\"type\":\"variable\",\"name\":\"snake_case_name\",\"label\":\"Human label\",\"value\":null}\nUse a \"variable\" block for any value the user must still supply. Do not wrap the array in an object or markdown fences."@
}

fn guardrails_text() -> (r: &'static str)
    ensures
        r@ == guardrails(),
{
    "You are the language layer of DraftOS, a legal drafting system. Rules you must never break:\n1. You do not draft new legal content. You only adapt, rewrite, explain or summarize the precedent text you are given.\n2. Never invent obligations, amounts, dates or party names that are not in the input.\n3. Preserve defined terms exactly as capitalised (e.g. \"Confidential Information\").\n4. Never add clause numbers or cross-references — numbering is assigned by the system.\n5. Jurisdiction-specific statements must come from the provided precedent, not memory."
}

fn block_schema_text() -> (r: &'static str)
    ensures
        r@ == block_schema(),
{
    "Output a single JSON array of block objects, nothing else. Block shapes:\n  {\"type\":\"paragraph\",\"runs\":[{\"text\":\"...\",\"style\":\"normal\"|\"bold\"|\"italic\"}]}\n  {\"type\":\"list\",\"ordered\":true|false,\"items\":[[<block>,...],...]}\n  {\"type\":\"variable\",\"name\":\"snake_case_name\",\"label\":\"Human label\",\"value\":null}\nUse a \"variable\" block for any value the user must still supply. Do not wrap the array in an object or markdown fences."
}

// ---------------------------------------------------------------------------
// Adapting a clause
// ---------------------------------------------------------------------------

pub open spec fn party_lines(ps: Seq<Party>) -> Seq<char>
    decreases ps.len(),
{
    if ps.len() == 0 {
        Seq::empty()
    } else {
        party_lines(ps.drop_last()) + "- "@ + ps.last().role@ + " = \""@ + ps.last().name@ + "\"\n"@
    }
}

/// The context of an adaptation: who the parties are and which defined terms
/// must be preserved.
pub open spec fn adapt_context(ps: Seq<Party>, terms: Seq<Seq<char>>) -> Seq<char> {
    (if ps.len() > 0 { "Parties to this agreement:\n"@ + party_lines(ps) } else { Seq::empty() })
        + (if terms.len() > 0 {
            "Defined terms in force (preserve exactly): "@ + strs::join(terms, ", "@) + "\n"@
        } else {
            Seq::empty()
        })
}

pub open spec fn adapt_prompt(heading: Seq<char>, body: Seq<char>, instructions: Seq<char>, ps: Seq<Party>,
    terms: Seq<Seq<char>>) -> Seq<char>
{
    "Adapt the clause below.\n\nInstructions: "@ + instructions + "\n\n"@ + adapt_context(ps, terms)
        + "\nClause heading: "@ + heading + "\nClause body:\n"@ + body + "\n\n"@ + block_schema()
}

/// A request of a system message (the guardrails or another text) and a user
/// message.
pub open spec fn request_is(r: CompletionRequest, system: Seq<char>, user: Seq<char>, max_tokens: u32, json: bool) -> bool {
    &&& r.messages@.len() == 2
    &&& r.messages@[0].role == Role::System && r.messages@[0].content@ == system
    &&& r.messages@[1].role == Role::User && r.messages@[1].content@ == user
    &&& r.max_tokens == max_tokens
    &&& r.json == json
}

fn request(system: &str, user: &str, max_tokens: u32, json: bool) -> (r: CompletionRequest)
    ensures
        request_is(r, system@, user@, max_tokens, json),
{
    let mut messages: Vec<ChatMessage> = Vec::new();
    messages.push(ChatMessage::system(system));
    messages.push(ChatMessage::user(user));
    CompletionRequest { messages, max_tokens, json }
}

/// Compile a clause-adaptation task: the model rewrites one clause body
/// under `instructions` (party names, tone, plain language) and answers with
/// LIR blocks as JSON.
pub fn adapt_clause(heading: &str, body_text: &str, instructions: &str, parties: &[Party],
    defined_terms: &[String]) -> (r: CompletionRequest)
    ensures
        request_is(r, guardrails(), adapt_prompt(heading@, body_text@, instructions@, parties@, views(defined_terms@)),
            4096, true),
{
    let mut context = String::new();
    if parties.len() > 0 {
        push_str(&mut context, "Parties to this agreement:\n");
        let ghost c0 = context@;
        let mut i: usize = 0;
        while i < parties.len()
            invariant
                i <= parties.len(),
                context@ == c0 + party_lines(parties@.take(i as int)),
            decreases parties.len() - i,
        {
            assert(parties@.take(i + 1).drop_last() == parties@.take(i as int));
            push_str(&mut context, "- ");
            push_str(&mut context, parties[i].role.as_str());
            push_str(&mut context, " = \"");
            push_str(&mut context, parties[i].name.as_str());
            push_str(&mut context, "\"\n");
            i += 1;
        }
        assert(parties@.take(parties.len() as int) == parties@);
    }
    if defined_terms.len() > 0 {
        push_str(&mut context, "Defined terms in force (preserve exactly): ");
        let terms = strs::copy_all(defined_terms);
        let joined = strs::join_strings(&terms, ", ");
        push_str(&mut context, joined.as_str());
        push_str(&mut context, "\n");
    }
    assert(context@ =~= adapt_context(parties@, views(defined_terms@)));
    let mut user = owned("Adapt the clause below.\n\nInstructions: ");
    push_str(&mut user, instructions);
    push_str(&mut user, "\n\n");
    push_str(&mut user, context.as_str());
    push_str(&mut user, "\nClause heading: ");
    push_str(&mut user, heading);
    push_str(&mut user, "\nClause body:\n");
    push_str(&mut user, body_text);
    push_str(&mut user, "\n\n");
    push_str(&mut user, block_schema_text());
    request(guardrails_text(), user.as_str(), 4096, true)
}

// ---------------------------------------------------------------------------
// Questions and explanations
// ---------------------------------------------------------------------------

/// How an extract is titled: its defined term, else its heading, else
/// "(untitled)".
pub open spec fn extract_title(h: PrecedentClause) -> Seq<char> {
    match h.term {
        Some(t) => t@,
        None => match h.heading {
            Some(x) => x@,
            None => "(untitled)"@,
        },
    }
}

/// The numbered extracts a question is to be answered from.
pub open spec fn extracts(hs: Seq<PrecedentClause>) -> Seq<char>
    decreases hs.len(),
{
    if hs.len() == 0 {
        Seq::empty()
    } else {
        let h = hs.last();
        extracts(hs.drop_last()) + "["@ + decimal(hs.len()) + "] "@ + extract_title(h) + " \u{2014} source: "@
            + h.source_name@ + " / "@ + h.file@ + "\n"@ + chars::trim(h.body@) + "\n\n"@
    }
}

pub open spec fn ask_system(hs: Seq<PrecedentClause>) -> Seq<char> {
    guardrails() + "\n\nAnswer the user's question using ONLY the numbered extracts below. Cite extracts as [n]. If the extracts do not answer the question, say so — do not answer from general knowledge.\n\nExtracts:\n"@ + extracts(hs)
}

/// Compile a question scoped to retrieved knowledge: the model is to answer
/// from the numbered extracts only, citing them, and to say so when they do
/// not answer it. Free text is allowed (chat, never document content).
pub fn ask(question: &str, context: &[PrecedentClause]) -> (r: CompletionRequest)
    requires
        context@.len() < usize::MAX,
    ensures
        request_is(r, ask_system(context@), question@, 2048, false),
{
    let mut ctx = String::new();
    let mut i: usize = 0;
    while i < context.len()
        invariant
            i <= context@.len() < usize::MAX,
            ctx@ == extracts(context@.take(i as int)),
        decreases context.len() - i,
    {
        assert(context@.take(i + 1).drop_last() == context@.take(i as int));
        let h = &context[i];
        let title = match &h.term {
            Some(t) => t.clone(),
            None => match &h.heading {
                Some(x) => x.clone(),
                None => owned("(untitled)"),
            },
        };
        push_str(&mut ctx, "[");
        let n = decimal_string(i + 1);
        push_str(&mut ctx, n.as_str());
        push_str(&mut ctx, "] ");
        push_str(&mut ctx, title.as_str());
        push_str(&mut ctx, " \u{2014} source: ");
        push_str(&mut ctx, h.source_name.as_str());
        push_str(&mut ctx, " / ");
        push_str(&mut ctx, h.file.as_str());
        push_str(&mut ctx, "\n");
        let body = trim_chars(chars_of(h.body.as_str()).as_slice());
        chars::push_all(&mut ctx, body.as_slice());
        push_str(&mut ctx, "\n\n");
        i += 1;
    }
    assert(context@.take(context.len() as int) == context@);
    let mut system = owned(guardrails_text());
    push_str(&mut system, "\n\nAnswer the user's question using ONLY the numbered extracts below. Cite extracts as [n]. If the extracts do not answer the question, say so — do not answer from general knowledge.\n\nExtracts:\n");
    push_str(&mut system, ctx.as_str());
    request(system.as_str(), question, 2048, false)
}

pub open spec fn explain_prompt(heading: Seq<char>, body: Seq<char>) -> Seq<char> {
    "Explain the following contract clause in plain language: what it does, who it protects, and what a signer should watch out for. Do not give legal advice.\n\nHeading: "@ + heading + "\nBody:\n"@ + body
}

/// Compile an explain-this-clause task (a plain-language explanation, free
/// text).
pub fn explain(heading: &str, body_text: &str) -> (r: CompletionRequest)
    ensures
        request_is(r, guardrails(), explain_prompt(heading@, body_text@), 1024, false),
{
    let mut user = owned("Explain the following contract clause in plain language: what it does, who it protects, and what a signer should watch out for. Do not give legal advice.\n\nHeading: ");
    push_str(&mut user, heading);
    push_str(&mut user, "\nBody:\n");
    push_str(&mut user, body_text);
    request(guardrails_text(), user.as_str(), 1024, false)
}

// ---------------------------------------------------------------------------
// Checking a model's blocks
// ---------------------------------------------------------------------------

/// Every run of a paragraph is blank.
pub open spec fn all_blank(runs: Seq<Run>) -> bool {
    forall|i: int| 0 <= i < runs.len() ==> chars::trim(#[trigger] runs[i].text@).len() == 0
}

/// The first fault in a block, depth first: a paragraph with no text, or a
/// variable without a name.
pub open spec fn block_fault(b: Block) -> Option<Seq<char>>
    decreases b,
{
    match b {
        Block::Paragraph { runs } => if all_blank(runs@) { Some("paragraph block with no text"@) } else { None },
        Block::Variable { name, .. } => if chars::trim(name@).len() == 0 { Some("variable block without a name"@) } else { None },
        Block::List { items, .. } => groups_fault(items@),
        Block::Table { rows } => rows_fault(rows@),
    }
}

pub open spec fn blocks_fault(bs: Seq<Block>) -> Option<Seq<char>>
    decreases bs,
{
    if bs.len() == 0 {
        None
    } else {
        match blocks_fault(bs.drop_last()) {
            Some(e) => Some(e),
            None => block_fault(bs.last()),
        }
    }
}

pub open spec fn groups_fault(gs: Seq<Vec<Block>>) -> Option<Seq<char>>
    decreases gs,
{
    if gs.len() == 0 {
        None
    } else {
        match groups_fault(gs.drop_last()) {
            Some(e) => Some(e),
            None => blocks_fault(gs.last()@),
        }
    }
}

pub open spec fn rows_fault(rs: Seq<Vec<Vec<Block>>>) -> Option<Seq<char>>
    decreases rs,
{
    if rs.len() == 0 {
        None
    } else {
        match rows_fault(rs.drop_last()) {
            Some(e) => Some(e),
            None => groups_fault(rs.last()@),
        }
    }
}

/// Check one block a model produced: every paragraph has text and every
/// variable a name, nested blocks included; the first fault found is the
/// error.
pub fn validate_block(b: &Block) -> (r: Result<(), String>)
    ensures
        match r {
            Ok(()) => block_fault(*b) is None,
            Err(e) => block_fault(*b) == Some(e@),
        },
    decreases *b,
{
    match b {
        Block::Paragraph { runs } => {
            let mut i: usize = 0;
            while i < runs.len()
                invariant
                    i <= runs.len(),
                    *b matches Block::Paragraph { runs: rs } && rs == *runs,
                    forall|k: int| 0 <= k < i ==> chars::trim(#[trigger] runs@[k].text@).len() == 0,
                decreases runs.len() - i,
            {
                let t = trim_chars(chars_of(runs[i].text.as_str()).as_slice());
                if t.len() > 0 {
                    assert(!all_blank(runs@)) by {
                        assert(chars::trim(runs@[i as int].text@).len() > 0);
                    }
                    return Ok(());
                }
                i += 1;
            }
            Err(owned("paragraph block with no text"))
        },
        Block::Variable { name, .. } => {
            let t = trim_chars(chars_of(name.as_str()).as_slice());
            if t.len() == 0 { Err(owned("variable block without a name")) } else { Ok(()) }
        },
        Block::List { items, .. } => {
            let mut i: usize = 0;
            while i < items.len()
                invariant
                    i <= items.len(),
                    *b matches Block::List { items: its, .. } && its == *items,
                    groups_fault(items@.take(i as int)) is None,
                decreases items.len() - i,
            {
                assert(items@.take(i + 1).drop_last() == items@.take(i as int));
                let item = &items[i];
                let mut k: usize = 0;
                while k < item.len()
                    invariant
                        k <= item.len(),
                        i < items@.len(),
                        *item == items@[i as int],
                        *b matches Block::List { items: its, .. } && its == *items,
                        groups_fault(items@.take(i as int)) is None,
                        blocks_fault(item@.take(k as int)) is None,
                    decreases item.len() - k,
                {
                    assert(item@.take(k + 1).drop_last() == item@.take(k as int));
                    assert(decreases_to!(*b => item@[k as int])) by {
                        assert(decreases_to!(*b => *items));
                        assert(decreases_to!(*items => items@));
                        assert(decreases_to!(items@ => items@[i as int]));
                        assert(decreases_to!(items@[i as int] => items@[i as int]@));
                        assert(decreases_to!(items@[i as int]@ => items@[i as int]@[k as int]));
                    }
                    match validate_block(&item[k]) {
                        Ok(()) => {},
                        Err(e) => {
                            assert(blocks_fault(item@.take(k + 1)) == Some(e@));
                            proof {
                                lemma_blocks_fault_prefix(item@, k + 1);
                            }
                            assert(items@.take(i + 1).drop_last() == items@.take(i as int));
                            assert(items@.take(i + 1).last() == items@[i as int]);
                            assert(groups_fault(items@.take(i + 1)) == Some(e@));
                            proof {
                                lemma_groups_fault_prefix(items@, i + 1);
                            }
                            return Err(e);
                        },
                    }
                    k += 1;
                }
                assert(item@.take(item.len() as int) == item@);
                i += 1;
            }
            assert(items@.take(items.len() as int) == items@);
            Ok(())
        },
        Block::Table { rows } => {
            let mut i: usize = 0;
            while i < rows.len()
                invariant
                    i <= rows.len(),
                    *b matches Block::Table { rows: rs } && rs == *rows,
                    rows_fault(rows@.take(i as int)) is None,
                decreases rows.len() - i,
            {
                assert(rows@.take(i + 1).drop_last() == rows@.take(i as int));
                let row = &rows[i];
                let mut j: usize = 0;
                while j < row.len()
                    invariant
                        j <= row.len(),
                        i < rows@.len(),
                        *row == rows@[i as int],
                        *b matches Block::Table { rows: rs } && rs == *rows,
                        rows_fault(rows@.take(i as int)) is None,
                        groups_fault(row@.take(j as int)) is None,
                    decreases row.len() - j,
                {
                    assert(row@.take(j + 1).drop_last() == row@.take(j as int));
                    let cell = &row[j];
                    let mut k: usize = 0;
                    while k < cell.len()
                        invariant
                            k <= cell.len(),
                            i < rows@.len(),
                            j < row@.len(),
                            *row == rows@[i as int],
                            *cell == row@[j as int],
                            *b matches Block::Table { rows: rs } && rs == *rows,
                            rows_fault(rows@.take(i as int)) is None,
                            groups_fault(row@.take(j as int)) is None,
                            blocks_fault(cell@.take(k as int)) is None,
                        decreases cell.len() - k,
                    {
                        assert(cell@.take(k + 1).drop_last() == cell@.take(k as int));
                        assert(decreases_to!(*b => cell@[k as int])) by {
                            assert(decreases_to!(*b => *rows));
                            assert(decreases_to!(*rows => rows@));
                            assert(decreases_to!(rows@ => rows@[i as int]));
                            assert(decreases_to!(rows@[i as int] => rows@[i as int]@));
                            assert(decreases_to!(rows@[i as int]@ => rows@[i as int]@[j as int]));
                            assert(decreases_to!(rows@[i as int]@[j as int] => rows@[i as int]@[j as int]@));
                            assert(decreases_to!(rows@[i as int]@[j as int]@ => rows@[i as int]@[j as int]@[k as int]));
                        }
                        match validate_block(&cell[k]) {
                            Ok(()) => {},
                            Err(e) => {
                                assert(blocks_fault(cell@.take(k + 1)) == Some(e@));
                                proof {
                                    lemma_blocks_fault_prefix(cell@, k + 1);
                                }
                                assert(row@.take(j + 1).drop_last() == row@.take(j as int));
                                assert(row@.take(j + 1).last() == row@[j as int]);
                                assert(groups_fault(row@.take(j + 1)) == Some(e@));
                                proof {
                                    lemma_groups_fault_prefix(row@, j + 1);
                                }
                                assert(rows@.take(i + 1).drop_last() == rows@.take(i as int));
                                assert(rows@.take(i + 1).last() == rows@[i as int]);
                                assert(rows_fault(rows@.take(i + 1)) == Some(e@));
                                proof {
                                    lemma_rows_fault_prefix(rows@, i + 1);
                                }
                                return Err(e);
                            },
                        }
                        k += 1;
                    }
                    assert(cell@.take(cell.len() as int) == cell@);
                    j += 1;
                }
                assert(row@.take(row.len() as int) == row@);
                i += 1;
            }
            assert(rows@.take(rows.len() as int) == rows@);
            Ok(())
        },
    }
}

proof fn lemma_blocks_fault_prefix(bs: Seq<Block>, n: int)
    requires
        0 <= n <= bs.len(),
        blocks_fault(bs.take(n)) is Some,
    ensures
        blocks_fault(bs) == blocks_fault(bs.take(n)),
    decreases bs.len() - n,
{
    if n < bs.len() {
        assert(bs.take(n + 1).drop_last() == bs.take(n));
        lemma_blocks_fault_prefix(bs, n + 1);
    } else {
        assert(bs.take(n) == bs);
    }
}

proof fn lemma_groups_fault_prefix(gs: Seq<Vec<Block>>, n: int)
    requires
        0 <= n <= gs.len(),
        groups_fault(gs.take(n)) is Some,
    ensures
        groups_fault(gs) == groups_fault(gs.take(n)),
    decreases gs.len() - n,
{
    if n < gs.len() {
        assert(gs.take(n + 1).drop_last() == gs.take(n));
        lemma_groups_fault_prefix(gs, n + 1);
    } else {
        assert(gs.take(n) == gs);
    }
}

proof fn lemma_rows_fault_prefix(rs: Seq<Vec<Vec<Block>>>, n: int)
    requires
        0 <= n <= rs.len(),
        rows_fault(rs.take(n)) is Some,
    ensures
        rows_fault(rs) == rows_fault(rs.take(n)),
    decreases rs.len() - n,
{
    if n < rs.len() {
        assert(rs.take(n + 1).drop_last() == rs.take(n));
        lemma_rows_fault_prefix(rs, n + 1);
    } else {
        assert(rs.take(n) == rs);
    }
}

pub open spec fn fence() -> Seq<char> {
    seq!['`', '`', '`']
}

/// A model's answer without the ```json … ``` fence it may have added anyway.
pub open spec fn unfenced(raw: Seq<char>) -> Seq<char> {
    let t = chars::trim(raw);
    if chars::starts_with(t, fence()) {
        let rest = t.skip(3);
        let rest2 = if chars::starts_with(rest, seq!['j', 's', 'o', 'n']) { rest.skip(4) } else { rest };
        let e = last_of(rest2, fence());
        if e >= 0 { chars::trim(rest2.take(e)) } else { t }
    } else {
        t
    }
}

/// Strip a ```json … ``` fence if the model added one anyway.
pub fn strip_fences(raw: &str) -> (r: String)
    ensures
        r@ == unfenced(raw@),
{
    let t = trim_chars(chars_of(raw).as_slice());
    let f: Vec<char> = vec!['`', '`', '`'];
    assert(f@ =~= fence());
    if chars::starts_with_chars(t.as_slice(), f.as_slice()) {
        let rest = slice_of(t.as_slice(), 3, t.len());
        assert(rest@ == t@.skip(3));
        let js: Vec<char> = vec!['j', 's', 'o', 'n'];
        assert(js@ =~= seq!['j', 's', 'o', 'n']);
        let rest2 = if chars::starts_with_chars(rest.as_slice(), js.as_slice()) {
            let r2 = slice_of(rest.as_slice(), 4, rest.len());
            assert(r2@ == rest@.skip(4));
            r2
        } else {
            rest
        };
        match rfind(rest2.as_slice(), f.as_slice()) {
            Some(e) => {
                let inner = slice_of(rest2.as_slice(), 0, e);
                assert(inner@ == rest2@.take(e as int));
                return string_of(trim_chars(inner.as_slice()).as_slice());
            },
            None => {},
        }
    }
    string_of(t.as_slice())
}

} // verus!
