//! Plain text → paragraphs (shared by the TXT and PDF parsers).
//!
//! Legal documents often put one clause per line with no blank line between
//! them, so a line starts a new paragraph when it looks like a new block (a
//! clause number, a heading, a schedule marker, a defined term) or when the
//! previous line ended a sentence. Genuine hard wrapping, which breaks
//! mid-sentence, still joins.

use vstd::prelude::*;
use crate::chars::{self, chars_of, string_of, trim_chars, byte_len_le, squash_chars, to_lower, starts_with_str};
use crate::strs::{self, views};
use crate::model::Paragraph;
use crate::split::{self, all_caps};
use crate::words::{words_of, words_state};

verus! {

pub open spec fn short_all_caps(line: Seq<char>) -> bool {
    chars::byte_len(line) <= 80 && all_caps(line)
}

pub open spec fn schedule_prefixes() -> Seq<Seq<char>> {
    seq!["schedule"@, "annexure"@, "annex "@, "appendix"@, "exhibit"@]
}

/// The ASCII-lowercased line opens with a schedule-like word.
pub open spec fn opens_schedule(line: Seq<char>) -> bool {
    exists|i: int| 0 <= i < schedule_prefixes().len() && chars::starts_with(chars::lower(line), schedule_prefixes()[i])
}

/// A line opens a schedule when, ASCII-lowercased, it starts with
/// "schedule", "annexure", "annex ", "appendix" or "exhibit"; it is a short
/// all-capitals line when it is at most 80 bytes and all capitals.
pub proof fn lemma_schedule_openers(line: Seq<char>)
    ensures
        opens_schedule(line) == ({
            let l = chars::lower(line);
            chars::starts_with(l, "schedule"@) || chars::starts_with(l, "annexure"@) || chars::starts_with(l, "annex "@)
                || chars::starts_with(l, "appendix"@) || chars::starts_with(l, "exhibit"@)
        }),
        short_all_caps(line) == (chars::byte_len(line) <= 80 && all_caps(line)),
{
    let w = schedule_prefixes();
    assert(w[0] == "schedule"@ && w[1] == "annexure"@ && w[2] == "annex "@ && w[3] == "appendix"@ && w[4] == "exhibit"@);
    if opens_schedule(line) {
        let i = choose|i: int| 0 <= i < w.len() && chars::starts_with(chars::lower(line), w[i]);
        assert(0 <= i < 5);
    }
}

/// A heading or schedule marker: a block on its own line, so the following
/// line starts a new paragraph.
pub open spec fn is_standalone_line(line: Seq<char>) -> bool {
    if line.len() > 0 && (line.last() == ',' || line.last() == ';') {
        false
    } else {
        short_all_caps(line) || (chars::byte_len(line) <= 80 && opens_schedule(line))
    }
}

pub open spec fn is_number_head(c: char) -> bool {
    chars::is_digit(c) || c == '.'
}

pub open spec fn number_heads() -> spec_fn(char) -> bool {
    |c: char| is_number_head(c)
}

/// "12 ", "12. ", "12.3 ", "4)": digits (and dots) followed by whitespace or ")".
pub open spec fn is_numbered(line: Seq<char>) -> bool {
    line.len() > 0 && chars::is_digit(line[0]) && {
        let h = crate::grammar::run_while(line, 0, number_heads());
        h < line.len() && (chars::is_ws(line[h as int]) || line[h as int] == ')')
    }
}

/// Whether a line begins a new structural unit.
pub open spec fn starts_new_block(line: Seq<char>) -> bool {
    is_numbered(line) || short_all_caps(line) || opens_schedule(line)
        || (line.len() > 0 && (line[0] == '"' || line[0] == '\u{201C}'))
}

pub open spec fn ends_sentence(line: Seq<char>) -> bool {
    line.len() > 0 && (line.last() == '.' || line.last() == ';' || line.last() == ':'
        || line.last() == '!' || line.last() == '?')
}

/// Paragraphs so far and the lines of the paragraph being gathered.
pub struct GatherState {
    pub out: Seq<Seq<char>>,
    pub current: Seq<Seq<char>>,
}

pub open spec fn close(st: GatherState) -> GatherState {
    if st.current.len() == 0 {
        st
    } else {
        let text = chars::squash(strs::join(st.current, " "@));
        GatherState {
            out: if text.len() > 0 { st.out.push(text) } else { st.out },
            current: Seq::empty(),
        }
    }
}

pub open spec fn gather_line(st: GatherState, raw: Seq<char>) -> GatherState {
    let t = chars::trim(raw);
    if t.len() == 0 {
        close(st)
    } else {
        let previous_ended = st.current.len() > 0 && ends_sentence(st.current.last());
        let s1 = if previous_ended || starts_new_block(t) { close(st) } else { st };
        let s2 = GatherState { current: s1.current.push(t), ..s1 };
        if is_standalone_line(t) { close(s2) } else { s2 }
    }
}

pub open spec fn gather(ls: Seq<Seq<char>>) -> GatherState
    decreases ls.len(),
{
    if ls.len() == 0 {
        GatherState { out: Seq::empty(), current: Seq::empty() }
    } else {
        gather_line(gather(ls.drop_last()), ls.last())
    }
}

/// The paragraph texts of a plain-text document. Lines are the pieces between
/// newlines; the ways `str::lines` differs from that (a stripped `\r`, no empty
/// final piece) vanish under trimming and the closing step.
pub open spec fn plain_paragraphs(text: Seq<char>) -> Seq<Seq<char>> {
    close(gather(split::lines(text))).out
}

// ---------------------------------------------------------------------------
// Laws
// ---------------------------------------------------------------------------

/// `a` is a prefix of `b`.
pub open spec fn prefix_of(a: Seq<Seq<char>>, b: Seq<Seq<char>>) -> bool {
    a.len() <= b.len() && b.take(a.len() as int) == a
}

proof fn lemma_prefix_trans(a: Seq<Seq<char>>, b: Seq<Seq<char>>, c: Seq<Seq<char>>)
    requires
        prefix_of(a, b),
        prefix_of(b, c),
    ensures
        prefix_of(a, c),
{
    assert(c.take(a.len() as int) =~= c.take(b.len() as int).take(a.len() as int));
}

proof fn lemma_close_grows(st: GatherState)
    ensures
        prefix_of(st.out, close(st).out),
{
    assert(close(st).out.take(st.out.len() as int) =~= st.out);
}

proof fn lemma_gather_line_grows(st: GatherState, raw: Seq<char>)
    ensures
        prefix_of(st.out, gather_line(st, raw).out),
{
    let t = chars::trim(raw);
    lemma_close_grows(st);
    if t.len() > 0 {
        let previous_ended = st.current.len() > 0 && ends_sentence(st.current.last());
        let s1 = if previous_ended || starts_new_block(t) { close(st) } else { st };
        let s2 = GatherState { current: s1.current.push(t), ..s1 };
        assert(prefix_of(st.out, s1.out)) by {
            assert(st.out.take(st.out.len() as int) =~= st.out);
        }
        lemma_close_grows(s2);
        lemma_prefix_trans(st.out, s2.out, close(s2).out);
    }
}

proof fn lemma_gather_grows(ls: Seq<Seq<char>>, n: int)
    requires
        0 <= n <= ls.len(),
    ensures
        prefix_of(gather(ls.take(n)).out, gather(ls).out),
    decreases ls.len() - n,
{
    if n == ls.len() {
        assert(ls.take(n) == ls);
        assert(gather(ls).out.take(gather(ls).out.len() as int) =~= gather(ls).out);
    } else {
        lemma_gather_grows(ls, n + 1);
        assert(ls.take(n + 1).drop_last() == ls.take(n));
        lemma_gather_line_grows(gather(ls.take(n)), ls[n]);
        lemma_prefix_trans(gather(ls.take(n)).out, gather(ls.take(n + 1)).out, gather(ls).out);
    }
}

/// A heading or schedule marker on a line of its own (short, all capitals
/// or opening with a schedule word, not ending in a comma or semicolon)
/// becomes a paragraph of its own: the line, trimmed and whitespace
/// normalised, is one of the paragraphs.
pub proof fn lemma_standalone_line_is_a_paragraph(text: Seq<char>, k: int)
    requires
        0 <= k < split::lines(text).len(),
        is_standalone_line(chars::trim(split::lines(text)[k])),
        chars::squash(chars::trim(split::lines(text)[k])).len() > 0,
    ensures
        plain_paragraphs(text).contains(chars::squash(chars::trim(split::lines(text)[k]))),
{
    let ls = split::lines(text);
    let t = chars::trim(ls[k]);
    let st = gather(ls.take(k));
    assert(ls.take(k + 1).drop_last() == ls.take(k));
    assert(ls.take(k + 1).last() == ls[k]);
    let after = gather(ls.take(k + 1));
    assert(short_all_caps(t) || opens_schedule(t));
    assert(starts_new_block(t));
    let s1 = close(st);
    assert(s1.current.len() == 0);
    let s2 = GatherState { current: s1.current.push(t), ..s1 };
    assert(s2.current =~= seq![t]);
    assert(strs::join(s2.current, " "@) == t);
    assert(after == close(s2));
    let p = chars::squash(t);
    assert(after.out == s1.out.push(p));
    lemma_gather_grows(ls, k + 1);
    lemma_close_grows(gather(ls));
    lemma_prefix_trans(after.out, gather(ls).out, close(gather(ls)).out);
    let all = plain_paragraphs(text);
    assert(all.take(after.out.len() as int) == after.out);
    assert(all[s1.out.len() as int] == after.out[s1.out.len() as int]);
}

/// The words of each text, one text after the other.
pub open spec fn all_words(ps: Seq<Seq<char>>) -> Seq<Seq<char>>
    decreases ps.len(),
{
    if ps.len() == 0 {
        Seq::empty()
    } else {
        all_words(ps.drop_last()) + words_of(ps.last())
    }
}

proof fn lemma_words_ws_end(a: Seq<char>)
    requires
        a.len() > 0 && chars::is_ws(a.last()),
    ensures
        words_state(a).1.len() == 0,
        words_of(a) == words_state(a).0,
{
}

/// Words of a text after one ending in whitespace (or empty) simply follow.
proof fn lemma_words_concat(a: Seq<char>, b: Seq<char>)
    requires
        a.len() == 0 || chars::is_ws(a.last()),
    ensures
        words_state(a + b) == (words_of(a) + words_state(b).0, words_state(b).1),
        words_of(a + b) == words_of(a) + words_of(b),
    decreases b.len(),
{
    if b.len() == 0 {
        assert(a + b =~= a);
        if a.len() > 0 {
            lemma_words_ws_end(a);
        }
        assert(words_of(a) + Seq::<Seq<char>>::empty() =~= words_of(a));
    } else {
        lemma_words_concat(a, b.drop_last());
        assert((a + b).drop_last() =~= a + b.drop_last());
        assert((a + b).last() == b.last());
        let p = words_state(b.drop_last());
        if chars::is_ws(b.last()) {
            if p.1.len() > 0 {
                assert((words_of(a) + p.0).push(p.1) =~= words_of(a) + p.0.push(p.1));
            }
        }
        let sb = words_state(b);
        if sb.1.len() > 0 {
            assert((words_of(a) + sb.0).push(sb.1) =~= words_of(a) + sb.0.push(sb.1));
        }
    }
}

proof fn lemma_words_push_ws(a: Seq<char>, c: char)
    requires
        chars::is_ws(c),
    ensures
        words_of(a.push(c)) == words_of(a),
{
    assert(a.push(c).drop_last() =~= a);
}

proof fn lemma_words_single(c: char)
    ensures
        words_state(seq![c]) == (if chars::is_ws(c) { (Seq::<Seq<char>>::empty(), Seq::<char>::empty()) }
            else { (Seq::<Seq<char>>::empty(), seq![c]) }),
{
    let e = Seq::<char>::empty();
    assert(words_state(e) == (Seq::<Seq<char>>::empty(), Seq::<char>::empty()));
    assert(seq![c].drop_last() =~= e);
    assert(seq![c].last() == c);
    assert(seq![c].len() == 1);
    assert(e.push(c) =~= seq![c]);
    assert(words_state(seq![c]) == (if chars::is_ws(c) { words_state(e) } else { (words_state(e).0, words_state(e).1.push(c)) }));
}

proof fn lemma_words_trim_start(s: Seq<char>)
    ensures
        words_of(chars::trim_start(s)) == words_of(s),
    decreases s.len(),
{
    if s.len() > 0 && chars::is_ws(s[0]) {
        lemma_words_trim_start(s.drop_first());
        lemma_words_single(s[0]);
        lemma_words_concat(seq![s[0]], s.drop_first());
        assert(seq![s[0]] + s.drop_first() =~= s);
        assert(words_of(seq![s[0]]) + words_of(s.drop_first()) =~= words_of(s.drop_first()));
    }
}

proof fn lemma_words_trim_end(s: Seq<char>)
    ensures
        words_of(chars::trim_end(s)) == words_of(s),
    decreases s.len(),
{
    if s.len() > 0 && chars::is_ws(s.last()) {
        lemma_words_trim_end(s.drop_last());
        lemma_words_push_ws(s.drop_last(), s.last());
        assert(s.drop_last().push(s.last()) =~= s);
    }
}

/// Trimming keeps the words.
proof fn lemma_words_trim(s: Seq<char>)
    ensures
        words_of(chars::trim(s)) == words_of(s),
{
    lemma_words_trim_start(s);
    lemma_words_trim_end(chars::trim_start(s));
}

/// Normalising whitespace keeps the words.
proof fn lemma_words_squash(s: Seq<char>)
    ensures
        words_of(chars::squash(s)) == words_of(s),
        chars::squash_state(s).1 ==> s.len() > 0 && chars::is_ws(s.last()) && chars::squash_state(s).0.len() > 0,
        !chars::squash_state(s).1 && chars::squash_state(s).0.len() > 0 ==>
            s.len() > 0 && !chars::is_ws(s.last()) && chars::squash_state(s).0.last() == s.last(),
        chars::squash_state(s).0.len() == 0 ==> words_of(s).len() == 0,
        chars::squash_state(s).0.len() > 0 ==> !chars::is_ws(chars::squash_state(s).0[0]),
    decreases s.len(),
{
    if s.len() > 0 {
        let d = s.drop_last();
        let c = s.last();
        lemma_words_squash(d);
        assert(d.push(c) =~= s);
        let (out, pend) = chars::squash_state(d);
        if chars::is_ws(c) {
            lemma_words_push_ws(d, c);
        } else if pend {
            // out + " " + c against d (ending in whitespace) + c.
            lemma_words_concat(out.push(' '), seq![c]);
            assert(out.push(' ').push(c) =~= out.push(' ') + seq![c]);
            lemma_words_push_ws(out, ' ');
            lemma_words_concat(d, seq![c]);
            assert(d + seq![c] =~= s);
        } else if out.len() == 0 {
            // Nothing but whitespace so far.
            if d.len() > 0 {
                lemma_words_concat_start(d, c);
            } else {
                assert(s =~= seq![c]);
            }
            assert(out.push(c) =~= seq![c]);
        } else {
            lemma_words_extend(out, c);
            lemma_words_extend(d, c);
        }
    }
}

proof fn lemma_words_concat_start(d: Seq<char>, c: char)
    requires
        d.len() > 0,
        words_of(d).len() == 0,
        !chars::is_ws(c),
    ensures
        words_of(d.push(c)) == words_of(seq![c]),
{
    assert(d.push(c).drop_last() =~= d);
    let st = words_state(d);
    assert(st.0.len() == 0);
    assert(st.1.len() == 0);
    lemma_words_single(c);
    assert(st.1.push(c) =~= seq![c]);
}

proof fn lemma_words_extend(x: Seq<char>, c: char)
    requires
        x.len() > 0,
        !chars::is_ws(x.last()),
        !chars::is_ws(c),
    ensures
        words_of(x.push(c)) == words_of(x).drop_last().push(words_of(x).last().push(c)),
        words_of(x).len() > 0,
{
    assert(x.push(c).drop_last() =~= x);
    let st = words_state(x);
    assert(st.1.len() > 0);
    assert(words_of(x).drop_last() =~= st.0);
}

proof fn lemma_words_join(parts: Seq<Seq<char>>)
    ensures
        words_of(strs::join(parts, " "@)) == all_words(parts),
    decreases parts.len(),
{
    if parts.len() == 1 {
        assert(parts.drop_last() =~= Seq::<Seq<char>>::empty());
        assert(all_words(parts.drop_last()) =~= Seq::<Seq<char>>::empty());
        assert(Seq::<Seq<char>>::empty() + words_of(parts[0]) =~= words_of(parts[0]));
    } else if parts.len() > 1 {
        let a = strs::join(parts.drop_last(), " "@);
        lemma_words_join(parts.drop_last());
        reveal_strlit(" ");
        assert(a + " "@ =~= a.push(' '));
        lemma_words_push_ws(a, ' ');
        lemma_words_concat(a + " "@, parts.last());
    } else {
        assert(words_state(Seq::<char>::empty()) == (Seq::<Seq<char>>::empty(), Seq::<char>::empty()));
    }
}

proof fn lemma_words_close(st: GatherState)
    ensures
        all_words(close(st).out) + all_words(close(st).current) == all_words(st.out) + all_words(st.current),
{
    if st.current.len() > 0 {
        let j = strs::join(st.current, " "@);
        let text = chars::squash(j);
        lemma_words_join(st.current);
        lemma_words_squash(j);
        assert(all_words(Seq::<Seq<char>>::empty()) =~= Seq::<Seq<char>>::empty());
        if text.len() > 0 {
            assert(st.out.push(text).drop_last() =~= st.out);
            assert(all_words(st.out.push(text)) + Seq::<Seq<char>>::empty() =~= all_words(st.out) + words_of(text));
        } else {
            assert(words_state(text) == (Seq::<Seq<char>>::empty(), Seq::<char>::empty()));
            assert(all_words(st.out) + Seq::<Seq<char>>::empty() =~= all_words(st.out) + all_words(st.current));
        }
    }
}

proof fn lemma_words_gather_line(st: GatherState, raw: Seq<char>)
    ensures
        all_words(gather_line(st, raw).out) + all_words(gather_line(st, raw).current)
            == all_words(st.out) + all_words(st.current) + words_of(raw),
{
    let t = chars::trim(raw);
    lemma_words_trim(raw);
    if t.len() == 0 {
        lemma_words_close(st);
        assert(words_state(t) == (Seq::<Seq<char>>::empty(), Seq::<char>::empty()));
        assert(all_words(st.out) + all_words(st.current) + words_of(raw) =~= all_words(st.out) + all_words(st.current));
    } else {
        let previous_ended = st.current.len() > 0 && ends_sentence(st.current.last());
        let s1 = if previous_ended || starts_new_block(t) { close(st) } else { st };
        let s2 = GatherState { current: s1.current.push(t), ..s1 };
        lemma_words_close(st);
        assert(s1.current.push(t).drop_last() =~= s1.current);
        assert(all_words(s2.out) + all_words(s2.current) =~= all_words(s1.out) + all_words(s1.current) + words_of(t));
        lemma_words_close(s2);
    }
}

proof fn lemma_words_gather(ls: Seq<Seq<char>>)
    ensures
        all_words(gather(ls).out) + all_words(gather(ls).current) == all_words(ls),
    decreases ls.len(),
{
    if ls.len() == 0 {
        assert(all_words(Seq::<Seq<char>>::empty()) + all_words(Seq::<Seq<char>>::empty()) =~= all_words(ls));
    } else {
        lemma_words_gather(ls.drop_last());
        lemma_words_gather_line(gather(ls.drop_last()), ls.last());
    }
}

proof fn lemma_words_lines_state(s: Seq<char>)
    ensures
        lines_state_fits(s),
    decreases s.len(),
{
    if s.len() == 0 {
        assert(s.skip(0) =~= s);
        assert(s.take(0) =~= s);
        assert(words_state(s) == (Seq::<Seq<char>>::empty(), Seq::<char>::empty()));
        assert(split::lines_state(s) == (Seq::<Seq<char>>::empty(), Seq::<char>::empty()));
        assert(all_words(Seq::<Seq<char>>::empty()) == Seq::<Seq<char>>::empty());
        assert(words_of(s.take(0)) =~= Seq::<Seq<char>>::empty());
        assert(s.skip(0) =~= Seq::<char>::empty());
    } else {
        let d = s.drop_last();
        let c = s.last();
        lemma_words_lines_state(d);
        assert(d.push(c) =~= s);
        let (l0, cur0) = split::lines_state(d);
        let k0 = d.len() - cur0.len();
        if c == '\n' {
            let (l, cur) = split::lines_state(s);
            assert(cur.len() == 0);
            assert(s.take(s.len() as int) =~= s);
            assert(s.skip(s.len() as int) =~= cur);
            assert(d.take(k0) + cur0 =~= d);
            if k0 > 0 {
                assert(d.take(k0).last() == d[k0 - 1]);
            }
            lemma_words_concat(d.take(k0), cur0);
            lemma_words_push_ws(d, c);
            assert(l0.push(cur0).drop_last() =~= l0);
            assert(l == l0.push(cur0));
            assert(all_words(l) == all_words(l0) + words_of(cur0));
            assert(words_of(s.take(s.len() as int)) == all_words(l));
            assert(lines_state_fits(s));
        } else {
            let (l, cur) = split::lines_state(s);
            assert(cur == cur0.push(c));
            assert(s.take(k0) =~= d.take(k0));
            assert(s.skip(k0) =~= d.skip(k0).push(c));
            if k0 > 0 {
                assert(s[k0 - 1] == d[k0 - 1]);
            }
            assert(l == l0);
            assert(s.len() - cur.len() == k0);
            assert(lines_state_fits(s));
        }
    }
}

/// What holds of the line splitting of a text: the current line is the
/// text's tail, after a newline, and the finished lines hold the words
/// before it.
pub open spec fn lines_state_fits(s: Seq<char>) -> bool {
    let (l, cur) = split::lines_state(s);
    let k = s.len() - cur.len();
    &&& 0 <= k
    &&& s.skip(k) == cur
    &&& (k > 0 ==> s[k - 1] == '\n')
    &&& words_of(s.take(k)) == all_words(l)
}

proof fn lemma_words_lines(text: Seq<char>)
    ensures
        all_words(split::lines(text)) == words_of(text),
{
    lemma_words_lines_state(text);
    let (l, cur) = split::lines_state(text);
    let k = text.len() - cur.len();
    assert(text.take(k) + cur =~= text);
    lemma_words_concat(text.take(k), cur);
    assert(l.push(cur).drop_last() =~= l);
}

/// Paragraph splitting loses, adds and reorders no word: the words of the
/// paragraphs, one paragraph after the other, are the words of the text.
pub proof fn lemma_paragraphs_keep_words(text: Seq<char>)
    ensures
        all_words(plain_paragraphs(text)) == words_of(text),
{
    let ls = split::lines(text);
    lemma_words_gather(ls);
    lemma_words_close(gather(ls));
    lemma_words_lines(text);
    assert(all_words(Seq::<Seq<char>>::empty()) =~= Seq::<Seq<char>>::empty());
    assert(close(gather(ls)).current.len() == 0);
    assert(all_words(close(gather(ls)).out) + Seq::<Seq<char>>::empty() =~= all_words(close(gather(ls)).out));
}

/// Where the gathering after line `k` is closed before line `k + 1` is
/// added, the paragraphs split into those holding exactly the words of the
/// lines up to `k` and those holding the rest.
proof fn lemma_boundary_after(ls: Seq<Seq<char>>, k: int)
    requires
        0 <= k,
        k + 1 < ls.len(),
        ({
            let st = gather(ls.take(k + 1));
            let t2 = chars::trim(ls[k + 1]);
            st.current.len() == 0 || ends_sentence(st.current.last()) || t2.len() == 0 || starts_new_block(t2)
        }),
    ensures
        exists|i: int| 0 <= i <= close(gather(ls)).out.len()
            && all_words(#[trigger] close(gather(ls)).out.take(i)) == all_words(ls.take(k + 1)),
{
    assert(ls.take(k + 2).drop_last() == ls.take(k + 1));
    assert(ls.take(k + 2).last() == ls[k + 1]);
    let st = gather(ls.take(k + 1));
    let c = close(st);
    let st2 = gather(ls.take(k + 2));
    assert(st2 == gather_line(st, ls[k + 1]));
    let t2 = chars::trim(ls[k + 1]);
    if t2.len() == 0 {
        assert(st2 == c);
        assert(prefix_of(c.out, st2.out)) by {
            assert(st2.out.take(c.out.len() as int) =~= c.out);
        }
    } else {
        if st.current.len() == 0 {
            assert(c == st);
        }
        let s1 = if (st.current.len() > 0 && ends_sentence(st.current.last())) || starts_new_block(t2) { close(st) } else { st };
        assert(s1 == c);
        let s2 = GatherState { current: s1.current.push(t2), ..s1 };
        lemma_close_grows(s2);
        assert(prefix_of(c.out, s2.out)) by {
            assert(s2.out.take(c.out.len() as int) =~= c.out);
        }
        if is_standalone_line(t2) {
            lemma_prefix_trans(c.out, s2.out, close(s2).out);
        }
    }
    lemma_gather_grows(ls, k + 2);
    lemma_prefix_trans(c.out, st2.out, gather(ls).out);
    lemma_close_grows(gather(ls));
    lemma_prefix_trans(c.out, gather(ls).out, close(gather(ls)).out);
    lemma_words_gather(ls.take(k + 1));
    lemma_words_close(st);
    assert(c.current.len() == 0);
    assert(all_words(c.current) =~= Seq::<Seq<char>>::empty());
    assert(all_words(c.out) + Seq::<Seq<char>>::empty() =~= all_words(c.out));
    assert(close(gather(ls)).out.take(c.out.len() as int) == c.out);
}

/// A line that ends a sentence (its last character, once trimmed, is `.`,
/// `;`, `:`, `!` or `?`) ends its paragraph: the paragraphs split into a
/// first part holding exactly the words of the lines up to it and a rest
/// holding the words after it, so the next line never joins it.
pub proof fn lemma_sentence_end_ends_paragraph(text: Seq<char>, k: int)
    requires
        0 <= k,
        k + 1 < split::lines(text).len(),
        chars::trim(split::lines(text)[k]).len() > 0,
        ({
            let c = chars::trim(split::lines(text)[k]).last();
            c == '.' || c == ';' || c == ':' || c == '!' || c == '?'
        }),
    ensures
        exists|i: int| 0 <= i <= plain_paragraphs(text).len()
            && all_words(#[trigger] plain_paragraphs(text).take(i)) == all_words(split::lines(text).take(k + 1)),
{
    let ls = split::lines(text);
    let t = chars::trim(ls[k]);
    assert(ls.take(k + 1).drop_last() == ls.take(k));
    assert(ls.take(k + 1).last() == ls[k]);
    let st = gather(ls.take(k + 1));
    assert(st.current.len() == 0 || st.current.last() == t);
    if st.current.len() > 0 {
        assert(ends_sentence(st.current.last()));
    }
    lemma_boundary_after(ls, k);
    let ps = close(gather(ls)).out;
    assert(plain_paragraphs(text) == ps);
    let i = choose|i: int| 0 <= i <= ps.len() && all_words(#[trigger] ps.take(i)) == all_words(ls.take(k + 1));
    assert(all_words(plain_paragraphs(text).take(i)) == all_words(ls.take(k + 1)));
}

/// A paragraph also ends before a blank line, after a blank line, and before
/// a line (once trimmed) that opens with a quotation mark or with a digit
/// followed by whitespace or `)` (a definition or a numbered item): the
/// paragraphs split between the words up to line `k` and those after it.
pub proof fn lemma_new_block_starts_paragraph(text: Seq<char>, k: int)
    requires
        0 <= k,
        k + 1 < split::lines(text).len(),
        ({
            let t = chars::trim(split::lines(text)[k]);
            let t2 = chars::trim(split::lines(text)[k + 1]);
            ||| t.len() == 0
            ||| t2.len() == 0
            ||| t2[0] == '"' || t2[0] == '\u{201C}'
            ||| t2.len() >= 2 && '0' <= t2[0] <= '9' && (chars::is_ws(t2[1]) || t2[1] == ')')
        }),
    ensures
        exists|i: int| 0 <= i <= plain_paragraphs(text).len()
            && all_words(#[trigger] plain_paragraphs(text).take(i)) == all_words(split::lines(text).take(k + 1)),
{
    let ls = split::lines(text);
    let t = chars::trim(ls[k]);
    let t2 = chars::trim(ls[k + 1]);
    assert(ls.take(k + 1).drop_last() == ls.take(k));
    assert(ls.take(k + 1).last() == ls[k]);
    if t.len() == 0 {
        assert(gather(ls.take(k + 1)) == close(gather(ls.take(k))));
    } else if t2.len() > 0 && t2.len() >= 2 && '0' <= t2[0] <= '9' && (chars::is_ws(t2[1]) || t2[1] == ')') {
        assert(!is_number_head(t2[1]));
        assert(crate::grammar::run_while(t2, 1, number_heads()) == 0);
        assert(crate::grammar::run_while(t2, 0, number_heads()) == 1);
        assert(is_numbered(t2));
    }
    lemma_boundary_after(ls, k);
    let ps = close(gather(ls)).out;
    assert(plain_paragraphs(text) == ps);
    let i = choose|i: int| 0 <= i <= ps.len() && all_words(#[trigger] ps.take(i)) == all_words(ls.take(k + 1));
    assert(all_words(plain_paragraphs(text).take(i)) == all_words(ls.take(k + 1)));
}

proof fn lemma_trim_first_solid(s: Seq<char>)
    requires
        chars::trim(s).len() > 0,
    ensures
        !chars::is_ws(chars::trim(s)[0]),
{
    lemma_trim_start_first(s);
    split::lemma_trim_end_keeps_first(chars::trim_start(s));
}

proof fn lemma_trim_start_first(s: Seq<char>)
    ensures
        chars::trim_start(s).len() > 0 ==> !chars::is_ws(chars::trim_start(s)[0]),
        chars::trim_start(s).len() == 0 ==> chars::trim(s).len() == 0,
    decreases s.len(),
{
    if s.len() > 0 && chars::is_ws(s[0]) {
        lemma_trim_start_first(s.drop_first());
    }
}

proof fn lemma_squash_nonempty(s: Seq<char>, k: int)
    requires
        0 <= k < s.len(),
        !chars::is_ws(s[k]),
    ensures
        chars::squash(s).len() > 0,
    decreases s.len(),
{
    let d = s.drop_last();
    if k < s.len() - 1 {
        assert(d[k] == s[k]);
        lemma_squash_nonempty(d, k);
    }
    assert(d.push(s.last()) =~= s);
}

/// The line opens with one of the schedule words (ASCII case ignored).
pub open spec fn opens_with_schedule_word(t: Seq<char>) -> bool {
    let l = chars::lower(t);
    chars::starts_with(l, "schedule"@) || chars::starts_with(l, "annexure"@) || chars::starts_with(l, "annex "@)
        || chars::starts_with(l, "appendix"@) || chars::starts_with(l, "exhibit"@)
}

/// The line holds a letter that is not upper case.
pub open spec fn has_lower_letter(t: Seq<char>) -> bool {
    exists|i: int| 0 <= i < t.len() && chars::alphabetic(t[i]) && !chars::uppercase(#[trigger] t[i])
}

/// A wrapped line joins the line before it: where the first line does not
/// end a sentence (its last character is none of `.`, `;`, `:`, `!`, `?`)
/// and neither line is a heading or a schedule marker, nor does the second
/// open a numbered item or a quotation, the two lines are one paragraph,
/// their words joined by single spaces.
pub proof fn lemma_wrapped_lines_join(l1: Seq<char>, l2: Seq<char>)
    requires
        !l1.contains('\n'),
        !l2.contains('\n'),
        chars::trim(l1).len() > 0,
        chars::trim(l2).len() > 0,
        ({
            let c = chars::trim(l1).last();
            c != '.' && c != ';' && c != ':' && c != '!' && c != '?'
        }),
        has_lower_letter(chars::trim(l1)),
        has_lower_letter(chars::trim(l2)),
        !opens_with_schedule_word(chars::trim(l1)),
        !opens_with_schedule_word(chars::trim(l2)),
        ({
            let c = chars::trim(l2)[0];
            !('0' <= c <= '9') && c != '"' && c != '\u{201C}'
        }),
    ensures
        plain_paragraphs(l1 + seq!['\n'] + l2) == seq![chars::squash(chars::trim(l1) + " "@ + chars::trim(l2))],
{
    let t1 = chars::trim(l1);
    let t2 = chars::trim(l2);
    let text = l1 + seq!['\n'] + l2;
    split::lemma_lines_join(l1, l2);
    split::lemma_one_line(l1);
    split::lemma_one_line(l2);
    let ls = split::lines(text);
    assert(ls =~= seq![l1, l2]);
    // Neither line is a heading, a schedule marker or the start of a block.
    assert(!all_caps(t1)) by {
        let i = choose|i: int| 0 <= i < t1.len() && chars::alphabetic(t1[i]) && !chars::uppercase(#[trigger] t1[i]);
    }
    assert(!all_caps(t2)) by {
        let i = choose|i: int| 0 <= i < t2.len() && chars::alphabetic(t2[i]) && !chars::uppercase(#[trigger] t2[i]);
    }
    assert(!opens_schedule(t1)) by {
        if opens_schedule(t1) {
            let i = choose|i: int| 0 <= i < schedule_prefixes().len() && chars::starts_with(chars::lower(t1), schedule_prefixes()[i]);
            assert(0 <= i < 5);
        }
    }
    assert(!opens_schedule(t2)) by {
        if opens_schedule(t2) {
            let i = choose|i: int| 0 <= i < schedule_prefixes().len() && chars::starts_with(chars::lower(t2), schedule_prefixes()[i]);
            assert(0 <= i < 5);
        }
    }
    assert(!is_standalone_line(t1));
    assert(!is_standalone_line(t2));
    assert(!ends_sentence(t1));
    assert(!is_numbered(t2));
    assert(!starts_new_block(t2));
    let e = GatherState { out: Seq::empty(), current: Seq::empty() };
    assert(seq![l1, l2].drop_last() =~= seq![l1]);
    assert(seq![l1].drop_last() =~= Seq::<Seq<char>>::empty());
    assert(gather(Seq::<Seq<char>>::empty()) == e);
    let g1 = gather(seq![l1]);
    assert(g1 == gather_line(e, l1));
    assert(close(e) == e);
    assert(g1 == GatherState { out: Seq::empty(), current: seq![t1] }) by {
        assert(e.current.push(t1) =~= seq![t1]);
    }
    let g2 = gather(seq![l1, l2]);
    assert(g2 == gather_line(g1, l2));
    assert(g1.current.last() == t1);
    assert(g2 == GatherState { out: Seq::empty(), current: seq![t1, t2] }) by {
        assert(seq![t1].push(t2) =~= seq![t1, t2]);
    }
    let j = strs::join(seq![t1, t2], " "@);
    assert(seq![t1, t2].drop_last() =~= seq![t1]);
    assert(strs::join(seq![t1], " "@) == t1);
    assert(j == t1 + " "@ + t2);
    lemma_trim_first_solid(l1);
    assert(j[0] == t1[0]);
    lemma_squash_nonempty(j, 0);
    assert(close(g2).out =~= seq![chars::squash(j)]);
}

fn short_all_caps_exec(line: &[char]) -> (r: bool)
    ensures
        r == short_all_caps(line@),
{
    if !byte_len_le(line, 80) {
        return false;
    }
    let mut any = false;
    let mut i: usize = 0;
    while i < line.len()
        invariant
            i <= line.len(),
            any == exists|k: int| 0 <= k < i && chars::alphabetic(line@[k]),
            forall|k: int| 0 <= k < i && chars::alphabetic(line@[k]) ==> chars::uppercase(line@[k]),
        decreases line.len() - i,
    {
        if chars::is_alphabetic(line[i]) {
            if !chars::is_uppercase(line[i]) {
                return false;
            }
            any = true;
        }
        i += 1;
    }
    any
}

fn opens_schedule_exec(line: &[char]) -> (r: bool)
    ensures
        r == opens_schedule(line@),
{
    let low = to_lower(line);
    let words: [&str; 5] = ["schedule", "annexure", "annex ", "appendix", "exhibit"];
    assert(strs::str_views(words@) =~= schedule_prefixes());
    let mut i: usize = 0;
    while i < 5
        invariant
            i <= 5,
            low@ == chars::lower(line@),
            strs::str_views(words@) == schedule_prefixes(),
            forall|k: int| 0 <= k < i ==> !chars::starts_with(chars::lower(line@), schedule_prefixes()[k]),
        decreases 5 - i,
    {
        assert(strs::str_views(words@)[i as int] == words@[i as int]@);
        if starts_with_str(low.as_slice(), words[i]) {
            return true;
        }
        i += 1;
    }
    false
}

fn is_standalone_line_exec(line: &[char]) -> (r: bool)
    ensures
        r == is_standalone_line(line@),
{
    if line.len() > 0 && (line[line.len() - 1] == ',' || line[line.len() - 1] == ';') {
        return false;
    }
    short_all_caps_exec(line) || (byte_len_le(line, 80) && opens_schedule_exec(line))
}

fn is_numbered_exec(line: &[char]) -> (r: bool)
    ensures
        r == is_numbered(line@),
{
    if line.len() == 0 || !(line[0] >= '0' && line[0] <= '9') {
        return false;
    }
    let ghost p = number_heads();
    let mut h: usize = 0;
    while h < line.len() && ((line[h] >= '0' && line[h] <= '9') || line[h] == '.')
        invariant
            h <= line.len(),
            p == number_heads(),
            crate::grammar::run_while(line@, 0, p) == h + crate::grammar::run_while(line@, h as int, p),
        decreases line.len() - h,
    {
        proof {
            assert(p(line@[h as int]));
            crate::grammar::lemma_run_step(line@, h as int, p);
        }
        h += 1;
    }
    assert(crate::grammar::run_while(line@, h as int, p) == 0);
    h < line.len() && (chars::is_ws_exec(line[h]) || line[h] == ')')
}

fn starts_new_block_exec(line: &[char]) -> (r: bool)
    ensures
        r == starts_new_block(line@),
{
    is_numbered_exec(line) || short_all_caps_exec(line) || opens_schedule_exec(line)
        || (line.len() > 0 && (line[0] == '"' || line[0] == '\u{201C}'))
}

fn ends_sentence_exec(line: &[char]) -> (r: bool)
    ensures
        r == ends_sentence(line@),
{
    if line.len() == 0 {
        return false;
    }
    let c = line[line.len() - 1];
    c == '.' || c == ';' || c == ':' || c == '!' || c == '?'
}

spec fn lines_view(v: Seq<Vec<char>>) -> Seq<Seq<char>> {
    v.map_values(|l: Vec<char>| l@)
}

fn join_lines(current: &Vec<Vec<char>>) -> (r: Vec<char>)
    ensures
        r@ == strs::join(lines_view(current@), " "@),
{
    proof {
        reveal_strlit(" ");
    }
    let mut out: Vec<char> = Vec::new();
    let mut i: usize = 0;
    while i < current.len()
        invariant
            i <= current.len(),
            " "@ == seq![' '],
            out@ == strs::join(lines_view(current@).take(i as int), " "@),
        decreases current.len() - i,
    {
        assert(lines_view(current@).take(i + 1).drop_last() == lines_view(current@).take(i as int));
        assert(lines_view(current@).take(i + 1).last() == current@[i as int]@);
        let ghost o0 = out@;
        if i > 0 {
            out.push(' ');
        }
        let line = &current[i];
        let mut j: usize = 0;
        let ghost mid = out@;
        while j < line.len()
            invariant
                j <= line.len(),
                out@ == mid + line@.take(j as int),
            decreases line.len() - j,
        {
            out.push(line[j]);
            j += 1;
            assert(line@.take(j as int) == line@.take((j - 1) as int).push(line@[j - 1]));
        }
        assert(line@.take(line.len() as int) == line@);
        if i > 0 {
            assert(mid == o0 + " "@);
        } else {
            assert(lines_view(current@).take(0) == Seq::<Seq<char>>::empty());
        }
        i += 1;
    }
    assert(lines_view(current@).take(current.len() as int) == lines_view(current@));
    out
}

fn close_exec(current: &mut Vec<Vec<char>>, out: &mut Vec<Paragraph>)
    ensures
        ({
            let st = close(GatherState { out: paragraph_texts(old(out)@), current: lines_view(old(current)@) });
            &&& paragraph_texts(final(out)@) == st.out
            &&& lines_view(final(current)@) == st.current
            &&& all_unstyled(old(out)@) ==> all_unstyled(final(out)@)
        }),
{
    if current.len() == 0 {
        return;
    }
    let joined = join_lines(current);
    *current = Vec::new();
    assert(lines_view(current@) =~= Seq::<Seq<char>>::empty());
    let text = squash_chars(joined.as_slice());
    if text.len() > 0 {
        let ghost o0 = paragraph_texts(out@);
        out.push(Paragraph { text: string_of(text.as_slice()), heading_level: None, ooxml: None });
        assert(paragraph_texts(out@) =~= o0.push(text@));
    }
}

pub open spec fn paragraph_texts(v: Seq<Paragraph>) -> Seq<Seq<char>> {
    v.map_values(|p: Paragraph| p.text@)
}

pub open spec fn all_unstyled(v: Seq<Paragraph>) -> bool {
    forall|i: int| 0 <= i < v.len() ==> v[i].heading_level is None
}

/// Split plain text into paragraphs: blank lines separate; a line joins the
/// paragraph before it unless it starts a new block, the previous line ended a
/// sentence, or the previous line stood alone (a heading or schedule marker).
/// Whitespace inside each paragraph is collapsed to single spaces.
pub fn paragraphs_from_plain_text(text: &str) -> (r: Vec<Paragraph>)
    ensures
        paragraph_texts(r@) == plain_paragraphs(text@),
        all_unstyled(r@),
{
    let all = chars_of(text);
    let ls = split_lines_of(all.as_slice());
    let ghost lv = lines_view(ls@);
    let mut out: Vec<Paragraph> = Vec::new();
    let mut current: Vec<Vec<char>> = Vec::new();
    assert(paragraph_texts(out@) =~= Seq::<Seq<char>>::empty());
    assert(lines_view(current@) =~= Seq::<Seq<char>>::empty());
    let mut i: usize = 0;
    while i < ls.len()
        invariant
            i <= ls.len(),
            lv == lines_view(ls@),
            lv == split::lines(text@),
            (GatherState { out: paragraph_texts(out@), current: lines_view(current@) }) == gather(lv.take(i as int)),
            all_unstyled(out@),
        decreases ls.len() - i,
    {
        assert(lv.take(i + 1).drop_last() == lv.take(i as int));
        assert(lv.take(i + 1).last() == ls@[i as int]@);
        let t = trim_chars(ls[i].as_slice());
        if t.len() == 0 {
            close_exec(&mut current, &mut out);
        } else {
            let previous_ended = current.len() > 0 && ends_sentence_exec(current[current.len() - 1].as_slice());
            assert(current.len() > 0 ==> lines_view(current@).last() == current@[current.len() - 1]@);
            if previous_ended || starts_new_block_exec(t.as_slice()) {
                close_exec(&mut current, &mut out);
            }
            let standalone = is_standalone_line_exec(t.as_slice());
            let ghost c0 = lines_view(current@);
            let ghost tv = t@;
            current.push(t);
            assert(lines_view(current@) =~= c0.push(tv));
            if standalone {
                close_exec(&mut current, &mut out);
            }
        }
        i += 1;
    }
    assert(lv.take(ls.len() as int) == lv);
    close_exec(&mut current, &mut out);
    out
}

fn split_lines_of(s: &[char]) -> (r: Vec<Vec<char>>)
    ensures
        lines_view(r@) == split::lines(s@),
{
    split::split_lines(s)
}

} // verus!
